use peer_discovery::engine::{
    Action, BootstrapConfig, DiscoveryEngine, DiscoveryError, EngineState, Event, Mode,
    FIRST_RETRY_DELAY_MS, MAX_DIAL_ATTEMPTS, QUERY_TIMEOUT_MS,
};
use peer_discovery::id::{bucket_index, xor_distance, NodeId};
use peer_discovery::identity::{node_id_text, parse_node_id, Identity};
use peer_discovery::record::{Address, PeerRecord};
use peer_discovery::table::{InsertResult, RoutingTable, K};

fn nid(bytes: &[u8]) -> NodeId {
    NodeId::new(bytes.to_vec())
}

fn addr(bytes: &[u8]) -> Address {
    Address::new(bytes.to_vec())
}

fn rec(id: &[u8], address: &[u8], last_seen: u64) -> PeerRecord {
    PeerRecord::first_seen(nid(id), addr(address), last_seen)
}

fn ids_of(records: &[PeerRecord]) -> Vec<Vec<u8>> {
    records.iter().map(|r| r.id.bytes.clone()).collect()
}

#[test]
fn distance_is_symmetric() {
    let a = nid(&[0x12, 0x34]);
    let b = nid(&[0xab, 0xcd]);
    assert_eq!(xor_distance(&a, &b), xor_distance(&b, &a));
}

#[test]
fn distance_to_self_is_zero() {
    let a = nid(&[0x12, 0x34, 0x56]);
    assert_eq!(xor_distance(&a, &a), vec![0u8, 0, 0]);
}

#[test]
fn distance_exact_value() {
    let a = nid(&[0x0f, 0xf0]);
    let b = nid(&[0xf0, 0x0f]);
    assert_eq!(xor_distance(&a, &b), vec![0xffu8, 0xff]);
}

#[test]
fn bucket_index_counts_shared_leading_bits() {
    let local = nid(&[0x00, 0x00]);
    assert_eq!(bucket_index(&local, &nid(&[0x80, 0x00])), 0);
    assert_eq!(bucket_index(&local, &nid(&[0x01, 0x00])), 7);
    assert_eq!(bucket_index(&local, &nid(&[0x00, 0x01])), 15);
    assert_eq!(bucket_index(&local, &nid(&[0x20, 0x00])), 2);
}

#[test]
fn insert_then_lookup() {
    let mut t = RoutingTable::new(nid(&[0x00, 0x00]));
    let r = t.insert(&rec(&[0x80, 0x01], b"a1", 10));
    assert!(matches!(r, InsertResult::Added));
    let out = t.closest(&nid(&[0x80, 0x01]), 10);
    assert_eq!(out.len(), 1);
    assert_eq!(out[0].id.bytes, vec![0x80u8, 0x01]);
    assert_eq!(out[0].last_seen, 10);
}

#[test]
fn insert_twice_is_idempotent() {
    let mut t = RoutingTable::new(nid(&[0x00, 0x00]));
    assert!(matches!(t.insert(&rec(&[0x80, 0x01], b"a1", 10)), InsertResult::Added));
    assert!(matches!(t.insert(&rec(&[0x80, 0x01], b"a1", 10)), InsertResult::Updated));
    let out = t.closest(&nid(&[0x00, 0x00]), 10);
    assert_eq!(out.len(), 1);
    assert_eq!(out[0].id.bytes, vec![0x80u8, 0x01]);
    assert_eq!(out[0].addresses.len(), 1);
    assert_eq!(out[0].addresses[0].bytes, b"a1".to_vec());
    assert_eq!(out[0].last_seen, 10);
}

#[test]
fn update_merges_addresses_and_advances_last_seen() {
    let mut t = RoutingTable::new(nid(&[0x00, 0x00]));
    t.insert(&rec(&[0x80, 0x01], b"a1", 10));
    assert!(matches!(t.insert(&rec(&[0x80, 0x01], b"a2", 7)), InsertResult::Updated));
    let out = t.closest(&nid(&[0x00, 0x00]), 10);
    assert_eq!(out.len(), 1);
    assert_eq!(out[0].addresses.len(), 2);
    assert_eq!(out[0].addresses[0].bytes, b"a1".to_vec());
    assert_eq!(out[0].addresses[1].bytes, b"a2".to_vec());
    assert_eq!(out[0].last_seen, 10);
}

#[test]
fn closest_sorts_by_distance_and_caps_count() {
    let mut t = RoutingTable::new(nid(&[0x00, 0x00]));
    t.insert(&rec(&[0x80, 0x01], b"a", 1));
    t.insert(&rec(&[0x80, 0x02], b"b", 2));
    t.insert(&rec(&[0x40, 0x01], b"c", 3));
    let target = nid(&[0x40, 0x00]);
    let two = t.closest(&target, 2);
    assert_eq!(ids_of(&two), vec![vec![0x40u8, 0x01], vec![0x80u8, 0x01]]);
    let all = t.closest(&target, 10);
    assert_eq!(
        ids_of(&all),
        vec![vec![0x40u8, 0x01], vec![0x80u8, 0x01], vec![0x80u8, 0x02]]
    );
    let none = t.closest(&target, 0);
    assert_eq!(none.len(), 0);
}

#[test]
fn closest_never_returns_the_local_id() {
    let local = nid(&[0x00, 0x00]);
    let mut t = RoutingTable::new(local.duplicate());
    t.insert(&rec(&[0x80, 0x01], b"a", 1));
    for r in t.closest(&local, 10) {
        assert_ne!(r.id.bytes, local.bytes);
    }
}

#[test]
fn full_bucket_rejects_and_names_least_recently_seen() {
    let mut t = RoutingTable::new(nid(&[0x00, 0x00]));
    for x in 0..K {
        // all these share no leading bit with the local id: one bucket
        let r = t.insert(&rec(&[0x80, x as u8], b"a", 100 + x as u64));
        assert!(matches!(r, InsertResult::Added));
    }
    match t.insert(&rec(&[0x80, 0xff], b"a", 999)) {
        InsertResult::BucketFull(candidate) => {
            assert_eq!(candidate.id.bytes, vec![0x80u8, 0x00]);
            assert_eq!(candidate.last_seen, 100);
        }
        _ => panic!("expected a full bucket"),
    }
    // the table is unchanged: still K records, the newcomer absent
    let all = t.closest(&nid(&[0x00, 0x00]), 2 * K);
    assert_eq!(all.len(), K);
    assert!(!ids_of(&all).contains(&vec![0x80u8, 0xff]));
}

#[test]
fn remove_drops_only_the_named_peer() {
    let mut t = RoutingTable::new(nid(&[0x00, 0x00]));
    t.insert(&rec(&[0x80, 0x01], b"a", 1));
    t.insert(&rec(&[0x40, 0x01], b"b", 2));
    t.remove(&nid(&[0x80, 0x01]));
    let all = t.closest(&nid(&[0x00, 0x00]), 10);
    assert_eq!(ids_of(&all), vec![vec![0x40u8, 0x01]]);
    // removing an absent peer changes nothing
    t.remove(&nid(&[0x80, 0x01]));
    assert_eq!(t.closest(&nid(&[0x00, 0x00]), 10).len(), 1);
}

#[test]
fn identity_is_deterministic_for_one_keypair() {
    let seed = vec![7u8; 32];
    let a = Identity::from_seed(&seed).expect("identity from seed");
    let b = Identity::from_seed(&seed).expect("identity from seed");
    assert_eq!(a.id.bytes, b.id.bytes);
    assert_eq!(a.node_id().bytes, a.node_id().bytes);
    assert_eq!(a.node_id().bytes, a.id.bytes);
}

#[test]
fn identities_from_different_seeds_differ() {
    let a = Identity::from_seed(&vec![1u8; 32]).expect("identity from seed");
    let b = Identity::from_seed(&vec![2u8; 32]).expect("identity from seed");
    assert_ne!(a.id.bytes, b.id.bytes);
}

#[test]
fn seed_of_wrong_length_is_rejected() {
    assert!(Identity::from_seed(&vec![5u8; 31]).is_none());
    assert!(Identity::from_seed(&vec![5u8; 33]).is_none());
    assert!(Identity::from_seed(&Vec::new()).is_none());
}

#[test]
fn generated_identity_has_nonempty_id() {
    let ident = Identity::generate().expect("fresh identity");
    assert!(!ident.id.bytes.is_empty());
}

#[test]
fn identifier_text_round_trips() {
    let ident = Identity::from_seed(&vec![3u8; 32]).expect("identity from seed");
    let text = node_id_text(&ident.id).expect("canonical text");
    let back = parse_node_id(&text).expect("parse canonical text");
    assert_eq!(back.bytes, ident.id.bytes);
    assert_ne!(text.as_bytes().to_vec(), ident.id.bytes);
}

#[test]
fn malformed_bootstrap_identifier_is_rejected() {
    let r = BootstrapConfig::from_text(&String::from("not a peer id"), addr(b"/ip4/x"));
    assert!(matches!(r, Err(DiscoveryError::MalformedBootstrapIdentifier)));
}

#[test]
fn well_formed_bootstrap_identifier_is_accepted() {
    let ident = Identity::from_seed(&vec![4u8; 32]).expect("identity from seed");
    let text = node_id_text(&ident.id).expect("canonical text");
    let c = BootstrapConfig::from_text(&text, addr(b"/ip4/boot")).expect("config");
    assert_eq!(c.peer_id.bytes, ident.id.bytes);
    assert_eq!(c.address.bytes, b"/ip4/boot".to_vec());
}

fn client_engine(local: &[u8], boot_addr: &[u8]) -> DiscoveryEngine {
    let config = BootstrapConfig { peer_id: nid(&[0x99, 0x99]), address: addr(boot_addr) };
    DiscoveryEngine::new(nid(local), Mode::Client, Some(config))
}

#[test]
fn client_start_dials_the_bootstrap() {
    let engine = client_engine(&[0x00, 0x00], b"/ip4/boot");
    let actions = engine.start();
    assert_eq!(actions.len(), 1);
    match &actions[0] {
        Action::Dial { address, delay_ms } => {
            assert_eq!(address.bytes, b"/ip4/boot".to_vec());
            assert_eq!(*delay_ms, 0);
        }
        _ => panic!("expected a dial"),
    }
}

#[test]
fn server_start_waits() {
    let engine = DiscoveryEngine::new(nid(&[0x00, 0x00]), Mode::Server, None);
    assert_eq!(engine.start().len(), 0);
}

#[test]
fn joining_node_learns_the_bootstrap_on_connect() {
    // node B (client) dials A; after the connection, B's table holds exactly A
    let mut b = client_engine(&[0x00, 0x00], b"/ip4/boot");
    let a_id = [0x80u8, 0x01];
    let actions = b.handle_event(
        Event::ConnectionEstablished { peer: nid(&a_id), address: addr(b"/ip4/boot") },
        5,
    );
    assert!(matches!(b.state, EngineState::Active));
    let known = b.table.closest(&nid(&[0x00, 0x00]), 10);
    assert_eq!(ids_of(&known), vec![a_id.to_vec()]);
    assert!(matches!(actions[0], Action::StartBootstrapQuery));
    match &actions[1] {
        Action::QueryClosest { target } => assert_eq!(target.bytes, vec![0x00u8, 0x00]),
        _ => panic!("expected a lookup of the local neighborhood"),
    }
}

#[test]
fn active_node_queries_the_new_peer_neighborhood() {
    let mut e = client_engine(&[0x00, 0x00], b"/ip4/boot");
    e.handle_event(
        Event::ConnectionEstablished { peer: nid(&[0x80, 0x01]), address: addr(b"x") },
        1,
    );
    let actions = e.handle_event(
        Event::ConnectionEstablished { peer: nid(&[0x80, 0x02]), address: addr(b"y") },
        2,
    );
    match &actions[0] {
        Action::QueryClosest { target } => assert_eq!(target.bytes, vec![0x80u8, 0x02]),
        _ => panic!("expected a lookup of the new peer"),
    }
}

#[test]
fn server_advertises_new_peers() {
    let mut a = DiscoveryEngine::new(nid(&[0x00, 0x00]), Mode::Server, None);
    let actions = a.handle_event(
        Event::ConnectionEstablished { peer: nid(&[0x80, 0x03]), address: addr(b"z") },
        1,
    );
    assert!(actions.iter().any(|act| matches!(
        act,
        Action::Advertise { key } if key.bytes == vec![0x80u8, 0x03]
    )));
}

#[test]
fn self_connection_is_ignored() {
    let mut e = client_engine(&[0x00, 0x00], b"/ip4/boot");
    let actions = e.handle_event(
        Event::ConnectionEstablished { peer: nid(&[0x00, 0x00]), address: addr(b"x") },
        1,
    );
    assert_eq!(actions.len(), 0);
    assert_eq!(e.table.closest(&nid(&[0x00, 0x00]), 10).len(), 0);
    assert!(matches!(e.state, EngineState::Joining));
}

#[test]
fn discovered_peers_propagate_transitively() {
    // C joins via A; A's answer to C's neighborhood query names B, which C
    // then knows (transitive discovery)
    let mut c = client_engine(&[0x00, 0x00], b"/ip4/boot");
    let a_id = [0x80u8, 0x01];
    let b_id = [0x40u8, 0x01];
    c.handle_event(
        Event::ConnectionEstablished { peer: nid(&a_id), address: addr(b"/ip4/boot") },
        1,
    );
    let actions = c.handle_event(
        Event::ClosestPeersResult { target: nid(&[0x00, 0x00]), peers: vec![rec(&b_id, b"/ip4/b", 2)] },
        2,
    );
    assert_eq!(actions.len(), 0);
    let known = ids_of(&c.table.closest(&nid(&[0x00, 0x00]), 10));
    assert!(known.contains(&a_id.to_vec()));
    assert!(known.contains(&b_id.to_vec()));
}

#[test]
fn discovered_self_is_filtered_out() {
    let mut e = client_engine(&[0x00, 0x00], b"/ip4/boot");
    e.handle_event(
        Event::ClosestPeersResult { target: nid(&[0x00, 0x00]), peers: vec![rec(&[0x00, 0x00], b"me", 1)] },
        1,
    );
    assert_eq!(e.table.closest(&nid(&[0x00, 0x00]), 10).len(), 0);
}

#[test]
fn eviction_waits_for_a_failed_probe() {
    let mut e = DiscoveryEngine::new(nid(&[0x00, 0x00]), Mode::Client, None);
    let mut peers = Vec::new();
    for x in 0..K {
        peers.push(rec(&[0x80, x as u8], b"a", 100 + x as u64));
    }
    e.handle_event(Event::ClosestPeersResult { target: nid(&[0x00, 0x00]), peers }, 1);
    assert_eq!(e.table.closest(&nid(&[0x00, 0x00]), 2 * K).len(), K);

    // one more peer of the same bucket: rejected for now, probe the
    // least-recently-seen record
    let actions = e.handle_event(
        Event::ConnectionEstablished { peer: nid(&[0x80, 0xff]), address: addr(b"n") },
        999,
    );
    assert!(actions.iter().any(|act| matches!(
        act,
        Action::Probe { peer } if peer.bytes == vec![0x80u8, 0x00]
    )));
    let known = ids_of(&e.table.closest(&nid(&[0x00, 0x00]), 2 * K));
    assert_eq!(known.len(), K);
    assert!(!known.contains(&vec![0x80u8, 0xff]));

    // the candidate answers: the newcomer stays rejected, the bucket keeps K
    e.handle_event(Event::PingOutcome { peer: nid(&[0x80, 0x00]), responsive: true }, 1000);
    let known = ids_of(&e.table.closest(&nid(&[0x00, 0x00]), 2 * K));
    assert_eq!(known.len(), K);
    assert!(known.contains(&vec![0x80u8, 0x00]));
    assert!(!known.contains(&vec![0x80u8, 0xff]));
}

#[test]
fn failed_probe_evicts_and_replaces() {
    let mut e = DiscoveryEngine::new(nid(&[0x00, 0x00]), Mode::Client, None);
    let mut peers = Vec::new();
    for x in 0..K {
        peers.push(rec(&[0x80, x as u8], b"a", 100 + x as u64));
    }
    e.handle_event(Event::ClosestPeersResult { target: nid(&[0x00, 0x00]), peers }, 1);
    e.handle_event(
        Event::ConnectionEstablished { peer: nid(&[0x80, 0xff]), address: addr(b"n") },
        999,
    );
    e.handle_event(Event::PingOutcome { peer: nid(&[0x80, 0x00]), responsive: false }, 1000);
    let known = ids_of(&e.table.closest(&nid(&[0x00, 0x00]), 2 * K));
    assert_eq!(known.len(), K);
    assert!(!known.contains(&vec![0x80u8, 0x00]));
    assert!(known.contains(&vec![0x80u8, 0xff]));
}

#[test]
fn closed_connection_defers_removal_to_a_probe() {
    let mut e = DiscoveryEngine::new(nid(&[0x00, 0x00]), Mode::Client, None);
    e.handle_event(
        Event::ConnectionEstablished { peer: nid(&[0x80, 0x01]), address: addr(b"x") },
        1,
    );
    let actions = e.handle_event(Event::ConnectionClosed { peer: nid(&[0x80, 0x01]) }, 2);
    assert!(matches!(&actions[0], Action::Probe { peer } if peer.bytes == vec![0x80u8, 0x01]));
    // still known until the probe fails
    assert_eq!(e.table.closest(&nid(&[0x00, 0x00]), 10).len(), 1);
    e.handle_event(Event::PingOutcome { peer: nid(&[0x80, 0x01]), responsive: false }, 3);
    assert_eq!(e.table.closest(&nid(&[0x00, 0x00]), 10).len(), 0);
}

#[test]
fn responsive_peer_survives_a_closed_connection() {
    let mut e = DiscoveryEngine::new(nid(&[0x00, 0x00]), Mode::Client, None);
    e.handle_event(
        Event::ConnectionEstablished { peer: nid(&[0x80, 0x01]), address: addr(b"x") },
        1,
    );
    e.handle_event(Event::ConnectionClosed { peer: nid(&[0x80, 0x01]) }, 2);
    e.handle_event(Event::PingOutcome { peer: nid(&[0x80, 0x01]), responsive: true }, 3);
    assert_eq!(e.table.closest(&nid(&[0x00, 0x00]), 10).len(), 1);
}

#[test]
fn dial_failures_back_off_then_give_up() {
    let mut e = client_engine(&[0x00, 0x00], b"/ip4/boot");
    let mut expected_delay = FIRST_RETRY_DELAY_MS;
    for _ in 0..MAX_DIAL_ATTEMPTS {
        let actions = e.handle_event(Event::DialFailed, 0);
        assert_eq!(actions.len(), 1);
        match &actions[0] {
            Action::Dial { address, delay_ms } => {
                assert_eq!(address.bytes, b"/ip4/boot".to_vec());
                assert_eq!(*delay_ms, expected_delay);
            }
            _ => panic!("expected a retry"),
        }
        expected_delay *= 2;
    }
    let actions = e.handle_event(Event::DialFailed, 0);
    assert_eq!(actions.len(), 1);
    assert!(matches!(
        &actions[0],
        Action::ReportUnreachable { address } if address.bytes == b"/ip4/boot".to_vec()
    ));
}

#[test]
fn refresh_tick_reissues_the_self_lookup() {
    let mut e = DiscoveryEngine::new(nid(&[0x12, 0x34]), Mode::Client, None);
    let actions = e.handle_event(Event::RefreshTick, 0);
    assert_eq!(actions.len(), 1);
    match &actions[0] {
        Action::QueryClosest { target } => assert_eq!(target.bytes, vec![0x12u8, 0x34]),
        _ => panic!("expected the periodic self lookup"),
    }
}

#[test]
fn bootstrap_progress_completes_the_join() {
    let mut e = client_engine(&[0x00, 0x00], b"/ip4/boot");
    e.handle_event(Event::BootstrapProgress { num_remaining: 3 }, 0);
    assert!(!e.bootstrap_complete);
    e.handle_event(Event::BootstrapProgress { num_remaining: 0 }, 0);
    assert!(e.bootstrap_complete);
}

#[test]
fn query_and_advertise_failures_are_nonfatal() {
    let mut e = client_engine(&[0x00, 0x00], b"/ip4/boot");
    e.handle_event(
        Event::ConnectionEstablished { peer: nid(&[0x80, 0x01]), address: addr(b"x") },
        1,
    );
    assert_eq!(e.handle_event(Event::QueryFailed, 2).len(), 0);
    assert_eq!(e.handle_event(Event::AdvertiseFailed, 3).len(), 0);
    assert_eq!(e.handle_event(Event::NewListenAddr { address: addr(b"l") }, 4).len(), 0);
    assert_eq!(e.table.closest(&nid(&[0x00, 0x00]), 10).len(), 1);
}

#[test]
fn queries_are_tracked_and_cleared_on_completion() {
    let mut e = client_engine(&[0x00, 0x00], b"/ip4/boot");
    e.handle_event(
        Event::ConnectionEstablished { peer: nid(&[0x80, 0x01]), address: addr(b"x") },
        100,
    );
    assert_eq!(e.queries.len(), 1);
    assert_eq!(e.queries[0].target.bytes, vec![0x00u8, 0x00]);
    assert_eq!(e.queries[0].issued_at, 100);
    e.handle_event(
        Event::ClosestPeersResult { target: nid(&[0x00, 0x00]), peers: Vec::new() },
        200,
    );
    assert_eq!(e.queries.len(), 0);
}

#[test]
fn overdue_queries_time_out_on_refresh() {
    let mut e = client_engine(&[0x00, 0x00], b"/ip4/boot");
    e.handle_event(
        Event::ConnectionEstablished { peer: nid(&[0x80, 0x01]), address: addr(b"x") },
        0,
    );
    assert_eq!(e.queries.len(), 1);
    // within the timeout the query is kept beside the periodic one
    e.handle_event(Event::RefreshTick, QUERY_TIMEOUT_MS);
    assert_eq!(e.queries.len(), 2);
    // past the timeout both old queries are reclaimed as failed
    let actions = e.handle_event(Event::RefreshTick, 2 * QUERY_TIMEOUT_MS + 1);
    assert_eq!(e.queries.len(), 1);
    assert_eq!(e.queries[0].issued_at, 2 * QUERY_TIMEOUT_MS + 1);
    assert!(matches!(
        &actions[0],
        Action::QueryClosest { target } if target.bytes == vec![0x00u8, 0x00]
    ));
}
