//! The discovery engine: a state machine from transport events to routing
//! table updates and follow-up actions.
//!
//! The engine owns the routing table and decides; it performs no I/O. The
//! caller runs the event loop: it dials, queries and probes as the returned
//! actions say, and feeds every transport event back in. Eviction is
//! deferred: a closed connection or a full bucket only requests a liveness
//! probe, and the peer is dropped (and, for a full bucket, replaced) only
//! once that probe fails.

use vstd::prelude::*;
use crate::id::{NodeId, bucket_index_spec};
use crate::record::{Address, PeerRecord, RecModel, distinct_addrs, merge_addrs};
use crate::table::{
    InsertResult, RoutingTable, added_post, evict_candidate_ok, removed_post, updated_post, K,
};

verus! {

/// Dial retries before the bootstrap is reported unreachable.
pub const MAX_DIAL_ATTEMPTS: u64 = 5;

/// Delay before the first dial retry, in milliseconds; it doubles with each
/// further attempt.
pub const FIRST_RETRY_DELAY_MS: u64 = 500;

/// How long a closest-peers query may stay unanswered before it counts as
/// failed and its record is reclaimed, in milliseconds.
pub const QUERY_TIMEOUT_MS: u64 = 60000;

/// The delay before retry number `a` (counting from zero): exponential
/// backoff from `FIRST_RETRY_DELAY_MS`.
pub open spec fn backoff_ms(a: nat) -> nat
    decreases a,
{
    if a == 0 {
        FIRST_RETRY_DELAY_MS as nat
    } else {
        2 * backoff_ms((a - 1) as nat)
    }
}

/// Whether a node answers queries for anyone (the bootstrap role) or mainly
/// issues them to join.
pub enum Mode {
    Client,
    Server,
}

/// A node joins through the bootstrap, then stays active.
pub enum EngineState {
    Joining,
    Active,
}

/// The well-known entry point of the network.
pub struct BootstrapConfig {
    pub peer_id: NodeId,
    pub address: Address,
}

impl BootstrapConfig {
    /// The entry-point configuration from the persisted identifier text and
    /// the address to dial. Text that does not decode to an identifier is
    /// the fatal malformed-identifier error.
    pub fn from_text(text: &String, address: Address) -> (r: Result<
        BootstrapConfig,
        DiscoveryError,
    >)
        ensures
            r is Ok <==> crate::identity::id_text_wf(text@),
            match r {
                Result::Ok(c) => c.peer_id@ == crate::identity::parsed_node_id(text@)
                    && c.peer_id@.len() >= 1 && c.address@ == address@,
                Result::Err(e) => e is MalformedBootstrapIdentifier,
            },
    {
        match crate::identity::parse_node_id(text) {
            Some(id) => Ok(BootstrapConfig { peer_id: id, address }),
            None => Err(DiscoveryError::MalformedBootstrapIdentifier),
        }
    }
}

/// What the engine could not recover from, or reports per query.
#[derive(Debug)]
pub enum DiscoveryError {
    IdentityGenerationFailure,
    BootstrapUnreachable,
    MalformedBootstrapIdentifier,
    QueryFailure,
    AdvertiseFailure,
}

/// One transport or timer event, as the event loop observes it.
pub enum Event {
    ConnectionEstablished { peer: NodeId, address: Address },
    ConnectionClosed { peer: NodeId },
    PingOutcome { peer: NodeId, responsive: bool },
    ClosestPeersResult { target: NodeId, peers: Vec<PeerRecord> },
    BootstrapProgress { num_remaining: u64 },
    DialFailed,
    QueryFailed,
    AdvertiseFailed,
    NewListenAddr { address: Address },
    RefreshTick,
}

/// What the event loop is asked to do next.
pub enum Action {
    Dial { address: Address, delay_ms: u64 },
    StartBootstrapQuery,
    QueryClosest { target: NodeId },
    Probe { peer: NodeId },
    Advertise { key: NodeId },
    ReportUnreachable { address: Address },
}

/// One closest-peers lookup in flight: its target and when it was issued.
pub struct QueryRecord {
    pub target: NodeId,
    pub issued_at: u64,
}

/// Whether a query issued at `q.issued_at` is still within its timeout at
/// `now`.
pub open spec fn query_fresh(q: QueryRecord, now: u64) -> bool {
    q.issued_at + QUERY_TIMEOUT_MS >= now
}

/// The tracked queries that are still within their timeout at `now`, in
/// order.
pub open spec fn fresh_queries(s: Seq<QueryRecord>, now: u64) -> Seq<QueryRecord>
    decreases s.len(),
{
    if s.len() == 0 {
        Seq::empty()
    } else {
        let rest = fresh_queries(s.drop_last(), now);
        if query_fresh(s.last(), now) {
            rest.push(s.last())
        } else {
            rest
        }
    }
}

/// Whether some tracked query has the target `id`.
pub open spec fn queries_have(s: Seq<QueryRecord>, id: Seq<u8>) -> bool {
    exists|k: int| 0 <= k < s.len() && (#[trigger] s[k]).target@ == id
}

/// The oldest tracked query for `target` is gone (a no-op when none is).
pub open spec fn query_cleared(
    pre: Seq<QueryRecord>,
    post: Seq<QueryRecord>,
    target: Seq<u8>,
) -> bool {
    if !queries_have(pre, target) {
        post == pre
    } else {
        exists|k: int|
            0 <= k < pre.len() && (#[trigger] pre[k]).target@ == target && (forall|a: int|
                0 <= a < k ==> pre[a].target@ != target) && post == pre.remove(k)
    }
}

/// A peer awaiting a liveness probe: one whose connection closed, or the
/// eviction candidate of a full bucket together with the record that would
/// replace it.
pub struct PendingProbe {
    pub peer: NodeId,
    pub replacement: Option<PeerRecord>,
}

/// A probe filed for a full bucket: it names one of the bucket's
/// least-recently-seen records as the candidate and carries the rejected
/// record `r` as the replacement.
pub open spec fn pending_eviction_ok(pre: RoutingTable, r: RecModel, p: PendingProbe) -> bool {
    &&& p.replacement matches Some(rp) && rp@ == r
    &&& exists|c: RecModel| #[trigger] evict_candidate_ok(pre, r, c) && c.id == p.peer@
}

/// The discovery engine of one node.
pub struct DiscoveryEngine {
    pub mode: Mode,
    pub state: EngineState,
    pub table: RoutingTable,
    pub config: Option<BootstrapConfig>,
    pub dial_attempts: u64,
    pub pending: Vec<PendingProbe>,
    pub queries: Vec<QueryRecord>,
    pub bootstrap_complete: bool,
}

/// A record as the table will store it after its address list is cleared of
/// duplicates.
pub open spec fn normal_model(r: RecModel) -> RecModel {
    RecModel { id: r.id, addrs: merge_addrs(Seq::<Seq<u8>>::empty(), r.addrs), last_seen: r.last_seen }
}

/// Whether a record belongs in the table of `local`: identifiers share the
/// fixed length, and a node never stores itself.
pub open spec fn peer_ok(id: Seq<u8>, local: Seq<u8>) -> bool {
    id.len() == local.len() && id != local
}

/// What one upsert against the table did: the record was added, or its
/// slot was refreshed, or its bucket already stood at capacity `K` and the
/// table was left unchanged (the eviction then waits on a liveness probe).
pub open spec fn upsert_outcome(pre: RoutingTable, post: RoutingTable, r: RecModel) -> bool {
    ||| (!pre.has(r.id) && added_post(pre, post, r))
    ||| (pre.has(r.id) && updated_post(pre, post, r))
    ||| (post == pre && !pre.has(r.id) && (bucket_index_spec(pre.local@, r.id) as int)
        < pre.num_buckets() && pre.rowm(bucket_index_spec(pre.local@, r.id) as int).len() == K)
}

/// What handling a record did: upserted when it belongs in the table, and
/// nothing otherwise.
pub open spec fn step_outcome(pre: RoutingTable, post: RoutingTable, r: RecModel) -> bool {
    if peer_ok(r.id, pre.local@) {
        upsert_outcome(pre, post, normal_model(r))
    } else {
        post == pre
    }
}

/// A chain of tables from `pre` to `post`, one `step_outcome` per record.
pub open spec fn absorb_trace_ok(
    trace: Seq<RoutingTable>,
    pre: RoutingTable,
    post: RoutingTable,
    peers: Seq<RecModel>,
) -> bool {
    &&& trace.len() == peers.len() + 1
    &&& trace[0] == pre
    &&& trace[peers.len() as int] == post
    &&& forall|a: int|
        0 <= a < peers.len() ==> step_outcome(#[trigger] trace[a], trace[a + 1], peers[a])
}

/// The table transition of folding a list of discovered records in, one
/// upsert each, in order.
pub open spec fn absorb_rel(pre: RoutingTable, post: RoutingTable, peers: Seq<RecModel>) -> bool {
    exists|trace: Seq<RoutingTable>| #[trigger] absorb_trace_ok(trace, pre, post, peers)
}

impl DiscoveryEngine {
    pub open spec fn wf(self) -> bool {
        &&& self.table.wf()
        &&& forall|k: int|
            0 <= k < self.pending@.len() ==> pending_ok(#[trigger] self.pending@[k], self.table.local@)
    }

    /// A fresh engine: joining, with an empty table.
    pub fn new(local: NodeId, mode: Mode, config: Option<BootstrapConfig>) -> (r: DiscoveryEngine)
        requires
            local@.len() >= 1,
            8 * local@.len() <= usize::MAX,
        ensures
            r.wf(),
            r.table.local@ == local@,
            r.mode == mode,
            r.state is Joining,
            r.config == config,
            r.dial_attempts == 0,
            r.pending@.len() == 0,
            r.queries@.len() == 0,
            !r.bootstrap_complete,
            forall|id: Seq<u8>| !r.table.has(id),
    {
        DiscoveryEngine {
            mode,
            state: EngineState::Joining,
            table: RoutingTable::new(local),
            config,
            dial_attempts: 0,
            pending: Vec::new(),
            queries: Vec::new(),
            bootstrap_complete: false,
        }
    }

    /// The first step of a client node: dial the bootstrap. A server, or a
    /// node without a bootstrap to dial, waits for connections instead.
    pub fn start(&self) -> (actions: Vec<Action>)
        ensures
            match (self.mode, &self.config) {
                (Mode::Client, Option::Some(c)) => actions@.len() == 1 && (actions@[0] matches
                    Action::Dial { address, delay_ms } && address@ == c.address@ && delay_ms == 0),
                _ => actions@.len() == 0,
            },
    {
        let mut actions: Vec<Action> = Vec::new();
        match (&self.mode, &self.config) {
            (Mode::Client, Some(c)) => {
                actions.push(Action::Dial { address: c.address.duplicate(), delay_ms: 0 });
            },
            _ => {},
        }
        actions
    }
}

pub open spec fn pending_ok(p: PendingProbe, local: Seq<u8>) -> bool {
    &&& p.peer@.len() == local.len()
    &&& match p.replacement {
        Option::Some(r) => peer_ok(r@.id, local) && distinct_addrs(r@.addrs),
        Option::None => true,
    }
}

/// Whether some pending probe names `id`.
pub open spec fn pending_has(s: Seq<PendingProbe>, id: Seq<u8>) -> bool {
    exists|k: int| 0 <= k < s.len() && (#[trigger] s[k]).peer@ == id
}

/// The table transition of dropping `id` (a no-op when absent).
pub open spec fn remove_transition(pre: RoutingTable, post: RoutingTable, id: Seq<u8>) -> bool {
    &&& !post.has(id)
    &&& (pre.has(id) ==> removed_post(pre, post, id))
    &&& (!pre.has(id) ==> post == pre)
}

/// The table transition of a failed liveness probe: the peer is dropped and,
/// when it was the eviction candidate of a full bucket, the record that was
/// waiting takes its place.
pub open spec fn evict_transition(
    pre: RoutingTable,
    post: RoutingTable,
    peer: Seq<u8>,
    repl: Option<PeerRecord>,
) -> bool {
    match repl {
        Option::None => remove_transition(pre, post, peer),
        Option::Some(r) => exists|mid: RoutingTable|
            #[trigger] remove_transition(pre, mid, peer) && upsert_outcome(mid, post, r@),
    }
}

/// After `RefreshTick`: overdue queries are reclaimed as failed, and one
/// query for the node's own neighborhood is reissued and tracked (the sole
/// self-healing mechanism).
pub open spec fn tick_post(
    pre: DiscoveryEngine,
    post: DiscoveryEngine,
    now: u64,
    actions: Seq<Action>,
) -> bool {
    &&& post.table == pre.table
    &&& post.pending == pre.pending
    &&& post.mode == pre.mode
    &&& post.state == pre.state
    &&& post.config == pre.config
    &&& post.dial_attempts == pre.dial_attempts
    &&& post.bootstrap_complete == pre.bootstrap_complete
    &&& actions.len() == 1
    &&& actions[0] matches Action::QueryClosest { target } && target@ == pre.table.local@
    &&& post.queries@.len() == fresh_queries(pre.queries@, now).len() + 1
    &&& post.queries@.drop_last() == fresh_queries(pre.queries@, now)
    &&& post.queries@.last().target@ == pre.table.local@
    &&& post.queries@.last().issued_at == now
}

/// After `BootstrapProgress`: informational only; the join is complete once
/// no buckets remain.
pub open spec fn progress_post(
    pre: DiscoveryEngine,
    post: DiscoveryEngine,
    num_remaining: u64,
    actions: Seq<Action>,
) -> bool {
    &&& actions.len() == 0
    &&& post.table == pre.table
    &&& post.pending == pre.pending
    &&& post.mode == pre.mode
    &&& post.state == pre.state
    &&& post.config == pre.config
    &&& post.dial_attempts == pre.dial_attempts
    &&& post.queries == pre.queries
    &&& post.bootstrap_complete == (pre.bootstrap_complete || num_remaining == 0)
}

/// After `DialFailed` while joining: retry with exponential backoff up to
/// `MAX_DIAL_ATTEMPTS`, then report the bootstrap unreachable.
pub open spec fn dial_failed_post(
    pre: DiscoveryEngine,
    post: DiscoveryEngine,
    actions: Seq<Action>,
) -> bool {
    &&& post.table == pre.table
    &&& post.pending == pre.pending
    &&& post.queries == pre.queries
    &&& post.mode == pre.mode
    &&& post.state == pre.state
    &&& post.config == pre.config
    &&& post.bootstrap_complete == pre.bootstrap_complete
    &&& match pre.config {
        Option::Some(c) => {
            if pre.state is Joining && pre.dial_attempts < MAX_DIAL_ATTEMPTS {
                &&& post.dial_attempts == pre.dial_attempts + 1
                &&& actions.len() == 1
                &&& actions[0] matches Action::Dial { address, delay_ms } && address@ == c.address@
                    && delay_ms as nat == backoff_ms(pre.dial_attempts as nat)
            } else if pre.state is Joining {
                &&& post.dial_attempts == pre.dial_attempts
                &&& actions.len() == 1
                &&& actions[0] matches Action::ReportUnreachable { address } && address@
                    == c.address@
            } else {
                post.dial_attempts == pre.dial_attempts && actions.len() == 0
            }
        },
        Option::None => post.dial_attempts == pre.dial_attempts && actions.len() == 0,
    }
}

/// After `ConnectionClosed`: eviction is deferred; the peer is only marked
/// for a liveness probe.
pub open spec fn conn_closed_post(
    pre: DiscoveryEngine,
    post: DiscoveryEngine,
    peer: Seq<u8>,
    actions: Seq<Action>,
) -> bool {
    &&& post.table == pre.table
    &&& post.queries == pre.queries
    &&& post.mode == pre.mode
    &&& post.state == pre.state
    &&& post.config == pre.config
    &&& post.dial_attempts == pre.dial_attempts
    &&& post.bootstrap_complete == pre.bootstrap_complete
    &&& if peer.len() == pre.table.local@.len() {
        &&& post.pending@.len() == pre.pending@.len() + 1
        &&& forall|k: int| 0 <= k < pre.pending@.len() ==> post.pending@[k] == pre.pending@[k]
        &&& post.pending@.last().peer@ == peer
        &&& post.pending@.last().replacement is None
        &&& actions.len() == 1
        &&& actions[0] matches Action::Probe { peer: p } && p@ == peer
    } else {
        post.pending == pre.pending && actions.len() == 0
    }
}

/// After `PingOutcome` for a peer with a pending probe: a responsive peer
/// stays; an unresponsive one is dropped and, if a record was waiting for
/// its slot, replaced.
pub open spec fn ping_post(
    pre: DiscoveryEngine,
    post: DiscoveryEngine,
    peer: Seq<u8>,
    responsive: bool,
    actions: Seq<Action>,
) -> bool {
    &&& actions.len() == 0
    &&& post.mode == pre.mode
    &&& post.state == pre.state
    &&& post.config == pre.config
    &&& post.dial_attempts == pre.dial_attempts
    &&& post.queries == pre.queries
    &&& post.bootstrap_complete == pre.bootstrap_complete
    &&& post.table.local == pre.table.local
    &&& if !pending_has(pre.pending@, peer) {
        post == pre
    } else {
        exists|k: int|
            0 <= k < pre.pending@.len() && (#[trigger] pre.pending@[k]).peer@ == peer && (forall|
                a: int,
            | 0 <= a < k ==> pre.pending@[a].peer@ != peer) && post.pending@ == pre.pending@.remove(
                k,
            ) && (responsive ==> post.table == pre.table) && (!responsive ==> evict_transition(
                pre.table,
                post.table,
                peer,
                pre.pending@[k].replacement,
            ))
    }
}

/// After `ConnectionEstablished` with a storable peer: the peer is upserted,
/// the engine is active; a joining node starts the bootstrap query and a
/// lookup of its own neighborhood, an active one looks up the new peer's
/// neighborhood; a server also advertises the peer; any further actions are
/// liveness probes for eviction candidates.
pub open spec fn conn_established_post(
    pre: DiscoveryEngine,
    post: DiscoveryEngine,
    peer: Seq<u8>,
    address: Seq<u8>,
    now: u64,
    actions: Seq<Action>,
) -> bool {
    &&& post.mode == pre.mode
    &&& post.config == pre.config
    &&& post.dial_attempts == pre.dial_attempts
    &&& post.bootstrap_complete == pre.bootstrap_complete
    &&& post.table.local == pre.table.local
    &&& if peer_ok(peer, pre.table.local@) {
        let base: int = if pre.state is Joining {
            2
        } else {
            1
        };
        let adv: int = if pre.mode is Server {
            base + 1
        } else {
            base
        };
        &&& post.state is Active
        &&& upsert_outcome(
            pre.table,
            post.table,
            RecModel { id: peer, addrs: seq![address], last_seen: now },
        )
        &&& forall|k: int| 0 <= k < pre.pending@.len() ==> post.pending@[k] == pre.pending@[k]
        &&& post.pending@.len() >= pre.pending@.len()
        &&& forall|k: int|
            pre.pending@.len() <= k < post.pending@.len() ==> pending_eviction_ok(
                pre.table,
                RecModel { id: peer, addrs: seq![address], last_seen: now },
                #[trigger] post.pending@[k],
            )
        &&& actions.len() >= adv
        &&& (pre.state is Joining ==> actions[0] is StartBootstrapQuery && (actions[1] matches
            Action::QueryClosest { target } && target@ == pre.table.local@))
        &&& (pre.state is Active ==> (actions[0] matches Action::QueryClosest { target } && target@
            == peer))
        &&& (pre.mode is Server ==> (actions[base] matches Action::Advertise { key } && key@
            == peer))
        &&& forall|k: int| adv <= k < actions.len() ==> (#[trigger] actions[k]) is Probe
        &&& post.queries@.len() == pre.queries@.len() + 1
        &&& forall|k: int| 0 <= k < pre.queries@.len() ==> post.queries@[k] == pre.queries@[k]
        &&& post.queries@.last().issued_at == now
        &&& (pre.state is Joining ==> post.queries@.last().target@ == pre.table.local@)
        &&& (pre.state is Active ==> post.queries@.last().target@ == peer)
    } else {
        post == pre && actions.len() == 0
    }
}

/// After `ClosestPeersResult`: every returned record that belongs in the
/// table is folded in, in order; any actions are liveness probes for
/// eviction candidates of full buckets.
pub open spec fn absorb_post(
    pre: DiscoveryEngine,
    post: DiscoveryEngine,
    peers: Seq<RecModel>,
    actions: Seq<Action>,
) -> bool {
    &&& post.mode == pre.mode
    &&& post.state == pre.state
    &&& post.config == pre.config
    &&& post.dial_attempts == pre.dial_attempts
    &&& post.bootstrap_complete == pre.bootstrap_complete
    &&& post.table.local == pre.table.local
    &&& absorb_rel(pre.table, post.table, peers)
    &&& forall|k: int| 0 <= k < pre.pending@.len() ==> post.pending@[k] == pre.pending@[k]
    &&& post.pending@.len() >= pre.pending@.len()
    &&& forall|k: int| 0 <= k < actions.len() ==> (#[trigger] actions[k]) is Probe
}

/// Extending an absorption by one record.
pub proof fn lemma_absorb_snoc(
    pre: RoutingTable,
    mid: RoutingTable,
    post: RoutingTable,
    peers: Seq<RecModel>,
    k: int,
)
    requires
        0 <= k < peers.len(),
        absorb_rel(pre, mid, peers.take(k)),
        step_outcome(mid, post, peers[k]),
    ensures
        absorb_rel(pre, post, peers.take(k + 1)),
{
    let trace = choose|trace: Seq<RoutingTable>|
        #[trigger] absorb_trace_ok(trace, pre, mid, peers.take(k));
    let trace2 = trace.push(post);
    assert forall|a: int|
        0 <= a < peers.take(k + 1).len() implies step_outcome(
        #[trigger] trace2[a],
        trace2[a + 1],
        peers.take(k + 1)[a],
    ) by {
        if a < k {
            assert(trace2[a] == trace[a]);
            assert(trace2[a + 1] == trace[a + 1]);
            assert(step_outcome(trace[a], trace[a + 1], peers.take(k)[a]));
        } else {
            assert(trace2[a] == trace[k]);
            assert(trace2[a + 1] == post);
        }
    }
    assert(absorb_trace_ok(trace2, pre, post, peers.take(k + 1)));
}

/// Absorbing nothing changes nothing.
pub proof fn lemma_absorb_empty(pre: RoutingTable, peers: Seq<RecModel>)
    requires
        peers.len() == 0,
    ensures
        absorb_rel(pre, pre, peers),
{
    let trace = seq![pre];
    assert(absorb_trace_ok(trace, pre, pre, peers));
}

proof fn lemma_backoff_bound(a: nat)
    requires
        a <= 4,
    ensures
        backoff_ms(a) <= 8000,
{
    assert(backoff_ms(0) == 500);
    assert(backoff_ms(1) == 1000);
    assert(backoff_ms(2) == 2000);
    assert(backoff_ms(3) == 4000);
    assert(backoff_ms(4) == 8000);
}

/// The dial retry delay, doubling per attempt.
fn backoff_delay(attempts: u64) -> (r: u64)
    requires
        attempts < MAX_DIAL_ATTEMPTS,
    ensures
        r as nat == backoff_ms(attempts as nat),
{
    let mut d: u64 = FIRST_RETRY_DELAY_MS;
    let mut i: u64 = 0;
    while i < attempts
        invariant
            i <= attempts,
            attempts < MAX_DIAL_ATTEMPTS,
            d as nat == backoff_ms(i as nat),
        decreases attempts - i,
    {
        proof {
            lemma_backoff_bound(i as nat);
        }
        d = d * 2;
        i = i + 1;
    }
    d
}

impl DiscoveryEngine {
    /// Upserts a record; when its bucket is full, files the bucket's
    /// least-recently-seen record for a liveness probe, with this record
    /// waiting as the replacement.
    fn apply_upsert(&mut self, rec: &PeerRecord, actions: &mut Vec<Action>)
        requires
            old(self).wf(),
            peer_ok(rec@.id, old(self).table.local@),
            distinct_addrs(rec@.addrs),
        ensures
            final(self).wf(),
            final(self).table.local == old(self).table.local,
            final(self).mode == old(self).mode,
            final(self).state == old(self).state,
            final(self).config == old(self).config,
            final(self).dial_attempts == old(self).dial_attempts,
            final(self).queries == old(self).queries,
            final(self).bootstrap_complete == old(self).bootstrap_complete,
            upsert_outcome(old(self).table, final(self).table, rec@),
            forall|k: int|
                0 <= k < old(self).pending@.len() ==> final(self).pending@[k] == old(
                    self,
                ).pending@[k],
            final(self).pending@.len() >= old(self).pending@.len(),
            forall|k: int|
                old(self).pending@.len() <= k < final(self).pending@.len()
                    ==> pending_eviction_ok(old(self).table, rec@, #[trigger] final(self).pending@[k]),
            forall|k: int| 0 <= k < old(actions)@.len() ==> final(actions)@[k] == old(actions)@[k],
            final(actions)@.len() >= old(actions)@.len(),
            forall|k: int|
                old(actions)@.len() <= k < final(actions)@.len()
                    ==> (#[trigger] final(actions)@[k]) is Probe,
    {
        let result = self.table.insert(rec);
        match result {
            InsertResult::Added => {},
            InsertResult::Updated => {},
            InsertResult::BucketFull(c) => {
                proof {
                    assert(evict_candidate_ok(old(self).table, rec@, c@));
                }
                actions.push(Action::Probe { peer: c.id.duplicate() });
                self.pending.push(PendingProbe { peer: c.id, replacement: Some(rec.duplicate()) });
            },
        }
    }

    fn on_connection_established(
        &mut self,
        peer: NodeId,
        address: Address,
        now: u64,
        actions: &mut Vec<Action>,
    )
        requires
            old(self).wf(),
            old(actions)@.len() == 0,
        ensures
            final(self).wf(),
            final(self).table.local == old(self).table.local,
            final(self).mode == old(self).mode,
            conn_established_post(
                *old(self),
                *final(self),
                peer@,
                address@,
                now,
                final(actions)@,
            ),
    {
        let ok = peer.len() == self.table.local.len() && !crate::id::bytes_eq(
            &peer.bytes,
            &self.table.local.bytes,
        );
        if !ok {
            return ;
        }
        match self.state {
            EngineState::Joining => {
                actions.push(Action::StartBootstrapQuery);
                actions.push(Action::QueryClosest { target: self.table.local.duplicate() });
                self.queries.push(
                    QueryRecord { target: self.table.local.duplicate(), issued_at: now },
                );
                self.state = EngineState::Active;
            },
            EngineState::Active => {
                actions.push(Action::QueryClosest { target: peer.duplicate() });
                self.queries.push(QueryRecord { target: peer.duplicate(), issued_at: now });
            },
        }
        match self.mode {
            Mode::Server => {
                actions.push(Action::Advertise { key: peer.duplicate() });
            },
            Mode::Client => {},
        }
        let rec = PeerRecord::first_seen(peer, address, now);
        self.apply_upsert(&rec, actions);
    }

    fn on_connection_closed(&mut self, peer: NodeId, actions: &mut Vec<Action>)
        requires
            old(self).wf(),
            old(actions)@.len() == 0,
        ensures
            final(self).wf(),
            final(self).table.local == old(self).table.local,
            final(self).mode == old(self).mode,
            conn_closed_post(*old(self), *final(self), peer@, final(actions)@),
    {
        if peer.len() != self.table.local.len() {
            return ;
        }
        actions.push(Action::Probe { peer: peer.duplicate() });
        self.pending.push(PendingProbe { peer, replacement: None });
    }

    fn on_ping_outcome(&mut self, peer: &NodeId, responsive: bool)
        requires
            old(self).wf(),
        ensures
            final(self).wf(),
            final(self).table.local == old(self).table.local,
            final(self).mode == old(self).mode,
            ping_post(*old(self), *final(self), peer@, responsive, Seq::<Action>::empty()),
    {
        let ghost pre = *self;
        let n = self.pending.len();
        let mut k: usize = 0;
        while k < n
            invariant
                *self == pre,
                pre == *old(self),
                pre.wf(),
                n == pre.pending@.len(),
                k <= n,
                forall|a: int| 0 <= a < k ==> (#[trigger] pre.pending@[a]).peer@ != peer@,
            decreases n - k,
        {
            if crate::id::bytes_eq(&self.pending[k].peer.bytes, &peer.bytes) {
                let entry = self.pending.remove(k);
                if !responsive {
                    let ghost mid0 = self.table;
                    self.table.remove(&entry.peer);
                    let ghost mid = self.table;
                    proof {
                        assert(remove_transition(mid0, mid, peer@));
                    }
                    match &entry.replacement {
                        Some(r) => {
                            let result = self.table.insert(r);
                            proof {
                                assert(upsert_outcome(mid, self.table, r@));
                                assert(evict_transition(pre.table, self.table, peer@, entry.replacement));
                            }
                        },
                        None => {},
                    }
                }
                proof {
                    assert(pending_has(pre.pending@, peer@));
                }
                return ;
            }
            k = k + 1;
        }
        proof {
            if pending_has(pre.pending@, peer@) {
                let w = choose|w: int| 0 <= w < pre.pending@.len() && (#[trigger] pre.pending@[w]).peer@ == peer@;
                assert(false);
            }
        }
    }

    fn on_dial_failed(&mut self, actions: &mut Vec<Action>)
        requires
            old(self).wf(),
            old(actions)@.len() == 0,
        ensures
            final(self).wf(),
            final(self).table.local == old(self).table.local,
            final(self).mode == old(self).mode,
            dial_failed_post(*old(self), *final(self), final(actions)@),
    {
        let retry = match (&self.state, &self.config) {
            (EngineState::Joining, Some(_)) => true,
            _ => false,
        };
        if !retry {
            return ;
        }
        match &self.config {
            Some(c) => {
                if self.dial_attempts < MAX_DIAL_ATTEMPTS {
                    let delay = backoff_delay(self.dial_attempts);
                    actions.push(
                        Action::Dial { address: c.address.duplicate(), delay_ms: delay },
                    );
                    self.dial_attempts = self.dial_attempts + 1;
                } else {
                    actions.push(Action::ReportUnreachable { address: c.address.duplicate() });
                }
            },
            None => {},
        }
    }

    fn on_peers_discovered(&mut self, peers: &Vec<PeerRecord>, actions: &mut Vec<Action>)
        requires
            old(self).wf(),
            old(actions)@.len() == 0,
        ensures
            final(self).wf(),
            final(self).table.local == old(self).table.local,
            final(self).mode == old(self).mode,
            final(self).queries == old(self).queries,
            absorb_post(
                *old(self),
                *final(self),
                crate::table::rec_models(peers@),
                final(actions)@,
            ),
    {
        let ghost pre = *self;
        let ghost peersm = crate::table::rec_models(peers@);
        let n = peers.len();
        let mut k: usize = 0;
        proof {
            assert(peersm.take(0).len() == 0);
            lemma_absorb_empty(pre.table, peersm.take(0));
        }
        while k < n
            invariant
                pre == *old(self),
                pre.wf(),
                self.wf(),
                n == peers@.len(),
                peersm == crate::table::rec_models(peers@),
                k <= n,
                self.table.local == pre.table.local,
                self.mode == pre.mode,
                self.state == pre.state,
                self.config == pre.config,
                self.dial_attempts == pre.dial_attempts,
                self.queries == pre.queries,
                self.bootstrap_complete == pre.bootstrap_complete,
                absorb_rel(pre.table, self.table, peersm.take(k as int)),
                forall|a: int| 0 <= a < pre.pending@.len() ==> self.pending@[a] == pre.pending@[a],
                self.pending@.len() >= pre.pending@.len(),
                forall|a: int| 0 <= a < actions@.len() ==> (#[trigger] actions@[a]) is Probe,
            decreases n - k,
        {
            let ghost mid = *self;
            proof {
                assert(crate::table::rec_models(peers@)[k as int] == peers@[k as int]@);
            }
            let ok = peers[k].id.len() == self.table.local.len() && !crate::id::bytes_eq(
                &peers[k].id.bytes,
                &self.table.local.bytes,
            );
            if ok {
                let rec = peers[k].normalized();
                proof {
                    assert(rec@ =~= normal_model(peersm[k as int]));
                }
                self.apply_upsert(&rec, actions);
                proof {
                    assert(upsert_outcome(mid.table, self.table, normal_model(peersm[k as int])));
                    assert(step_outcome(mid.table, self.table, peersm[k as int]));
                }
            } else {
                proof {
                    assert(step_outcome(mid.table, self.table, peersm[k as int]));
                }
            }
            proof {
                assert(peersm.len() == n);
                lemma_absorb_snoc(pre.table, mid.table, self.table, peersm, k as int);
            }
            k = k + 1;
        }
        proof {
            assert(peersm.take(n as int) =~= peersm);
        }
    }

    /// Forgets the oldest tracked query for `target`: its answer arrived.
    fn clear_query(&mut self, target: &NodeId)
        requires
            old(self).wf(),
        ensures
            final(self).wf(),
            final(self).table == old(self).table,
            final(self).pending == old(self).pending,
            final(self).mode == old(self).mode,
            final(self).state == old(self).state,
            final(self).config == old(self).config,
            final(self).dial_attempts == old(self).dial_attempts,
            final(self).bootstrap_complete == old(self).bootstrap_complete,
            query_cleared(old(self).queries@, final(self).queries@, target@),
    {
        let ghost pre = *self;
        let n = self.queries.len();
        let mut k: usize = 0;
        while k < n
            invariant
                *self == pre,
                pre == *old(self),
                pre.wf(),
                n == pre.queries@.len(),
                k <= n,
                forall|a: int| 0 <= a < k ==> (#[trigger] pre.queries@[a]).target@ != target@,
            decreases n - k,
        {
            if crate::id::bytes_eq(&self.queries[k].target.bytes, &target.bytes) {
                self.queries.remove(k);
                proof {
                    assert(queries_have(pre.queries@, target@));
                }
                return ;
            }
            k = k + 1;
        }
        proof {
            if queries_have(pre.queries@, target@) {
                let w = choose|w: int|
                    0 <= w < pre.queries@.len() && (#[trigger] pre.queries@[w]).target@ == target@;
                assert(false);
            }
        }
    }

    /// Reclaims overdue queries as failed and reissues the periodic lookup
    /// of the node's own neighborhood.
    fn on_refresh_tick(&mut self, now: u64, actions: &mut Vec<Action>)
        requires
            old(self).wf(),
            old(actions)@.len() == 0,
        ensures
            final(self).wf(),
            final(self).table.local == old(self).table.local,
            final(self).mode == old(self).mode,
            tick_post(*old(self), *final(self), now, final(actions)@),
    {
        let ghost pre = *self;
        let ghost qs = self.queries@;
        let mut kept: Vec<QueryRecord> = Vec::new();
        let n = self.queries.len();
        let mut k: usize = 0;
        proof {
            assert(qs.take(0) =~= Seq::<QueryRecord>::empty());
        }
        while k < n
            invariant
                pre == *old(self),
                pre.wf(),
                qs == pre.queries@,
                self.table == pre.table,
                self.pending == pre.pending,
                self.mode == pre.mode,
                self.state == pre.state,
                self.config == pre.config,
                self.dial_attempts == pre.dial_attempts,
                self.bootstrap_complete == pre.bootstrap_complete,
                n == qs.len(),
                k <= n,
                self.queries@ == qs.skip(k as int),
                kept@ == fresh_queries(qs.take(k as int), now),
            decreases n - k,
        {
            let q = self.queries.remove(0);
            proof {
                assert(qs.skip(k as int)[0] == qs[k as int]);
                assert(q == qs[k as int]);
                assert(qs.skip(k as int).remove(0) =~= qs.skip(k + 1));
            }
            let fresh = if now <= QUERY_TIMEOUT_MS {
                true
            } else {
                q.issued_at >= now - QUERY_TIMEOUT_MS
            };
            proof {
                assert(fresh == query_fresh(qs[k as int], now));
                assert(qs.take(k + 1).drop_last() =~= qs.take(k as int));
                assert(qs.take(k + 1).last() == qs[k as int]);
                assert(fresh_queries(qs.take(k + 1), now) == (if query_fresh(qs[k as int], now) {
                    fresh_queries(qs.take(k as int), now).push(qs[k as int])
                } else {
                    fresh_queries(qs.take(k as int), now)
                }));
                assert(kept@ == fresh_queries(qs.take(k as int), now));
            }
            if fresh {
                kept.push(q);
            }
            k = k + 1;
        }
        proof {
            assert(qs.take(n as int) =~= qs);
        }
        actions.push(Action::QueryClosest { target: self.table.local.duplicate() });
        kept.push(QueryRecord { target: self.table.local.duplicate(), issued_at: now });
        self.queries = kept;
        proof {
            assert(self.queries@.drop_last() =~= fresh_queries(pre.queries@, now));
        }
    }

    /// Feeds one observed event through the state machine; the returned
    /// actions are what the event loop must do next.
    pub fn handle_event(&mut self, event: Event, now: u64) -> (actions: Vec<Action>)
        requires
            old(self).wf(),
        ensures
            final(self).wf(),
            final(self).table.local == old(self).table.local,
            final(self).mode == old(self).mode,
            match event {
                Event::ConnectionEstablished { peer, address } => conn_established_post(
                    *old(self),
                    *final(self),
                    peer@,
                    address@,
                    now,
                    actions@,
                ),
                Event::ConnectionClosed { peer } => conn_closed_post(
                    *old(self),
                    *final(self),
                    peer@,
                    actions@,
                ),
                Event::PingOutcome { peer, responsive } => ping_post(
                    *old(self),
                    *final(self),
                    peer@,
                    responsive,
                    actions@,
                ),
                Event::ClosestPeersResult { target, peers } => absorb_post(
                    *old(self),
                    *final(self),
                    crate::table::rec_models(peers@),
                    actions@,
                ) && query_cleared(old(self).queries@, final(self).queries@, target@),
                Event::BootstrapProgress { num_remaining } => progress_post(
                    *old(self),
                    *final(self),
                    num_remaining,
                    actions@,
                ),
                Event::DialFailed => dial_failed_post(*old(self), *final(self), actions@),
                Event::QueryFailed => *final(self) == *old(self) && actions@.len() == 0,
                Event::AdvertiseFailed => *final(self) == *old(self) && actions@.len() == 0,
                Event::NewListenAddr { .. } => *final(self) == *old(self) && actions@.len() == 0,
                Event::RefreshTick => tick_post(*old(self), *final(self), now, actions@),
            },
    {
        let mut actions: Vec<Action> = Vec::new();
        match event {
            Event::ConnectionEstablished { peer, address } => {
                self.on_connection_established(peer, address, now, &mut actions);
            },
            Event::ConnectionClosed { peer } => {
                self.on_connection_closed(peer, &mut actions);
            },
            Event::PingOutcome { peer, responsive } => {
                self.on_ping_outcome(&peer, responsive);
            },
            Event::ClosestPeersResult { target, peers } => {
                let ghost pre = *self;
                self.clear_query(&target);
                let ghost mid = *self;
                self.on_peers_discovered(&peers, &mut actions);
                proof {
                    assert(mid.table == pre.table);
                    assert(absorb_rel(pre.table, self.table, crate::table::rec_models(peers@)));
                }
            },
            Event::BootstrapProgress { num_remaining } => {
                if num_remaining == 0 {
                    self.bootstrap_complete = true;
                }
            },
            Event::DialFailed => {
                self.on_dial_failed(&mut actions);
            },
            Event::QueryFailed => {},
            Event::AdvertiseFailed => {},
            Event::NewListenAddr { .. } => {},
            Event::RefreshTick => {
                self.on_refresh_tick(now, &mut actions);
            },
        }
        actions
    }
}

} // verus!
