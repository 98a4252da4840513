//! Peer records: one known participant, with its identifier, the set of
//! network addresses it was seen under, and the time it was last seen.
//!
//! Refreshing a record merges the address sets (keeping first-seen order and
//! no duplicates) and advances `last_seen` to the later of the two times.

use vstd::prelude::*;
use crate::id::{NodeId, bytes_eq, copy_bytes};

verus! {

/// A network address in its byte encoding, opaque to the routing logic.
pub struct Address {
    pub bytes: Vec<u8>,
}

impl View for Address {
    type V = Seq<u8>;

    open spec fn view(&self) -> Seq<u8> {
        self.bytes@
    }
}

impl Address {
    pub fn new(bytes: Vec<u8>) -> (r: Address)
        ensures
            r@ == bytes@,
    {
        Address { bytes }
    }

    pub fn duplicate(&self) -> (r: Address)
        ensures
            r@ == self@,
    {
        Address { bytes: copy_bytes(&self.bytes) }
    }
}

/// The mathematical content of a peer record.
#[verifier::ext_equal]
pub ghost struct RecModel {
    pub id: Seq<u8>,
    pub addrs: Seq<Seq<u8>>,
    pub last_seen: u64,
}

/// One known participant.
pub struct PeerRecord {
    pub id: NodeId,
    pub addresses: Vec<Address>,
    pub last_seen: u64,
}

impl View for PeerRecord {
    type V = RecModel;

    open spec fn view(&self) -> RecModel {
        RecModel {
            id: self.id@,
            addrs: addr_models(self.addresses@),
            last_seen: self.last_seen,
        }
    }
}

/// The byte strings of a list of addresses.
pub open spec fn addr_models(s: Seq<Address>) -> Seq<Seq<u8>> {
    s.map_values(|a: Address| a@)
}

pub proof fn lemma_addr_models_push(s: Seq<Address>, a: Address)
    ensures
        addr_models(s.push(a)) == addr_models(s).push(a@),
{
    assert(addr_models(s.push(a)) =~= addr_models(s).push(a@));
}

/// No address appears twice.
pub open spec fn distinct_addrs(a: Seq<Seq<u8>>) -> bool {
    forall|i: int, j: int| 0 <= i < j < a.len() ==> a[i] != a[j]
}

/// The address list `a` extended by those members of `b` it lacks, in order.
pub open spec fn merge_addrs(a: Seq<Seq<u8>>, b: Seq<Seq<u8>>) -> Seq<Seq<u8>>
    decreases b.len(),
{
    if b.len() == 0 {
        a
    } else {
        let m = merge_addrs(a, b.drop_last());
        if m.contains(b.last()) {
            m
        } else {
            m.push(b.last())
        }
    }
}

/// The later of two times.
pub open spec fn later_of(a: u64, b: u64) -> u64 {
    if a >= b {
        a
    } else {
        b
    }
}

/// The record stored after refreshing `old_rec` with `new_rec`: addresses
/// merged, `last_seen` advanced.
pub open spec fn merged_model(old_rec: RecModel, new_rec: RecModel) -> RecModel {
    RecModel {
        id: old_rec.id,
        addrs: merge_addrs(old_rec.addrs, new_rec.addrs),
        last_seen: later_of(old_rec.last_seen, new_rec.last_seen),
    }
}

pub proof fn lemma_merge_distinct(a: Seq<Seq<u8>>, b: Seq<Seq<u8>>)
    requires
        distinct_addrs(a),
    ensures
        distinct_addrs(merge_addrs(a, b)),
        forall|x: Seq<u8>| a.contains(x) ==> merge_addrs(a, b).contains(x),
    decreases b.len(),
{
    if b.len() > 0 {
        lemma_merge_distinct(a, b.drop_last());
        let m = merge_addrs(a, b.drop_last());
        if !m.contains(b.last()) {
            assert forall|i: int, j: int|
                0 <= i < j < m.push(b.last()).len() implies m.push(b.last())[i] != m.push(
                b.last(),
            )[j] by {
                if j < m.len() as int {
                } else {
                    assert(m.contains(m[i]));
                }
            }
            assert forall|x: Seq<u8>| a.contains(x) implies m.push(b.last()).contains(x) by {
                let i = choose|i: int| 0 <= i < m.len() && m[i] == x;
                assert(m.push(b.last())[i] == x);
            }
        }
    }
}

/// Merging a list whose members are all already present changes nothing.
pub proof fn lemma_merge_all_present(a: Seq<Seq<u8>>, b: Seq<Seq<u8>>)
    requires
        forall|k: int| 0 <= k < b.len() ==> a.contains(b[k]),
    ensures
        merge_addrs(a, b) == a,
    decreases b.len(),
{
    if b.len() > 0 {
        lemma_merge_all_present(a, b.drop_last());
        assert(a.contains(b.last()));
    }
}

/// Refreshing a record with an identical copy of itself leaves it unchanged:
/// the same addresses, the same `last_seen`.
pub proof fn lemma_refresh_identical(m: RecModel)
    ensures
        merged_model(m, m) == m,
{
    assert forall|k: int| 0 <= k < m.addrs.len() implies m.addrs.contains(m.addrs[k]) by {}
    lemma_merge_all_present(m.addrs, m.addrs);
    assert(merged_model(m, m) =~= m);
}

/// Whether `list` holds the address `a`.
pub fn contains_addr(list: &Vec<Address>, a: &Address) -> (r: bool)
    ensures
        r == addr_models(list@).contains(a@),
{
    let ghost models = addr_models(list@);
    let mut i: usize = 0;
    while i < list.len()
        invariant
            i <= list@.len(),
            models == addr_models(list@),
            forall|k: int| 0 <= k < i ==> models[k] != a@,
        decreases list@.len() - i,
    {
        if bytes_eq(&list[i].bytes, &a.bytes) {
            proof {
                assert(models[i as int] == a@);
            }
            return true;
        }
        i = i + 1;
    }
    false
}

/// The list `base` extended by the addresses of `extra` it lacks.
pub fn merge_address_lists(base: &Vec<Address>, extra: &Vec<Address>) -> (r: Vec<Address>)
    requires
        distinct_addrs(addr_models(base@)),
    ensures
        addr_models(r@) == merge_addrs(
            addr_models(base@),
            addr_models(extra@),
        ),
        distinct_addrs(addr_models(r@)),
{
    let ghost bm = addr_models(base@);
    let ghost em = addr_models(extra@);
    let mut out: Vec<Address> = Vec::new();
    let mut i: usize = 0;
    while i < base.len()
        invariant
            i <= base@.len(),
            bm == addr_models(base@),
            addr_models(out@) == bm.take(i as int),
        decreases base@.len() - i,
    {
        let d = base[i].duplicate();
        proof {
            lemma_addr_models_push(out@, d);
        }
        out.push(d);
        proof {
            assert(addr_models(out@) =~= bm.take(i + 1));
        }
        i = i + 1;
    }
    proof {
        assert(bm.take(bm.len() as int) =~= bm);
    }
    let mut j: usize = 0;
    while j < extra.len()
        invariant
            j <= extra@.len(),
            bm == addr_models(base@),
            em == addr_models(extra@),
            distinct_addrs(bm),
            addr_models(out@) == merge_addrs(bm, em.take(j as int)),
            distinct_addrs(addr_models(out@)),
        decreases extra@.len() - j,
    {
        let ghost pre = addr_models(out@);
        proof {
            assert(em.take(j + 1).drop_last() =~= em.take(j as int));
            assert(em.take(j + 1).last() == em[j as int]);
            lemma_merge_distinct(bm, em.take(j + 1));
        }
        if !contains_addr(&out, &extra[j]) {
            let d = extra[j].duplicate();
            proof {
                lemma_addr_models_push(out@, d);
            }
            out.push(d);
            proof {
                assert(addr_models(out@) =~= pre.push(em[j as int]));
            }
        }
        j = j + 1;
    }
    proof {
        assert(em.take(em.len() as int) =~= em);
    }
    out
}

impl PeerRecord {
    /// A record first seen now, with one address.
    pub fn first_seen(id: NodeId, address: Address, now: u64) -> (r: PeerRecord)
        ensures
            r@.id == id@,
            r@.addrs == seq![address@],
            r@.last_seen == now,
            distinct_addrs(r@.addrs),
    {
        let mut addresses: Vec<Address> = Vec::new();
        addresses.push(address);
        let r = PeerRecord { id, addresses, last_seen: now };
        proof {
            assert(r@.addrs =~= seq![r.addresses@[0]@]);
        }
        r
    }

    /// A copy of the record with the same identifier, addresses and time, its
    /// address list cleared of duplicates.
    pub fn normalized(&self) -> (r: PeerRecord)
        ensures
            r@.id == self@.id,
            r@.addrs == merge_addrs(Seq::<Seq<u8>>::empty(), self@.addrs),
            r@.last_seen == self@.last_seen,
            distinct_addrs(r@.addrs),
    {
        let empty: Vec<Address> = Vec::new();
        proof {
            assert(addr_models(empty@) =~= Seq::<Seq<u8>>::empty());
        }
        let addresses = merge_address_lists(&empty, &self.addresses);
        PeerRecord { id: self.id.duplicate(), addresses, last_seen: self.last_seen }
    }

    pub fn duplicate(&self) -> (r: PeerRecord)
        ensures
            r@ == self@,
    {
        let mut addresses: Vec<Address> = Vec::new();
        let mut i: usize = 0;
        while i < self.addresses.len()
            invariant
                i <= self.addresses@.len(),
                addr_models(addresses@) == addr_models(self.addresses@).take(i as int),
            decreases self.addresses@.len() - i,
        {
            let d = self.addresses[i].duplicate();
            proof {
                lemma_addr_models_push(addresses@, d);
            }
            addresses.push(d);
            proof {
                assert(addr_models(addresses@) =~= addr_models(self.addresses@).take(i + 1));
            }
            i = i + 1;
        }
        let r = PeerRecord { id: self.id.duplicate(), addresses, last_seen: self.last_seen };
        proof {
            let sm = addr_models(self.addresses@);
            assert(sm.take(sm.len() as int) =~= sm);
            assert(r@ =~= self@);
        }
        r
    }

    /// The stored record refreshed by a newly seen one: addresses merged,
    /// `last_seen` advanced.
    pub fn refreshed(&self, new_rec: &PeerRecord) -> (r: PeerRecord)
        requires
            distinct_addrs(self@.addrs),
        ensures
            r@ == merged_model(self@, new_rec@),
            distinct_addrs(r@.addrs),
    {
        let addresses = merge_address_lists(&self.addresses, &new_rec.addresses);
        let last_seen = if self.last_seen >= new_rec.last_seen {
            self.last_seen
        } else {
            new_rec.last_seen
        };
        let r = PeerRecord { id: self.id.duplicate(), addresses, last_seen };
        proof {
            assert(r@ =~= merged_model(self@, new_rec@));
        }
        r
    }
}

} // verus!
