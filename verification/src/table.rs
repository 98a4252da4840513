//! The Kademlia-style routing table.
//!
//! Peers are grouped into buckets by the number of leading bits their
//! identifier shares with the local one. Each bucket holds at most `K`
//! records; a full bucket rejects new peers and instead names its
//! least-recently-seen record as the candidate for eviction. The local
//! identifier is never stored, and an identifier occupies at most one slot
//! of one bucket.

use vstd::prelude::*;
use crate::id::{
    NodeId, bytes_eq, bucket_index, bucket_index_spec, closer_or_equal, dist_le,
};
use crate::record::{PeerRecord, RecModel, distinct_addrs};

verus! {

/// Bucket capacity.
pub const K: usize = 20;

/// The records of a row, by their mathematical content.
pub open spec fn rec_models(s: Seq<PeerRecord>) -> Seq<RecModel> {
    s.map_values(|r: PeerRecord| r@)
}

pub proof fn lemma_rec_models_push(s: Seq<PeerRecord>, r: PeerRecord)
    ensures
        rec_models(s.push(r)) == rec_models(s).push(r@),
{
    assert(rec_models(s.push(r)) =~= rec_models(s).push(r@));
}

/// Whether some record in `s` carries the identifier `id`.
pub open spec fn has_id(s: Seq<RecModel>, id: Seq<u8>) -> bool {
    exists|k: int| 0 <= k < s.len() && s[k].id == id
}

/// Ascending distance to `t`.
pub open spec fn sorted_by_dist(t: Seq<u8>, s: Seq<RecModel>) -> bool {
    forall|k1: int, k2: int| 0 <= k1 < k2 < s.len() ==> dist_le(t, s[k1].id, s[k2].id)
}

pub enum InsertResult {
    /// The record went into a bucket that had room.
    Added,
    /// A record with this identifier was already present and was refreshed.
    Updated,
    /// The bucket is full; the argument is its least-recently-seen record,
    /// the candidate for eviction.
    BucketFull(PeerRecord),
}

/// The routing table of one node.
pub struct RoutingTable {
    pub local: NodeId,
    pub buckets: Vec<Vec<PeerRecord>>,
}

impl RoutingTable {
    pub open spec fn num_buckets(self) -> int {
        self.buckets@.len() as int
    }

    /// The contents of bucket `i`.
    pub open spec fn rowm(self, i: int) -> Seq<RecModel> {
        rec_models(self.buckets@[i]@)
    }

    /// What must hold of the record at slot `j` of bucket `i`.
    pub open spec fn entry_ok(self, i: int, j: int) -> bool {
        let r = self.rowm(i)[j];
        &&& r.id.len() == self.local@.len()
        &&& r.id != self.local@
        &&& bucket_index_spec(self.local@, r.id) == i
        &&& distinct_addrs(r.addrs)
    }

    pub open spec fn bucket_ok(self, i: int) -> bool {
        &&& self.rowm(i).len() <= K
        &&& forall|j: int| 0 <= j < self.rowm(i).len() ==> #[trigger] self.entry_ok(i, j)
        &&& forall|j1: int, j2: int|
            0 <= j1 < j2 < self.rowm(i).len() ==> (#[trigger] self.rowm(i)[j1]).id != (
            #[trigger] self.rowm(i)[j2]).id
    }

    /// The table invariant: one bucket per bit of the identifier, no bucket
    /// over capacity, every stored record in the bucket its identifier
    /// selects, no identifier stored twice, the local identifier never
    /// stored.
    pub open spec fn wf(self) -> bool {
        &&& self.local@.len() >= 1
        &&& self.buckets@.len() == 8 * self.local@.len()
        &&& forall|i: int| 0 <= i < self.num_buckets() ==> #[trigger] self.bucket_ok(i)
    }

    /// Whether the table holds a record for `id`.
    pub open spec fn has(self, id: Seq<u8>) -> bool {
        exists|i: int, j: int|
            0 <= i < self.num_buckets() && 0 <= j < self.rowm(i).len() && (
            #[trigger] self.rowm(i)[j]).id == id
    }

    /// The record stored for `id` (meaningful when `has(id)`).
    pub open spec fn rec(self, id: Seq<u8>) -> RecModel {
        let (i, j) = choose|i: int, j: int|
            0 <= i < self.num_buckets() && 0 <= j < self.rowm(i).len() && (
            #[trigger] self.rowm(i)[j]).id == id;
        self.rowm(i)[j]
    }

    /// An empty table for the node `local`.
    pub fn new(local: NodeId) -> (r: RoutingTable)
        requires
            local@.len() >= 1,
            8 * local@.len() <= usize::MAX,
        ensures
            r.wf(),
            r.local@ == local@,
            forall|id: Seq<u8>| !r.has(id),
    {
        let n = 8 * local.bytes.len();
        let mut buckets: Vec<Vec<PeerRecord>> = Vec::new();
        let mut i: usize = 0;
        while i < n
            invariant
                i <= n,
                buckets@.len() == i,
                forall|k: int| 0 <= k < i ==> (#[trigger] buckets@[k])@.len() == 0,
            decreases n - i,
        {
            let row: Vec<PeerRecord> = Vec::new();
            buckets.push(row);
            i = i + 1;
        }
        let r = RoutingTable { local, buckets };
        proof {
            assert forall|i2: int| 0 <= i2 < r.num_buckets() implies r.bucket_ok(i2) by {
                assert(r.rowm(i2).len() == 0);
            }
        }
        r
    }
}

/// What `insert` did when a new record went into a bucket with room: the
/// record now ends its bucket, every other bucket is untouched.
pub open spec fn added_post(pre: RoutingTable, post: RoutingTable, r: RecModel) -> bool {
    let bi = bucket_index_spec(pre.local@, r.id) as int;
    &&& 0 <= bi < pre.num_buckets()
    &&& post.local == pre.local
    &&& post.num_buckets() == pre.num_buckets()
    &&& post.rowm(bi) == pre.rowm(bi).push(r)
    &&& forall|i: int|
        0 <= i < pre.num_buckets() && i != bi ==> #[trigger] post.rowm(i) == pre.rowm(i)
}

/// What `insert` did when the identifier was already present: its slot holds
/// the old record refreshed by the new one, everything else is untouched.
pub open spec fn updated_post(pre: RoutingTable, post: RoutingTable, r: RecModel) -> bool {
    let bi = bucket_index_spec(pre.local@, r.id) as int;
    &&& 0 <= bi < pre.num_buckets()
    &&& post.local == pre.local
    &&& post.num_buckets() == pre.num_buckets()
    &&& exists|j: int|
        0 <= j < pre.rowm(bi).len() && (#[trigger] pre.rowm(bi)[j]).id == r.id && post.rowm(bi)
            == pre.rowm(bi).update(j, crate::record::merged_model(pre.rowm(bi)[j], r))
    &&& forall|i: int|
        0 <= i < pre.num_buckets() && i != bi ==> #[trigger] post.rowm(i) == pre.rowm(i)
}

/// Refreshing a slot with a record identical to the one it stores leaves
/// the bucket unchanged: a repeated insert only re-merges what is already
/// there.
pub proof fn lemma_reinsert_identical(row: Seq<RecModel>, j: int, r: RecModel)
    requires
        0 <= j < row.len(),
        row[j] == r,
    ensures
        row.update(j, crate::record::merged_model(row[j], r)) == row,
{
    crate::record::lemma_refresh_identical(r);
    assert(row.update(j, crate::record::merged_model(row[j], r)) =~= row);
}

/// What a `BucketFull` answer names: the bucket of `r` stands at capacity and
/// `c` is one of its records with the least `last_seen`.
pub open spec fn evict_candidate_ok(pre: RoutingTable, r: RecModel, c: RecModel) -> bool {
    let bi = bucket_index_spec(pre.local@, r.id) as int;
    &&& 0 <= bi < pre.num_buckets()
    &&& pre.rowm(bi).len() == K
    &&& exists|j: int| 0 <= j < pre.rowm(bi).len() && #[trigger] pre.rowm(bi)[j] == c
    &&& forall|j: int|
        0 <= j < pre.rowm(bi).len() ==> c.last_seen <= (#[trigger] pre.rowm(bi)[j]).last_seen
}

/// A copy of `row` with slot `j` replaced by `r`.
fn row_with_update(row: &Vec<PeerRecord>, j: usize, r: PeerRecord) -> (out: Vec<PeerRecord>)
    requires
        j < row@.len(),
    ensures
        rec_models(out@) == rec_models(row@).update(j as int, r@),
{
    let mut out: Vec<PeerRecord> = Vec::new();
    let mut k: usize = 0;
    while k < row.len()
        invariant
            k <= row@.len(),
            j < row@.len(),
            rec_models(out@).len() == k,
            forall|a: int| 0 <= a < k && a != j ==> rec_models(out@)[a] == rec_models(row@)[a],
            forall|a: int| 0 <= a < k && a == j ==> rec_models(out@)[a] == r@,
        decreases row@.len() - k,
    {
        let d = if k == j {
            r.duplicate()
        } else {
            row[k].duplicate()
        };
        proof {
            lemma_rec_models_push(out@, d);
        }
        out.push(d);
        k = k + 1;
    }
    proof {
        assert(rec_models(out@) =~= rec_models(row@).update(j as int, r@));
    }
    out
}

/// A copy of `row` without slot `j`.
fn row_without(row: &Vec<PeerRecord>, j: usize) -> (out: Vec<PeerRecord>)
    requires
        j < row@.len(),
    ensures
        rec_models(out@) == rec_models(row@).remove(j as int),
{
    let mut out: Vec<PeerRecord> = Vec::new();
    let mut k: usize = 0;
    while k < row.len()
        invariant
            k <= row@.len(),
            j < row@.len(),
            k <= j ==> rec_models(out@) == rec_models(row@).take(k as int),
            k > j ==> rec_models(out@) == rec_models(row@).remove(j as int).take(k - 1),
        decreases row@.len() - k,
    {
        if k != j {
            let d = row[k].duplicate();
            proof {
                lemma_rec_models_push(out@, d);
            }
            out.push(d);
            proof {
                if k < j {
                    assert(rec_models(out@) =~= rec_models(row@).take(k + 1));
                } else {
                    assert(rec_models(row@).remove(j as int)[k - 1] == rec_models(row@)[k as int]);
                    assert(rec_models(out@) =~= rec_models(row@).remove(j as int).take(k as int));
                }
            }
        } else {
            proof {
                assert(rec_models(out@) =~= rec_models(row@).remove(j as int).take(k as int));
            }
        }
        k = k + 1;
    }
    proof {
        assert(rec_models(out@) =~= rec_models(row@).remove(j as int));
    }
    out
}

/// A copy of `row` with `r` at its end.
fn row_with_push(row: &Vec<PeerRecord>, r: PeerRecord) -> (out: Vec<PeerRecord>)
    ensures
        rec_models(out@) == rec_models(row@).push(r@),
{
    let mut out: Vec<PeerRecord> = Vec::new();
    let mut k: usize = 0;
    while k < row.len()
        invariant
            k <= row@.len(),
            rec_models(out@) == rec_models(row@).take(k as int),
        decreases row@.len() - k,
    {
        let d = row[k].duplicate();
        proof {
            lemma_rec_models_push(out@, d);
            assert(rec_models(row@).take(k as int).push(rec_models(row@)[k as int]) =~= rec_models(
                row@,
            ).take(k + 1));
        }
        out.push(d);
        k = k + 1;
    }
    proof {
        lemma_rec_models_push(out@, r);
        assert(rec_models(row@).take(row@.len() as int) =~= rec_models(row@));
    }
    out.push(r);
    out
}

impl RoutingTable {
    /// Adds a newly seen peer, or refreshes the record already stored for it.
    /// When the bucket is full the table is left unchanged and the bucket's
    /// least-recently-seen record is returned as the candidate for eviction:
    /// the caller decides, after a liveness probe, whether to `remove` it and
    /// insert the new peer.
    pub fn insert(&mut self, rec: &PeerRecord) -> (r: InsertResult)
        requires
            old(self).wf(),
            rec@.id.len() == old(self).local@.len(),
            rec@.id != old(self).local@,
            distinct_addrs(rec@.addrs),
        ensures
            final(self).wf(),
            final(self).local == old(self).local,
            match r {
                InsertResult::Added => !old(self).has(rec@.id) && final(self).has(rec@.id)
                    && added_post(*old(self), *final(self), rec@),
                InsertResult::Updated => old(self).has(rec@.id) && final(self).has(rec@.id)
                    && updated_post(*old(self), *final(self), rec@),
                InsertResult::BucketFull(c) => *final(self) == *old(self) && !old(self).has(
                    rec@.id,
                ) && evict_candidate_ok(*old(self), rec@, c@) && c@.id.len() == old(
                    self,
                ).local@.len() && c@.id != old(self).local@ && distinct_addrs(c@.addrs),
            },
    {
        let nb = self.buckets.len();
        proof {
            assert(8 * self.local@.len() == nb as int);
        }
        let bi = bucket_index(&self.local, &rec.id);
        proof {
            assert(self.bucket_ok(bi as int));
        }
        let n = self.buckets[bi].len();
        let ghost pre = *self;
        let mut j: usize = 0;
        while j < n
            invariant
                *self == pre,
                pre == *old(self),
                pre.wf(),
                bi < pre.num_buckets(),
                bi == bucket_index_spec(pre.local@, rec@.id) as int,
                n == pre.rowm(bi as int).len(),
                rec@.id.len() == pre.local@.len(),
                rec@.id != pre.local@,
                distinct_addrs(rec@.addrs),
                j <= n,
                forall|k: int| 0 <= k < j ==> (#[trigger] pre.rowm(bi as int)[k]).id != rec@.id,
            decreases n - j,
        {
            proof {
                assert(rec_models(self.buckets@[bi as int]@)[j as int] == self.buckets@[bi as int]@[j as int]@);
            }
            if bytes_eq(&self.buckets[bi][j].id.bytes, &rec.id.bytes) {
                proof {
                    assert(pre.bucket_ok(bi as int));
                    assert(pre.entry_ok(bi as int, j as int));
                }
                let merged = self.buckets[bi][j].refreshed(rec);
                let new_row = row_with_update(&self.buckets[bi], j, merged);
                self.buckets[bi] = new_row;
                proof {
                    lemma_insert_frame(pre, *self, bi as int);
                    assert(self.rowm(bi as int) == pre.rowm(bi as int).update(
                        j as int,
                        crate::record::merged_model(pre.rowm(bi as int)[j as int], rec@),
                    ));
                    lemma_wf_after_update(pre, *self, bi as int, j as int, rec@);
                    assert(pre.has(rec@.id));
                    assert(updated_post(pre, *self, rec@));
                }
                return InsertResult::Updated;
            }
            j = j + 1;
        }
        proof {
            lemma_not_present(pre, rec@.id);
        }
        if n < K {
            let new_row = row_with_push(&self.buckets[bi], rec.duplicate());
            self.buckets[bi] = new_row;
            proof {
                lemma_insert_frame(pre, *self, bi as int);
                assert(self.rowm(bi as int) == pre.rowm(bi as int).push(rec@));
                lemma_wf_after_push(pre, *self, bi as int, rec@);
                assert(added_post(pre, *self, rec@));
            }
            InsertResult::Added
        } else {
            let mut m: usize = 0;
            let mut k: usize = 1;
            while k < n
                invariant
                    *self == pre,
                    pre == *old(self),
                    pre.wf(),
                    n == pre.rowm(bi as int).len(),
                    n == K,
                    bi < pre.num_buckets(),
                    bi == bucket_index_spec(pre.local@, rec@.id) as int,
                    rec@.id.len() == pre.local@.len(),
                    rec@.id != pre.local@,
                    forall|a: int| 0 <= a < n ==> (#[trigger] pre.rowm(bi as int)[a]).id != rec@.id,
                    n >= 1,
                    m < k,
                    k <= n,
                    forall|a: int|
                        0 <= a < k ==> pre.rowm(bi as int)[m as int].last_seen <= (
                        #[trigger] pre.rowm(bi as int)[a]).last_seen,
                decreases n - k,
            {
                if self.buckets[bi][k].last_seen < self.buckets[bi][m].last_seen {
                    m = k;
                }
                k = k + 1;
            }
            let candidate = self.buckets[bi][m].duplicate();
            proof {
                assert(rec_models(self.buckets@[bi as int]@)[m as int] == self.buckets@[bi as int]@[m as int]@);
                assert(pre.rowm(bi as int)[m as int] == candidate@);
                assert(evict_candidate_ok(pre, rec@, candidate@));
                assert(pre.bucket_ok(bi as int));
                assert(pre.entry_ok(bi as int, m as int));
            }
            InsertResult::BucketFull(candidate)
        }
    }
}

/// What `remove` did when the identifier was present: its slot is gone from
/// its bucket, everything else is untouched.
pub open spec fn removed_post(pre: RoutingTable, post: RoutingTable, id: Seq<u8>) -> bool {
    let bi = bucket_index_spec(pre.local@, id) as int;
    &&& post.local == pre.local
    &&& post.num_buckets() == pre.num_buckets()
    &&& exists|j: int|
        0 <= j < pre.rowm(bi).len() && (#[trigger] pre.rowm(bi)[j]).id == id && post.rowm(bi)
            == pre.rowm(bi).remove(j)
    &&& forall|i: int|
        0 <= i < pre.num_buckets() && i != bi ==> #[trigger] post.rowm(i) == pre.rowm(i)
}

impl RoutingTable {
    /// Drops the record for `id`, if one is stored (used on explicit
    /// disconnect once a liveness probe has also failed).
    pub fn remove(&mut self, id: &NodeId)
        requires
            old(self).wf(),
            id@.len() == old(self).local@.len(),
        ensures
            final(self).wf(),
            final(self).local == old(self).local,
            !final(self).has(id@),
            old(self).has(id@) ==> removed_post(*old(self), *final(self), id@),
            !old(self).has(id@) ==> *final(self) == *old(self),
    {
        if bytes_eq(&id.bytes, &self.local.bytes) {
            proof {
                lemma_no_self(*self);
            }
            return ;
        }
        let nb = self.buckets.len();
        proof {
            assert(8 * self.local@.len() == nb as int);
        }
        let bi = bucket_index(&self.local, id);
        proof {
            assert(self.bucket_ok(bi as int));
        }
        let n = self.buckets[bi].len();
        let ghost pre = *self;
        let mut j: usize = 0;
        while j < n
            invariant
                *self == pre,
                pre == *old(self),
                pre.wf(),
                bi < pre.num_buckets(),
                bi == bucket_index_spec(pre.local@, id@) as int,
                n == pre.rowm(bi as int).len(),
                id@.len() == pre.local@.len(),
                id@ != pre.local@,
                j <= n,
                forall|k: int| 0 <= k < j ==> (#[trigger] pre.rowm(bi as int)[k]).id != id@,
            decreases n - j,
        {
            proof {
                assert(rec_models(self.buckets@[bi as int]@)[j as int] == self.buckets@[bi as int]@[j as int]@);
            }
            if bytes_eq(&self.buckets[bi][j].id.bytes, &id.bytes) {
                let new_row = row_without(&self.buckets[bi], j);
                self.buckets[bi] = new_row;
                proof {
                    lemma_insert_frame(pre, *self, bi as int);
                    assert(self.rowm(bi as int) == pre.rowm(bi as int).remove(j as int));
                    lemma_wf_after_remove(pre, *self, bi as int, j as int);
                    assert(pre.has(id@));
                    assert(removed_post(pre, *self, id@));
                    assert(pre.bucket_ok(bi as int));
                    assert forall|k: int|
                        0 <= k < self.rowm(bi as int).len() implies (#[trigger] self.rowm(
                        bi as int,
                    )[k]).id != id@ by {
                        if k < j {
                            assert(self.rowm(bi as int)[k] == pre.rowm(bi as int)[k]);
                        } else {
                            assert(self.rowm(bi as int)[k] == pre.rowm(bi as int)[k + 1]);
                        }
                    }
                    lemma_not_present(*self, id@);
                }
                return ;
            }
            j = j + 1;
        }
        proof {
            lemma_not_present(pre, id@);
        }
    }
}

proof fn lemma_wf_after_remove(pre: RoutingTable, post: RoutingTable, bi: int, j: int)
    requires
        pre.wf(),
        post.local == pre.local,
        post.num_buckets() == pre.num_buckets(),
        0 <= bi < pre.num_buckets(),
        0 <= j < pre.rowm(bi).len(),
        post.rowm(bi) == pre.rowm(bi).remove(j),
        forall|i: int| 0 <= i < pre.num_buckets() && i != bi ==> #[trigger] post.rowm(i) == pre.rowm(i),
    ensures
        post.wf(),
        forall|k: int|
            0 <= k < post.rowm(bi).len() ==> (#[trigger] post.rowm(bi)[k]) == (if k < j {
                pre.rowm(bi)[k]
            } else {
                pre.rowm(bi)[k + 1]
            }),
{
    assert(pre.bucket_ok(bi));
    assert forall|k: int| 0 <= k < post.rowm(bi).len() implies (#[trigger] post.rowm(bi)[k]) == (
    if k < j {
        pre.rowm(bi)[k]
    } else {
        pre.rowm(bi)[k + 1]
    }) by {
        assert(post.rowm(bi)[k] == pre.rowm(bi).remove(j)[k]);
    }
    assert forall|i: int| 0 <= i < post.num_buckets() implies post.bucket_ok(i) by {
        assert(pre.bucket_ok(i));
        if i == bi {
            assert forall|j2: int| 0 <= j2 < post.rowm(i).len() implies post.entry_ok(i, j2) by {
                if j2 < j {
                    assert(post.rowm(i)[j2] == pre.rowm(i)[j2]);
                    assert(pre.entry_ok(i, j2));
                } else {
                    assert(post.rowm(i)[j2] == pre.rowm(i)[j2 + 1]);
                    assert(pre.entry_ok(i, j2 + 1));
                }
            }
        } else {
            assert forall|j2: int| 0 <= j2 < post.rowm(i).len() implies post.entry_ok(i, j2) by {
                assert(pre.entry_ok(i, j2));
            }
        }
    }
}

/// Replacing one bucket leaves every other bucket as it was.
proof fn lemma_insert_frame(pre: RoutingTable, post: RoutingTable, bi: int)
    requires
        post.local == pre.local,
        0 <= bi < pre.num_buckets(),
        post.buckets@ == pre.buckets@.update(bi, post.buckets@[bi]),
    ensures
        post.num_buckets() == pre.num_buckets(),
        forall|i: int| 0 <= i < pre.num_buckets() && i != bi ==> #[trigger] post.rowm(i) == pre.rowm(i),
{
}

proof fn lemma_wf_after_update(pre: RoutingTable, post: RoutingTable, bi: int, j: int, r: RecModel)
    requires
        pre.wf(),
        post.local == pre.local,
        post.num_buckets() == pre.num_buckets(),
        0 <= bi < pre.num_buckets(),
        0 <= j < pre.rowm(bi).len(),
        bucket_index_spec(pre.local@, r.id) == bi,
        pre.rowm(bi)[j].id == r.id,
        r.id.len() == pre.local@.len(),
        r.id != pre.local@,
        distinct_addrs(crate::record::merged_model(pre.rowm(bi)[j], r).addrs),
        post.rowm(bi) == pre.rowm(bi).update(j, crate::record::merged_model(pre.rowm(bi)[j], r)),
        forall|i: int| 0 <= i < pre.num_buckets() && i != bi ==> #[trigger] post.rowm(i) == pre.rowm(i),
    ensures
        post.wf(),
        post.has(r.id),
{
    let merged = crate::record::merged_model(pre.rowm(bi)[j], r);
    assert(merged.id == r.id);
    assert forall|i: int| 0 <= i < post.num_buckets() implies post.bucket_ok(i) by {
        assert(pre.bucket_ok(i));
        if i == bi {
            assert forall|j2: int| 0 <= j2 < post.rowm(i).len() implies post.entry_ok(i, j2) by {
                assert(pre.entry_ok(i, j2));
            }
        } else {
            assert forall|j2: int| 0 <= j2 < post.rowm(i).len() implies post.entry_ok(i, j2) by {
                assert(pre.entry_ok(i, j2));
            }
        }
    }
    assert(post.rowm(bi)[j].id == r.id);
}

proof fn lemma_wf_after_push(pre: RoutingTable, post: RoutingTable, bi: int, r: RecModel)
    requires
        pre.wf(),
        post.local == pre.local,
        post.num_buckets() == pre.num_buckets(),
        0 <= bi < pre.num_buckets(),
        pre.rowm(bi).len() < K,
        bucket_index_spec(pre.local@, r.id) == bi,
        r.id.len() == pre.local@.len(),
        r.id != pre.local@,
        distinct_addrs(r.addrs),
        forall|k: int| 0 <= k < pre.rowm(bi).len() ==> (#[trigger] pre.rowm(bi)[k]).id != r.id,
        post.rowm(bi) == pre.rowm(bi).push(r),
        forall|i: int| 0 <= i < pre.num_buckets() && i != bi ==> #[trigger] post.rowm(i) == pre.rowm(i),
    ensures
        post.wf(),
        post.has(r.id),
{
    assert forall|i: int| 0 <= i < post.num_buckets() implies post.bucket_ok(i) by {
        assert(pre.bucket_ok(i));
        if i == bi {
            assert forall|j2: int| 0 <= j2 < post.rowm(i).len() implies post.entry_ok(i, j2) by {
                if j2 < pre.rowm(bi).len() {
                    assert(pre.entry_ok(i, j2));
                } else {
                    assert(post.rowm(i)[j2] == r);
                }
            }
        } else {
            assert forall|j2: int| 0 <= j2 < post.rowm(i).len() implies post.entry_ok(i, j2) by {
                assert(pre.entry_ok(i, j2));
            }
        }
    }
    assert(post.rowm(bi)[pre.rowm(bi).len() as int].id == r.id);
}

pub proof fn lemma_rec_models_insert(s: Seq<PeerRecord>, p: int, r: PeerRecord)
    requires
        0 <= p <= s.len(),
    ensures
        rec_models(s.insert(p, r)) == rec_models(s).insert(p, r@),
{
    s.insert_ensures(p, r);
    rec_models(s).insert_ensures(p, r@);
    assert(rec_models(s.insert(p, r)) =~= rec_models(s).insert(p, r@));
}

impl RoutingTable {
    /// The collection invariant of `closest`: `m` holds exactly the records
    /// of the slots before bucket `i`, slot `j`, in ascending distance to
    /// `t`, one slot per identifier.
    pub open spec fn gathered(self, t: Seq<u8>, m: Seq<RecModel>, i: int, j: int) -> bool {
        &&& forall|k: int|
            0 <= k < m.len() ==> self.has((#[trigger] m[k]).id) && self.rec(m[k].id) == m[k]
        &&& forall|i2: int, j2: int|
            0 <= i2 < self.num_buckets() && 0 <= j2 < self.rowm(i2).len() && (i2 < i || (i2 == i
                && j2 < j)) ==> has_id(m, (#[trigger] self.rowm(i2)[j2]).id)
        &&& forall|i2: int, j2: int|
            0 <= i2 < self.num_buckets() && 0 <= j2 < self.rowm(i2).len() && !(i2 < i || (i2 == i
                && j2 < j)) ==> !has_id(m, (#[trigger] self.rowm(i2)[j2]).id)
        &&& sorted_by_dist(t, m)
        &&& forall|k1: int, k2: int|
            0 <= k1 < k2 < m.len() ==> (#[trigger] m[k1]).id != (#[trigger] m[k2]).id
        &&& forall|k: int| 0 <= k < m.len() ==> (#[trigger] m[k]).id.len() == self.local@.len()
    }

    /// What `closest(target, count)` returns: at most `count` of the stored
    /// records, sorted ascending by distance to `target`, no identifier
    /// twice and never the local one; every stored record is included while
    /// room remains, and every excluded record is at least as far from
    /// `target` as every included one.
    pub open spec fn closest_post(self, t: Seq<u8>, count: int, outm: Seq<RecModel>) -> bool {
        &&& outm.len() <= count
        &&& forall|k: int|
            0 <= k < outm.len() ==> self.has((#[trigger] outm[k]).id) && self.rec(outm[k].id)
                == outm[k]
        &&& forall|k: int| 0 <= k < outm.len() ==> (#[trigger] outm[k]).id != self.local@
        &&& sorted_by_dist(t, outm)
        &&& forall|k1: int, k2: int|
            0 <= k1 < k2 < outm.len() ==> (#[trigger] outm[k1]).id != (#[trigger] outm[k2]).id
        &&& (outm.len() < count ==> (forall|id: Seq<u8>| #[trigger] self.has(id) ==> has_id(
            outm,
            id,
        )))
        &&& forall|id: Seq<u8>, k: int|
            #[trigger] self.has(id) && !has_id(outm, id) && 0 <= k < outm.len() ==> dist_le(
                t,
                (#[trigger] outm[k]).id,
                id,
            )
    }
}

proof fn lemma_gathered_step(t: RoutingTable, tgt: Seq<u8>, pre_m: Seq<RecModel>, p: int, i: int, j: int)
    requires
        t.wf(),
        0 <= i < t.num_buckets(),
        0 <= j < t.rowm(i).len(),
        t.gathered(tgt, pre_m, i, j),
        0 <= p <= pre_m.len(),
        forall|a: int| 0 <= a < p ==> dist_le(tgt, (#[trigger] pre_m[a]).id, t.rowm(i)[j].id),
        forall|b: int|
            p <= b < pre_m.len() ==> dist_le(tgt, t.rowm(i)[j].id, (#[trigger] pre_m[b]).id),
    ensures
        t.gathered(tgt, pre_m.insert(p, t.rowm(i)[j]), i, j + 1),
{
    let r = t.rowm(i)[j];
    let post_m = pre_m.insert(p, r);
    pre_m.insert_ensures(p, r);
    assert(t.bucket_ok(i));
    assert(t.entry_ok(i, j));
    lemma_rec_at(t, i, j);
    // the slot just taken was unprocessed, so its identifier was not yet included
    assert(!has_id(pre_m, r.id));
    assert forall|k0: int| 0 <= k0 < pre_m.len() implies (#[trigger] pre_m[k0]).id != r.id by {
        if pre_m[k0].id == r.id {
            assert(has_id(pre_m, r.id));
        }
    }
    assert forall|k: int|
        0 <= k < post_m.len() implies t.has((#[trigger] post_m[k]).id) && t.rec(post_m[k].id)
        == post_m[k] && post_m[k].id.len() == t.local@.len() by {
        if k == p {
            assert(post_m[k] == r);
        } else if k < p {
            assert(post_m[k] == pre_m[k]);
        } else {
            assert(post_m[k] == pre_m[k - 1]);
        }
    }
    assert forall|i2: int, j2: int|
        0 <= i2 < t.num_buckets() && 0 <= j2 < t.rowm(i2).len() && (i2 < i || (i2 == i && j2 < j
            + 1)) implies has_id(post_m, (#[trigger] t.rowm(i2)[j2]).id) by {
        if i2 == i && j2 == j {
            assert(post_m[p].id == t.rowm(i2)[j2].id);
        } else {
            assert(has_id(pre_m, t.rowm(i2)[j2].id));
            let k0 = choose|k0: int| 0 <= k0 < pre_m.len() && pre_m[k0].id == t.rowm(i2)[j2].id;
            let k = if k0 < p {
                k0
            } else {
                k0 + 1
            };
            assert(post_m[k].id == t.rowm(i2)[j2].id);
        }
    }
    assert forall|i2: int, j2: int|
        0 <= i2 < t.num_buckets() && 0 <= j2 < t.rowm(i2).len() && !(i2 < i || (i2 == i && j2 < j
            + 1)) implies !has_id(post_m, (#[trigger] t.rowm(i2)[j2]).id) by {
        let id2 = t.rowm(i2)[j2].id;
        assert(!has_id(pre_m, id2));
        if has_id(post_m, id2) {
            let k = choose|k: int| 0 <= k < post_m.len() && post_m[k].id == id2;
            if k == p {
                assert(r.id == id2);
                lemma_entry_unique(t, i2, j2, i, j);
            } else if k < p {
                assert(post_m[k] == pre_m[k]);
                assert(has_id(pre_m, id2));
            } else {
                assert(post_m[k] == pre_m[k - 1]);
                assert(has_id(pre_m, id2));
            }
        }
    }
    assert forall|k1: int, k2: int|
        0 <= k1 < k2 < post_m.len() implies (#[trigger] post_m[k1]).id != (
    #[trigger] post_m[k2]).id by {
        if k1 == p {
            assert(post_m[k2] == pre_m[k2 - 1]);
        } else if k2 == p {
            assert(post_m[k1] == pre_m[k1]);
        } else {
            let a1 = if k1 < p {
                k1
            } else {
                k1 - 1
            };
            let a2 = if k2 < p {
                k2
            } else {
                k2 - 1
            };
            assert(post_m[k1] == pre_m[a1]);
            assert(post_m[k2] == pre_m[a2]);
        }
    }
    assert forall|k1: int, k2: int|
        0 <= k1 < k2 < post_m.len() implies dist_le(tgt, post_m[k1].id, post_m[k2].id) by {
        if k1 == p {
            assert(post_m[k2] == pre_m[k2 - 1]);
        } else if k2 == p {
            assert(post_m[k1] == pre_m[k1]);
        } else {
            let a1 = if k1 < p {
                k1
            } else {
                k1 - 1
            };
            let a2 = if k2 < p {
                k2
            } else {
                k2 - 1
            };
            assert(post_m[k1] == pre_m[a1]);
            assert(post_m[k2] == pre_m[a2]);
        }
    }
}

proof fn lemma_gathered_next_bucket(t: RoutingTable, tgt: Seq<u8>, m: Seq<RecModel>, i: int)
    requires
        t.wf(),
        0 <= i < t.num_buckets(),
        t.gathered(tgt, m, i, t.rowm(i).len() as int),
    ensures
        t.gathered(tgt, m, i + 1, 0),
{
    assert forall|i2: int, j2: int|
        0 <= i2 < t.num_buckets() && 0 <= j2 < t.rowm(i2).len() && (i2 < i + 1 || (i2 == i + 1
            && j2 < 0)) implies has_id(m, (#[trigger] t.rowm(i2)[j2]).id) by {
        assert(i2 < i || (i2 == i && j2 < t.rowm(i).len()));
    }
    assert forall|i2: int, j2: int|
        0 <= i2 < t.num_buckets() && 0 <= j2 < t.rowm(i2).len() && !(i2 < i + 1 || (i2 == i + 1
            && j2 < 0)) implies !has_id(m, (#[trigger] t.rowm(i2)[j2]).id) by {
        assert(!(i2 < i || (i2 == i && j2 < t.rowm(i).len() as int)));
    }
}

proof fn lemma_closest_from_gathered(
    t: RoutingTable,
    tgt: Seq<u8>,
    full: Seq<RecModel>,
    outm: Seq<RecModel>,
    count: int,
)
    requires
        t.wf(),
        tgt.len() == t.local@.len(),
        t.gathered(tgt, full, t.num_buckets(), 0),
        outm == full.take(outm.len() as int),
        0 <= outm.len() <= full.len(),
        outm.len() <= count,
        outm.len() < count ==> outm == full,
    ensures
        t.closest_post(tgt, count, outm),
{
    assert forall|k: int|
        0 <= k < outm.len() implies t.has((#[trigger] outm[k]).id) && t.rec(outm[k].id) == outm[k]
        && outm[k].id != t.local@ by {
        assert(outm[k] == full[k]);
        lemma_no_self(t);
    }
    // every stored identifier appears in the full gathering
    assert forall|id: Seq<u8>| #[trigger] t.has(id) implies has_id(full, id) by {
        let (i2, j2) = choose|i2: int, j2: int|
            0 <= i2 < t.num_buckets() && 0 <= j2 < t.rowm(i2).len() && (#[trigger] t.rowm(i2)[j2]).id
                == id;
        assert(has_id(full, t.rowm(i2)[j2].id));
    }
    assert forall|id: Seq<u8>, k: int|
        #[trigger] t.has(id) && !has_id(outm, id) && 0 <= k < outm.len() implies dist_le(
        tgt,
        (#[trigger] outm[k]).id,
        id,
    ) by {
        assert(has_id(full, id));
        let kf = choose|kf: int| 0 <= kf < full.len() && full[kf].id == id;
        if kf < outm.len() {
            assert(outm[kf].id == id);
            assert(has_id(outm, id));
        }
        assert(kf >= outm.len());
        assert(outm[k] == full[k]);
        assert(dist_le(tgt, full[k].id, full[kf].id));
        assert(full[kf].id == id);
    }
}

/// The position in the distance-sorted `list` before which `r` belongs.
fn insertion_point(target: &NodeId, list: &Vec<PeerRecord>, r: &PeerRecord) -> (p: usize)
    requires
        sorted_by_dist(target@, rec_models(list@)),
        r@.id.len() == target@.len(),
        forall|k: int|
            0 <= k < list@.len() ==> (#[trigger] rec_models(list@)[k]).id.len() == target@.len(),
    ensures
        p <= list@.len(),
        forall|a: int| 0 <= a < p ==> dist_le(target@, (#[trigger] rec_models(list@)[a]).id, r@.id),
        forall|b: int|
            p <= b < list@.len() ==> dist_le(target@, r@.id, (#[trigger] rec_models(list@)[b]).id),
{
    let mut p: usize = 0;
    while p < list.len()
        invariant
            p <= list@.len(),
            sorted_by_dist(target@, rec_models(list@)),
            r@.id.len() == target@.len(),
            forall|k: int|
                0 <= k < list@.len() ==> (#[trigger] rec_models(list@)[k]).id.len()
                    == target@.len(),
            forall|a: int|
                0 <= a < p ==> dist_le(target@, (#[trigger] rec_models(list@)[a]).id, r@.id),
        decreases list@.len() - p,
    {
        proof {
            assert(rec_models(list@)[p as int] == list@[p as int]@);
        }
        if !closer_or_equal(target, &list[p].id, &r.id) {
            proof {
                assert forall|b: int|
                    p <= b < list@.len() implies dist_le(
                    target@,
                    r@.id,
                    (#[trigger] rec_models(list@)[b]).id,
                ) by {
                    assert(dist_le(target@, r@.id, rec_models(list@)[p as int].id));
                    if b > p {
                        assert(dist_le(
                            target@,
                            rec_models(list@)[p as int].id,
                            rec_models(list@)[b].id,
                        ));
                    }
                }
            }
            return p;
        }
        p = p + 1;
    }
    p
}

impl RoutingTable {
    /// Up to `count` stored records, sorted ascending by distance to
    /// `target`; while room remains every stored record is returned, and any
    /// record left out is at least as far from `target` as any returned.
    pub fn closest(&self, target: &NodeId, count: usize) -> (out: Vec<PeerRecord>)
        requires
            self.wf(),
            target@.len() == self.local@.len(),
        ensures
            self.closest_post(target@, count as int, rec_models(out@)),
    {
        let mut out: Vec<PeerRecord> = Vec::new();
        let nb = self.buckets.len();
        let mut i: usize = 0;
        proof {
            assert(rec_models(out@) =~= Seq::<RecModel>::empty());
        }
        while i < nb
            invariant
                self.wf(),
                target@.len() == self.local@.len(),
                nb as int == self.num_buckets(),
                i <= nb,
                self.gathered(target@, rec_models(out@), i as int, 0),
            decreases nb - i,
        {
            let m = self.buckets[i].len();
            let mut j: usize = 0;
            while j < m
                invariant
                    self.wf(),
                    target@.len() == self.local@.len(),
                    nb as int == self.num_buckets(),
                    i < nb,
                    m as int == self.rowm(i as int).len(),
                    j <= m,
                    self.gathered(target@, rec_models(out@), i as int, j as int),
                decreases m - j,
            {
                proof {
                    assert(rec_models(self.buckets@[i as int]@)[j as int] == self.buckets@[i as int]@[j as int]@);
                    assert(self.bucket_ok(i as int));
                    assert(self.entry_ok(i as int, j as int));
                }
                let r = self.buckets[i][j].duplicate();
                let p = insertion_point(target, &out, &r);
                let ghost prevec = out@;
                let ghost prem = rec_models(out@);
                proof {
                    lemma_rec_models_insert(prevec, p as int, r);
                }
                out.insert(p, r);
                proof {
                    assert(rec_models(out@) == prem.insert(p as int, r@));
                    lemma_gathered_step(*self, target@, prem, p as int, i as int, j as int);
                }
                j = j + 1;
            }
            proof {
                lemma_gathered_next_bucket(*self, target@, rec_models(out@), i as int);
            }
            i = i + 1;
        }
        let ghost full = rec_models(out@);
        proof {
            assert(rec_models(out@) =~= full.take(out@.len() as int));
        }
        while out.len() > count
            invariant
                self.wf(),
                target@.len() == self.local@.len(),
                self.gathered(target@, full, self.num_buckets(), 0),
                out@.len() <= full.len(),
                rec_models(out@) == full.take(out@.len() as int),
                out@.len() >= count || rec_models(out@) == full,
            decreases out@.len(),
        {
            out.pop();
            proof {
                assert(rec_models(out@) =~= full.take(out@.len() as int));
            }
        }
        proof {
            if rec_models(out@).len() < count as int {
                assert(rec_models(out@) == full);
            }
            lemma_closest_from_gathered(
                *self,
                target@,
                full,
                rec_models(out@),
                count as int,
            );
        }
        out
    }
}

/// Two slots carrying the same identifier are the same slot.
pub proof fn lemma_entry_unique(t: RoutingTable, i1: int, j1: int, i2: int, j2: int)
    requires
        t.wf(),
        0 <= i1 < t.num_buckets(),
        0 <= j1 < t.rowm(i1).len(),
        0 <= i2 < t.num_buckets(),
        0 <= j2 < t.rowm(i2).len(),
        t.rowm(i1)[j1].id == t.rowm(i2)[j2].id,
    ensures
        i1 == i2,
        j1 == j2,
{
    assert(t.bucket_ok(i1));
    assert(t.bucket_ok(i2));
    assert(t.entry_ok(i1, j1));
    assert(t.entry_ok(i2, j2));
}

/// The record at a slot is the record the table holds for its identifier.
pub proof fn lemma_rec_at(t: RoutingTable, i: int, j: int)
    requires
        t.wf(),
        0 <= i < t.num_buckets(),
        0 <= j < t.rowm(i).len(),
    ensures
        t.has(t.rowm(i)[j].id),
        t.rec(t.rowm(i)[j].id) == t.rowm(i)[j],
{
    let id = t.rowm(i)[j].id;
    assert(t.has(id));
    let (ci, cj) = choose|ci: int, cj: int|
        0 <= ci < t.num_buckets() && 0 <= cj < t.rowm(ci).len() && (#[trigger] t.rowm(ci)[cj]).id
            == id;
    lemma_entry_unique(t, ci, cj, i, j);
}

/// No bucket ever holds more than `K` records.
pub proof fn lemma_bucket_capacity(t: RoutingTable, i: int)
    requires
        t.wf(),
        0 <= i < t.num_buckets(),
    ensures
        t.rowm(i).len() <= K,
{
    assert(t.bucket_ok(i));
}

/// The table never holds the local identifier.
pub proof fn lemma_no_self(t: RoutingTable)
    requires
        t.wf(),
    ensures
        !t.has(t.local@),
{
    assert forall|i: int, j: int|
        0 <= i < t.num_buckets() && 0 <= j < t.rowm(i).len() implies (#[trigger] t.rowm(i)[j]).id
        != t.local@ by {
        assert(t.bucket_ok(i));
        assert(t.entry_ok(i, j));
    }
}

/// An identifier whose bucket does not hold it is absent from the table.
proof fn lemma_not_present(t: RoutingTable, id: Seq<u8>)
    requires
        t.wf(),
        id.len() == t.local@.len(),
        id != t.local@,
        forall|k: int|
            0 <= k < t.rowm(bucket_index_spec(t.local@, id) as int).len() ==> (#[trigger] t.rowm(
                bucket_index_spec(t.local@, id) as int,
            )[k]).id != id,
    ensures
        !t.has(id),
{
    let bi = bucket_index_spec(t.local@, id) as int;
    assert forall|i: int, j: int|
        0 <= i < t.num_buckets() && 0 <= j < t.rowm(i).len() implies (#[trigger] t.rowm(i)[j]).id
        != id by {
        assert(t.bucket_ok(i));
        assert(t.entry_ok(i, j));
        if t.rowm(i)[j].id == id {
            assert(i == bi);
        }
    }
}

} // verus!
