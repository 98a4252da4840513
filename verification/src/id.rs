//! Node identifiers and XOR distance.
//!
//! A `NodeId` is a fixed-length byte string derived from a node's public key.
//! The distance between two identifiers is their bitwise XOR read as an
//! unsigned big-endian integer; it is used purely as an ordering key. The
//! bucket index of a peer is the number of leading bits its identifier shares
//! with the local one, i.e. the number of leading zero bits of the XOR.

use vstd::prelude::*;

verus! {

use vstd::arithmetic::mul::lemma_mul_inequality;

/// Fixed-length identifier of a node, derived from its public key.
pub struct NodeId {
    pub bytes: Vec<u8>,
}

impl View for NodeId {
    type V = Seq<u8>;

    open spec fn view(&self) -> Seq<u8> {
        self.bytes@
    }
}

impl NodeId {
    pub fn new(bytes: Vec<u8>) -> (r: NodeId)
        ensures
            r@ == bytes@,
    {
        NodeId { bytes }
    }

    pub fn duplicate(&self) -> (r: NodeId)
        ensures
            r@ == self@,
    {
        NodeId { bytes: copy_bytes(&self.bytes) }
    }

    pub fn len(&self) -> (r: usize)
        ensures
            r == self@.len(),
    {
        self.bytes.len()
    }
}

/// Byte-for-byte copy of a vector.
pub fn copy_bytes(v: &Vec<u8>) -> (r: Vec<u8>)
    ensures
        r@ == v@,
{
    let mut out: Vec<u8> = Vec::new();
    let mut i: usize = 0;
    while i < v.len()
        invariant
            i <= v.len(),
            out@ == v@.take(i as int),
        decreases v.len() - i,
    {
        out.push(v[i]);
        proof {
            assert(out@ =~= v@.take(i + 1));
        }
        i = i + 1;
    }
    proof {
        assert(v@.take(v@.len() as int) =~= v@);
    }
    out
}

/// Byte-for-byte equality of two vectors.
pub fn bytes_eq(a: &Vec<u8>, b: &Vec<u8>) -> (r: bool)
    ensures
        r == (a@ == b@),
{
    if a.len() != b.len() {
        return false;
    }
    let mut i: usize = 0;
    while i < a.len()
        invariant
            i <= a.len(),
            a@.len() == b@.len(),
            forall|k: int| 0 <= k < i ==> a@[k] == b@[k],
        decreases a.len() - i,
    {
        if a[i] != b[i] {
            return false;
        }
        i = i + 1;
    }
    proof {
        assert(a@ =~= b@);
    }
    true
}

/// Bitwise XOR of two equal-length byte strings.
pub open spec fn xor_bytes(a: Seq<u8>, b: Seq<u8>) -> Seq<u8>
    recommends
        a.len() == b.len(),
{
    Seq::new(a.len(), |i: int| a[i] ^ b[i])
}

/// 256 to the power `n`.
pub open spec fn pow256(n: nat) -> nat
    decreases n,
{
    if n == 0 {
        1
    } else {
        256 * pow256((n - 1) as nat)
    }
}

/// A byte string read as an unsigned big-endian integer.
pub open spec fn bytes_value(s: Seq<u8>) -> nat
    decreases s.len(),
{
    if s.len() == 0 {
        0
    } else {
        (s[0] as nat) * pow256((s.len() - 1) as nat) + bytes_value(s.skip(1))
    }
}

/// XOR distance between two equal-length identifiers, as an integer.
pub open spec fn distance_spec(a: Seq<u8>, b: Seq<u8>) -> nat
    recommends
        a.len() == b.len(),
{
    bytes_value(xor_bytes(a, b))
}

/// `distance_spec(t, x) <= distance_spec(t, y)`: `x` is at least as close to
/// `t` as `y` is.
pub open spec fn dist_le(t: Seq<u8>, x: Seq<u8>, y: Seq<u8>) -> bool {
    distance_spec(t, x) <= distance_spec(t, y)
}

/// The XOR distance is symmetric.
pub proof fn lemma_distance_symmetric(a: Seq<u8>, b: Seq<u8>)
    requires
        a.len() == b.len(),
    ensures
        distance_spec(a, b) == distance_spec(b, a),
{
    assert forall|i: int| 0 <= i < a.len() implies xor_bytes(a, b)[i] == xor_bytes(b, a)[i] by {
        let x = a[i];
        let y = b[i];
        assert(x ^ y == y ^ x) by (bit_vector);
    }
    assert(xor_bytes(a, b) =~= xor_bytes(b, a));
}

pub proof fn lemma_zero_value(s: Seq<u8>)
    requires
        forall|i: int| 0 <= i < s.len() ==> s[i] == 0,
    ensures
        bytes_value(s) == 0,
    decreases s.len(),
{
    if s.len() > 0 {
        lemma_zero_value(s.skip(1));
    }
}

/// The XOR distance from an identifier to itself is zero.
pub proof fn lemma_distance_self(a: Seq<u8>)
    ensures
        distance_spec(a, a) == 0,
{
    assert forall|i: int| 0 <= i < a.len() implies xor_bytes(a, a)[i] == 0 by {
        let x = a[i];
        assert(x ^ x == 0) by (bit_vector);
    }
    lemma_zero_value(xor_bytes(a, a));
}

pub proof fn lemma_pow256_pos(n: nat)
    ensures
        pow256(n) >= 1,
    decreases n,
{
    if n > 0 {
        lemma_pow256_pos((n - 1) as nat);
    }
}

/// A byte string of length `n` reads as an integer below `256^n`.
pub proof fn lemma_value_bound(s: Seq<u8>)
    ensures
        bytes_value(s) < pow256(s.len()),
    decreases s.len(),
{
    if s.len() > 0 {
        lemma_value_bound(s.skip(1));
        let p = pow256((s.len() - 1) as nat);
        lemma_pow256_pos((s.len() - 1) as nat);
        assert((s[0] as nat) * p <= 255 * p) by {
            lemma_mul_inequality(s[0] as int, 255, p as int);
        }
        assert(255 * p + p == 256 * p);
    }
}

/// If two equal-length byte strings agree before position `i` and the first
/// is smaller at `i`, it reads as the smaller integer.
pub proof fn lemma_prefix_lt(a: Seq<u8>, b: Seq<u8>, i: int)
    requires
        a.len() == b.len(),
        0 <= i < a.len(),
        forall|k: int| 0 <= k < i ==> a[k] == b[k],
        a[i] < b[i],
    ensures
        bytes_value(a) < bytes_value(b),
    decreases i,
{
    let p = pow256((a.len() - 1) as nat);
    if i == 0 {
        lemma_value_bound(a.skip(1));
        assert((a[0] as int) * (p as int) + (p as int) == ((a[0] + 1) as int) * (p as int))
            by (nonlinear_arith);
        assert(((a[0] + 1) as nat) * p <= (b[0] as nat) * p) by {
            lemma_mul_inequality(a[0] + 1, b[0] as int, p as int);
        }
        assert(bytes_value(b) >= (b[0] as nat) * p);
    } else {
        assert(a[0] == b[0]);
        assert forall|k: int| 0 <= k < i - 1 implies a.skip(1)[k] == b.skip(1)[k] by {
            assert(a.skip(1)[k] == a[k + 1]);
        }
        assert(a.skip(1)[i - 1] == a[i]);
        assert(b.skip(1)[i - 1] == b[i]);
        lemma_prefix_lt(a.skip(1), b.skip(1), i - 1);
    }
}

/// Compares the distances of `a` and `b` to `target`; returns whether `a` is
/// at least as close as `b`.
pub fn closer_or_equal(target: &NodeId, a: &NodeId, b: &NodeId) -> (r: bool)
    requires
        target@.len() == a@.len(),
        target@.len() == b@.len(),
    ensures
        r == dist_le(target@, a@, b@),
{
    let ghost xa = xor_bytes(target@, a@);
    let ghost xb = xor_bytes(target@, b@);
    let n = target.bytes.len();
    let mut i: usize = 0;
    while i < n
        invariant
            i <= n,
            n == target@.len(),
            target@.len() == a@.len(),
            target@.len() == b@.len(),
            xa == xor_bytes(target@, a@),
            xb == xor_bytes(target@, b@),
            forall|k: int| 0 <= k < i ==> xa[k] == xb[k],
        decreases n - i,
    {
        let da = target.bytes[i] ^ a.bytes[i];
        let db = target.bytes[i] ^ b.bytes[i];
        if da < db {
            proof {
                lemma_prefix_lt(xa, xb, i as int);
            }
            return true;
        }
        if db < da {
            proof {
                lemma_prefix_lt(xb, xa, i as int);
            }
            return false;
        }
        i = i + 1;
    }
    proof {
        assert(xa =~= xb);
    }
    true
}

/// The XOR of two equal-length identifiers, the distance between them in its
/// byte form.
pub fn xor_distance(a: &NodeId, b: &NodeId) -> (r: Vec<u8>)
    requires
        a@.len() == b@.len(),
    ensures
        r@ == xor_bytes(a@, b@),
        bytes_value(r@) == distance_spec(a@, b@),
{
    let mut out: Vec<u8> = Vec::new();
    let mut i: usize = 0;
    while i < a.bytes.len()
        invariant
            i <= a@.len(),
            a@.len() == b@.len(),
            out@ == xor_bytes(a@, b@).take(i as int),
        decreases a@.len() - i,
    {
        out.push(a.bytes[i] ^ b.bytes[i]);
        proof {
            assert(out@ =~= xor_bytes(a@, b@).take(i + 1));
        }
        i = i + 1;
    }
    proof {
        assert(xor_bytes(a@, b@).take(a@.len() as int) =~= xor_bytes(a@, b@));
    }
    out
}

/// Leading zero bits of one byte.
pub open spec fn leading_zeros_byte(b: u8) -> nat {
    if b >= 128 {
        0
    } else if b >= 64 {
        1
    } else if b >= 32 {
        2
    } else if b >= 16 {
        3
    } else if b >= 8 {
        4
    } else if b >= 4 {
        5
    } else if b >= 2 {
        6
    } else if b >= 1 {
        7
    } else {
        8
    }
}

/// Leading zero bits of a byte string.
pub open spec fn leading_zero_bits(s: Seq<u8>) -> nat
    decreases s.len(),
{
    if s.len() == 0 {
        0
    } else if s[0] == 0 {
        8 + leading_zero_bits(s.skip(1))
    } else {
        leading_zeros_byte(s[0])
    }
}

/// The bucket a peer belongs to: the number of leading bits its identifier
/// shares with the local one.
pub open spec fn bucket_index_spec(local: Seq<u8>, other: Seq<u8>) -> nat
    recommends
        local.len() == other.len(),
{
    leading_zero_bits(xor_bytes(local, other))
}

proof fn lemma_lzb_prefix(s: Seq<u8>, i: int)
    requires
        0 <= i <= s.len(),
        forall|k: int| 0 <= k < i ==> s[k] == 0,
    ensures
        leading_zero_bits(s) == 8 * i + leading_zero_bits(s.skip(i)),
    decreases i,
{
    if i > 0 {
        assert forall|k: int| 0 <= k < i - 1 implies s.skip(1)[k] == 0 by {
            assert(s.skip(1)[k] == s[k + 1]);
        }
        lemma_lzb_prefix(s.skip(1), i - 1);
        assert(s.skip(1).skip(i - 1) =~= s.skip(i));
    } else {
        assert(s.skip(0) =~= s);
    }
}

fn leading_zeros_of_byte(b: u8) -> (r: usize)
    ensures
        r == leading_zeros_byte(b),
{
    if b >= 128 {
        0
    } else if b >= 64 {
        1
    } else if b >= 32 {
        2
    } else if b >= 16 {
        3
    } else if b >= 8 {
        4
    } else if b >= 4 {
        5
    } else if b >= 2 {
        6
    } else if b >= 1 {
        7
    } else {
        8
    }
}

/// The index of the bucket for `other` in the table of `local`: the number of
/// leading bits the two identifiers share.
pub fn bucket_index(local: &NodeId, other: &NodeId) -> (r: usize)
    requires
        local@.len() == other@.len(),
        local@ != other@,
        8 * local@.len() <= usize::MAX,
    ensures
        r == bucket_index_spec(local@, other@),
        r < 8 * local@.len(),
{
    let ghost x = xor_bytes(local@, other@);
    let n = local.bytes.len();
    let mut i: usize = 0;
    while i < n
        invariant
            i <= n,
            n == local@.len(),
            local@.len() == other@.len(),
            local@ != other@,
            8 * local@.len() <= usize::MAX,
            x == xor_bytes(local@, other@),
            forall|k: int| 0 <= k < i ==> x[k] == 0,
        decreases n - i,
    {
        let d = local.bytes[i] ^ other.bytes[i];
        if d != 0 {
            let z = leading_zeros_of_byte(d);
            proof {
                lemma_lzb_prefix(x, i as int);
                assert(x.skip(i as int)[0] == x[i as int]);
                assert(leading_zero_bits(x.skip(i as int)) == leading_zeros_byte(d));
                assert(leading_zeros_byte(d) < 8);
            }
            return 8 * i + z;
        }
        i = i + 1;
    }
    proof {
        assert forall|k: int| 0 <= k < local@.len() implies local@[k] == other@[k] by {
            let lb = local@[k];
            let ob = other@[k];
            assert(x[k] == 0);
            assert(lb ^ ob == 0);
            assert(lb == ob) by (bit_vector)
                requires
                    lb ^ ob == 0,
            ;
        }
        assert(local@ =~= other@);
        assert(false);
    }
    0
}

} // verus!
