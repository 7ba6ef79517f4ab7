//! The order in which the buckets of a routing table are visited when
//! looking for the keys closest to a target.

use vstd::prelude::*;
use crate::kbucket::key::{Distance, bit_at, spec_ilog2, is_highest_bit, lemma_highest_bit, xor_bytes, lex_lt, lemma_distance_len, lemma_lex_lt_value};
use crate::random::{random_byte, random_in_range};

verus! {

/// A (type-safe) index into a routing table, in `[0, 256)`.
#[derive(Debug, Copy, Clone, PartialEq, Eq, Structural)]
pub struct BucketIndex(pub usize);

impl BucketIndex {
    /// The index of the bucket for a distance to the local key: the
    /// position of its most significant set bit. `None` for the distance
    /// zero, which only the local key itself has.
    pub fn new(d: &Distance) -> (r: Option<BucketIndex>)
        ensures
            r == (match spec_ilog2(d@) {
                Some(i) => Some(BucketIndex(i as usize)),
                None => None,
            }),
            r matches Some(b) ==> b.0 < 256,
    {
        match d.ilog2() {
            Some(i) => {
                proof {
                    let c = choose|j: int| is_highest_bit(d@, j);
                    assert(is_highest_bit(d@, c));
                }
                Some(BucketIndex(i as usize))
            },
            None => None,
        }
    }

    /// The index as an integer.
    pub fn get(&self) -> (r: usize)
        ensures
            r == self.0,
    {
        self.0
    }
}

/// The indices below `i` whose bit in `d` is set, from the highest down.
pub open spec fn ones_below(d: Seq<u8>, i: int) -> Seq<int>
    decreases i,
{
    if i <= 0 {
        Seq::empty()
    } else if bit_at(d, i - 1) {
        seq![i - 1] + ones_below(d, i - 1)
    } else {
        ones_below(d, i - 1)
    }
}

/// The indices from `i` up to `255` whose bit in `d` is clear, from the
/// lowest up.
pub open spec fn zeros_from(d: Seq<u8>, i: int) -> Seq<int>
    decreases 256 - i,
{
    if i >= 256 || i < 0 {
        Seq::empty()
    } else if !bit_at(d, i) {
        seq![i] + zeros_from(d, i + 1)
    } else {
        zeros_from(d, i + 1)
    }
}

/// The bucket of a distance to the local key: the position of its most
/// significant set bit, `0` for the distance zero.
pub open spec fn start_index(d: Seq<u8>) -> int {
    match spec_ilog2(d) {
        Some(i) => i as int,
        None => 0,
    }
}

/// Bucket `0`, unless it was visited already when zooming in from bucket
/// `i`: as the bucket of the target, or as a bucket whose bit is set.
pub open spec fn zero_tail(d: Seq<u8>, i: int) -> Seq<int> {
    if i == 0 || bit_at(d, 0) {
        Seq::empty()
    } else {
        seq![0int]
    }
}

/// The order in which the buckets are visited for a target at distance
/// `d` from the local key: the bucket of the target; the buckets below it
/// whose bit in `d` is set, zooming in towards the local key; bucket `0`
/// if not visited yet; then the buckets from `1` up whose bit in `d` is
/// clear, zooming out. Each bucket comes once.
pub open spec fn visit_order(d: Seq<u8>) -> Seq<int> {
    seq![start_index(d)] + ones_below(d, start_index(d)) + zero_tail(d, start_index(d)) + zeros_from(d, 1)
}

/// The states of a `ClosestBucketsIter`.
#[derive(Debug, Copy, Clone)]
pub enum ClosestBucketsIterState {
    /// Yields the bucket of the target, then zooms in.
    Start(BucketIndex),
    /// Yields the next bucket below whose bit in the distance is set, or
    /// bucket `0` and then zooms out.
    ZoomIn(BucketIndex),
    /// Yields the next bucket above whose bit in the distance is clear.
    ZoomOut(BucketIndex),
    /// All buckets have been visited.
    Done,
}

/// An iterator over the bucket indices in the order of `visit_order`.
#[derive(Debug)]
pub struct ClosestBucketsIter {
    /// The distance of the target to the local key.
    distance: Distance,
    /// The current state of the iterator.
    state: ClosestBucketsIterState,
}

impl ClosestBucketsIter {
    /// The distance of the target to the local key.
    pub closed spec fn spec_distance(&self) -> Seq<u8> {
        self.distance@
    }

    /// The indices still to be yielded.
    pub closed spec fn remaining(&self) -> Seq<int> {
        let d = self.distance@;
        match self.state {
            ClosestBucketsIterState::Start(i) => seq![i.0 as int] + ones_below(d, i.0 as int) + zero_tail(d, i.0 as int) + zeros_from(d, 1),
            ClosestBucketsIterState::ZoomIn(i) => ones_below(d, i.0 as int) + zero_tail(d, i.0 as int) + zeros_from(d, 1),
            ClosestBucketsIterState::ZoomOut(i) => zeros_from(d, i.0 as int + 1),
            ClosestBucketsIterState::Done => Seq::empty(),
        }
    }

    /// The indices are those of buckets.
    pub closed spec fn wf(&self) -> bool {
        match self.state {
            ClosestBucketsIterState::Start(i) => i.0 < 256,
            ClosestBucketsIterState::ZoomIn(i) => i.0 < 256,
            ClosestBucketsIterState::ZoomOut(i) => i.0 < 256,
            ClosestBucketsIterState::Done => true,
        }
    }

    /// An iterator for a target at distance `distance` from the local key.
    pub fn new(distance: Distance) -> (r: Self)
        ensures
            r.wf(),
            r.spec_distance() == distance@,
            r.remaining() == visit_order(distance@),
    {
        let state = match BucketIndex::new(&distance) {
            Some(i) => ClosestBucketsIterState::Start(i),
            None => ClosestBucketsIterState::Start(BucketIndex(0)),
        };
        ClosestBucketsIter { distance, state }
    }

    /// The highest index below `i` whose bit in the distance is set.
    fn next_in(&self, i: BucketIndex) -> (r: Option<BucketIndex>)
        requires
            i.0 <= 256,
        ensures
            match r {
                Some(j) => ones_below(self.distance@, i.0 as int) == seq![j.0 as int] + ones_below(self.distance@, j.0 as int)
                    && j.0 < i.0 && bit_at(self.distance@, j.0 as int),
                None => ones_below(self.distance@, i.0 as int) == Seq::<int>::empty()
                    && forall|k: int| 0 <= k < i.0 ==> !bit_at(self.distance@, k),
            },
    {
        let mut k: usize = i.0;
        while k > 0
            invariant
                0 <= k <= i.0 <= 256,
                ones_below(self.distance@, i.0 as int) == ones_below(self.distance@, k as int),
                forall|m: int| k <= m < i.0 ==> !bit_at(self.distance@, m),
            decreases k,
        {
            if self.distance.bit(k - 1) {
                return Some(BucketIndex(k - 1));
            }
            k -= 1;
        }
        None
    }

    /// The lowest index above `i` whose bit in the distance is clear.
    fn next_out(&self, i: BucketIndex) -> (r: Option<BucketIndex>)
        requires
            i.0 < 256,
        ensures
            match r {
                Some(j) => zeros_from(self.distance@, i.0 as int + 1) == seq![j.0 as int] + zeros_from(self.distance@, j.0 as int + 1)
                    && i.0 < j.0 < 256,
                None => zeros_from(self.distance@, i.0 as int + 1) == Seq::<int>::empty(),
            },
    {
        let mut k: usize = i.0 + 1;
        while k < 256
            invariant
                i.0 + 1 <= k <= 256,
                zeros_from(self.distance@, i.0 as int + 1) == zeros_from(self.distance@, k as int),
            decreases 256 - k,
        {
            if !self.distance.bit(k) {
                return Some(BucketIndex(k));
            }
            k += 1;
        }
        None
    }

    /// The next bucket index, if any.
    pub fn next(&mut self) -> (r: Option<BucketIndex>)
        requires
            old(self).wf(),
        ensures
            final(self).wf(),
            final(self).spec_distance() == old(self).spec_distance(),
            old(self).remaining().len() == 0 ==> r is None && final(self).remaining().len() == 0,
            old(self).remaining().len() > 0 ==> {
                &&& r matches Some(b)
                &&& b.0 == old(self).remaining()[0]
                &&& b.0 < 256
                &&& final(self).remaining() == old(self).remaining().drop_first()
            },
    {
        match self.state {
            ClosestBucketsIterState::Start(i) => {
                self.state = ClosestBucketsIterState::ZoomIn(i);
                proof {
                    let d = self.distance@;
                    assert(old(self).remaining().drop_first() =~= self.remaining());
                }
                Some(i)
            },
            ClosestBucketsIterState::ZoomIn(i) => {
                match self.next_in(i) {
                    Some(j) => {
                        self.state = ClosestBucketsIterState::ZoomIn(j);
                        proof {
                            assert(zero_tail(self.distance@, i.0 as int) == zero_tail(self.distance@, j.0 as int));
                            assert(old(self).remaining().drop_first() =~= self.remaining());
                        }
                        Some(j)
                    },
                    None => {
                        let z = BucketIndex(0);
                        if i.0 == 0 {
                            proof {
                                assert(old(self).remaining() =~= zeros_from(self.distance@, 1));
                            }
                            match self.next_out(z) {
                                Some(j) => {
                                    self.state = ClosestBucketsIterState::ZoomOut(j);
                                    proof {
                                        assert(old(self).remaining().drop_first() =~= self.remaining());
                                    }
                                    Some(j)
                                },
                                None => {
                                    self.state = ClosestBucketsIterState::Done;
                                    None
                                },
                            }
                        } else {
                            self.state = ClosestBucketsIterState::ZoomOut(z);
                            proof {
                                assert(!bit_at(self.distance@, 0));
                                assert(old(self).remaining() =~= seq![0int] + zeros_from(self.distance@, 1));
                                assert(old(self).remaining().drop_first() =~= self.remaining());
                            }
                            Some(z)
                        }
                    },
                }
            },
            ClosestBucketsIterState::ZoomOut(i) => {
                match self.next_out(i) {
                    Some(j) => {
                        self.state = ClosestBucketsIterState::ZoomOut(j);
                        proof {
                            assert(old(self).remaining().drop_first() =~= self.remaining());
                        }
                        Some(j)
                    },
                    None => {
                        self.state = ClosestBucketsIterState::Done;
                        None
                    },
                }
            },
            ClosestBucketsIterState::Done => None,
        }
    }
}

/// Every key of bucket `i1` is closer to the target than every key of
/// bucket `i2`, for a target at distance `d` from the local key: the
/// highest bit in which the two buckets differ decides, by the bit of `d`
/// there.
pub open spec fn closer_bucket(d: Seq<u8>, i1: int, i2: int) -> bool {
    ||| i2 > i1 && !bit_at(d, i2)
    ||| i1 > i2 && bit_at(d, i1)
}

/// A byte all of whose bits are clear is zero.
proof fn lemma_byte_zero(x: u8)
    by (bit_vector)
    requires
        (x >> 0u8) & 1u8 != 1u8,
        (x >> 1u8) & 1u8 != 1u8,
        (x >> 2u8) & 1u8 != 1u8,
        (x >> 3u8) & 1u8 != 1u8,
        (x >> 4u8) & 1u8 != 1u8,
        (x >> 5u8) & 1u8 != 1u8,
        (x >> 6u8) & 1u8 != 1u8,
        (x >> 7u8) & 1u8 != 1u8,
    ensures
        x == 0,
{
}

/// Two bytes `p` and `q` that agree above bit `r` (where both are clear)
/// and differ at bit `r` (set in `q` only) order `a ^ p` and `a ^ q` by
/// bit `r` of `a`.
proof fn lemma_byte_order(a: u8, p: u8, q: u8, r: u8)
    by (bit_vector)
    requires
        r < 8,
        (p >> r) & 1u8 != 1u8,
        (q >> r) & 1u8 == 1u8,
        r < 1 ==> (p >> 1u8) & 1u8 != 1u8 && (q >> 1u8) & 1u8 != 1u8,
        r < 2 ==> (p >> 2u8) & 1u8 != 1u8 && (q >> 2u8) & 1u8 != 1u8,
        r < 3 ==> (p >> 3u8) & 1u8 != 1u8 && (q >> 3u8) & 1u8 != 1u8,
        r < 4 ==> (p >> 4u8) & 1u8 != 1u8 && (q >> 4u8) & 1u8 != 1u8,
        r < 5 ==> (p >> 5u8) & 1u8 != 1u8 && (q >> 5u8) & 1u8 != 1u8,
        r < 6 ==> (p >> 6u8) & 1u8 != 1u8 && (q >> 6u8) & 1u8 != 1u8,
        r < 7 ==> (p >> 7u8) & 1u8 != 1u8 && (q >> 7u8) & 1u8 != 1u8,
    ensures
        (a >> r) & 1u8 != 1u8 ==> (a ^ p) < (a ^ q),
        (a >> r) & 1u8 == 1u8 ==> (a ^ q) < (a ^ p),
{
}

/// Bit `8 * (31 - b) + t` of 32 bytes is bit `t` of byte `b`.
proof fn lemma_bit_position(b: int, t: int)
    requires
        0 <= b < 32,
        0 <= t < 8,
    ensures
        31 - (8 * (31 - b) + t) / 8 == b,
        (8 * (31 - b) + t) % 8 == t,
{
    assert((8 * (31 - b) + t) / 8 == 31 - b) by (nonlinear_arith)
        requires
            0 <= b < 32,
            0 <= t < 8,
    ;
}

/// The bits of byte `b` of 32 bytes, bit `t` of the byte being bit
/// `8 * (31 - b) + t` of the whole.
proof fn lemma_byte_bits(e: Seq<u8>, b: int)
    requires
        0 <= b < 32,
    ensures
        bit_at(e, 8 * (31 - b) + 0) == ((e[b] >> 0u8) & 1u8 == 1u8),
        bit_at(e, 8 * (31 - b) + 1) == ((e[b] >> 1u8) & 1u8 == 1u8),
        bit_at(e, 8 * (31 - b) + 2) == ((e[b] >> 2u8) & 1u8 == 1u8),
        bit_at(e, 8 * (31 - b) + 3) == ((e[b] >> 3u8) & 1u8 == 1u8),
        bit_at(e, 8 * (31 - b) + 4) == ((e[b] >> 4u8) & 1u8 == 1u8),
        bit_at(e, 8 * (31 - b) + 5) == ((e[b] >> 5u8) & 1u8 == 1u8),
        bit_at(e, 8 * (31 - b) + 6) == ((e[b] >> 6u8) & 1u8 == 1u8),
        bit_at(e, 8 * (31 - b) + 7) == ((e[b] >> 7u8) & 1u8 == 1u8),
{
    lemma_bit_position(b, 0);
    lemma_bit_position(b, 1);
    lemma_bit_position(b, 2);
    lemma_bit_position(b, 3);
    lemma_bit_position(b, 4);
    lemma_bit_position(b, 5);
    lemma_bit_position(b, 6);
    lemma_bit_position(b, 7);
}

/// The bytes above the one holding bit `m` are zero where no bit above `m`
/// is set.
proof fn lemma_bytes_above_zero(e: Seq<u8>, m: int, b: int)
    requires
        e.len() == 32,
        0 <= m < 256,
        forall|j: int| m < j < 256 ==> !bit_at(e, j),
        0 <= b < 31 - m / 8,
    ensures
        e[b] == 0,
{
    lemma_byte_bits(e, b);
    lemma_byte_zero(e[b]);
}

/// A key of bucket `i1` is closer to the target than a key of bucket `i2`
/// where `closer_bucket` says so: `e1` and `e2` are the distances of the
/// keys to the local key, `d` that of the target.
pub proof fn lemma_bucket_order(d: Seq<u8>, e1: Seq<u8>, e2: Seq<u8>, i1: int, i2: int)
    requires
        d.len() == 32,
        e1.len() == 32,
        e2.len() == 32,
        is_highest_bit(e1, i1),
        is_highest_bit(e2, i2),
        closer_bucket(d, i1, i2),
    ensures
        lex_lt(xor_bytes(d, e1), xor_bytes(d, e2)),
{
    let m = if i1 > i2 { i1 } else { i2 };
    let bb = 31 - m / 8;
    let r = m % 8;
    let x1 = xor_bytes(d, e1);
    let x2 = xor_bytes(d, e2);
    assert forall|b: int| 0 <= b < bb implies x1[b] == x2[b] by {
        lemma_bytes_above_zero(e1, m, b);
        lemma_bytes_above_zero(e2, m, b);
    }
    lemma_byte_bits(e1, bb);
    lemma_byte_bits(e2, bb);
    lemma_byte_bits(d, bb);
    lemma_bit_position(bb, r);
    assert(8 * (31 - bb) + r == m);
    let ru = r as u8;
    if i1 > i2 {
        assert(bit_at(e1, m));
        assert(!bit_at(e2, m));
        lemma_byte_order(d[bb], e2[bb], e1[bb], ru);
        assert(bit_at(d, m));
        assert(x1[bb] < x2[bb]);
    } else {
        assert(bit_at(e2, m));
        assert(!bit_at(e1, m));
        lemma_byte_order(d[bb], e1[bb], e2[bb], ru);
        assert(!bit_at(d, m));
        assert(x1[bb] < x2[bb]);
    }
    assert(0 <= bb < 32);
}

/// The indices of `ones_below(d, i)` are those below `i` whose bit is set,
/// from the highest down.
pub proof fn lemma_ones_below(d: Seq<u8>, i: int)
    requires
        0 <= i <= 256,
    ensures
        forall|p: int| 0 <= p < ones_below(d, i).len() ==> 0 <= #[trigger] ones_below(d, i)[p] < i
            && bit_at(d, ones_below(d, i)[p]),
        forall|p: int, q: int| 0 <= p < q < ones_below(d, i).len()
            ==> #[trigger] ones_below(d, i)[p] > #[trigger] ones_below(d, i)[q],
        forall|j: int| 0 <= j < i && bit_at(d, j) ==> ones_below(d, i).contains(j),
        ones_below(d, i).len() <= i,
    decreases i,
{
    if i > 0 {
        lemma_ones_below(d, i - 1);
        let t = ones_below(d, i - 1);
        if bit_at(d, i - 1) {
            let o = ones_below(d, i);
            assert(o == seq![i - 1] + t);
            assert forall|j: int| 0 <= j < i && bit_at(d, j) implies o.contains(j) by {
                if j == i - 1 {
                    assert(o[0] == j);
                } else {
                    assert(t.contains(j));
                    let p = choose|p: int| 0 <= p < t.len() && t[p] == j;
                    assert(o[p + 1] == j);
                }
            }
        }
    }
}

/// The indices of `zeros_from(d, i)` are those from `i` up to `255` whose
/// bit is clear, from the lowest up.
pub proof fn lemma_zeros_from(d: Seq<u8>, i: int)
    requires
        0 <= i <= 256,
    ensures
        forall|p: int| 0 <= p < zeros_from(d, i).len() ==> i <= #[trigger] zeros_from(d, i)[p] < 256
            && !bit_at(d, zeros_from(d, i)[p]),
        forall|p: int, q: int| 0 <= p < q < zeros_from(d, i).len()
            ==> #[trigger] zeros_from(d, i)[p] < #[trigger] zeros_from(d, i)[q],
        forall|j: int| i <= j < 256 && !bit_at(d, j) ==> zeros_from(d, i).contains(j),
        zeros_from(d, i).len() <= 256 - i,
    decreases 256 - i,
{
    if i < 256 {
        lemma_zeros_from(d, i + 1);
        let t = zeros_from(d, i + 1);
        if !bit_at(d, i) {
            let z = zeros_from(d, i);
            assert(z == seq![i] + t);
            assert forall|j: int| i <= j < 256 && !bit_at(d, j) implies z.contains(j) by {
                if j == i {
                    assert(z[0] == j);
                } else {
                    assert(t.contains(j));
                    let p = choose|p: int| 0 <= p < t.len() && t[p] == j;
                    assert(z[p + 1] == j);
                }
            }
        }
    }
}

/// Where some bit is set, there is a most significant one.
pub proof fn lemma_highest_exists(d: Seq<u8>, j: int)
    requires
        0 <= j < 256,
        bit_at(d, j),
    ensures
        exists|i: int| is_highest_bit(d, i),
    decreases 256 - j,
{
    if exists|k: int| j < k < 256 && bit_at(d, k) {
        let k = choose|k: int| j < k < 256 && bit_at(d, k);
        lemma_highest_exists(d, k);
    } else {
        assert(is_highest_bit(d, j));
    }
}

/// The bucket of a target: the most significant set bit of its distance,
/// or `0` with no bit set.
pub proof fn lemma_start_index(d: Seq<u8>)
    ensures
        0 <= start_index(d) < 256,
        spec_ilog2(d) is Some ==> is_highest_bit(d, start_index(d)),
        spec_ilog2(d) is None ==> start_index(d) == 0 && forall|j: int| 0 <= j < 256 ==> !bit_at(d, j),
{
    if spec_ilog2(d) is Some {
        let c = choose|i: int| is_highest_bit(d, i);
        assert(is_highest_bit(d, c));
        lemma_highest_bit(d, c);
    } else {
        assert forall|j: int| 0 <= j < 256 implies !bit_at(d, j) by {
            if bit_at(d, j) {
                lemma_highest_exists(d, j);
            }
        }
    }
}

/// The visit order holds every bucket index exactly once, and visits a
/// bucket before another only where its keys are closer to the target.
pub proof fn lemma_visit_order(d: Seq<u8>)
    ensures
        forall|p: int| 0 <= p < visit_order(d).len() ==> 0 <= #[trigger] visit_order(d)[p] < 256,
        forall|j: int| 0 <= j < 256 ==> visit_order(d).contains(j),
        forall|a: int, b: int| 0 <= a < b < visit_order(d).len() ==> #[trigger] visit_order(d)[a] != #[trigger] visit_order(d)[b],
        forall|a: int, b: int| 0 <= a < b < visit_order(d).len() && #[trigger] visit_order(d)[a] != #[trigger] visit_order(d)[b]
            ==> closer_bucket(d, visit_order(d)[a], visit_order(d)[b]),
        visit_order(d).len() <= 512,
{
    let s = start_index(d);
    lemma_start_index(d);
    lemma_ones_below(d, s);
    lemma_zeros_from(d, 1);
    let ob = ones_below(d, s);
    let zt = zero_tail(d, s);
    let zf = zeros_from(d, 1);
    let vo = visit_order(d);
    let n1: int = ob.len() as int + 1;
    let n2: int = n1 + zt.len();
    assert(vo == seq![s] + ob + zt + zf);
    assert(vo.len() == n2 + zf.len());
    assert(s > 0 ==> bit_at(d, s));
    assert(zt.len() > 0 ==> s > 0 && !bit_at(d, 0) && zt[0] == 0);
    assert forall|p: int| 0 <= p < vo.len() implies #[trigger] vo[p] == (if p == 0 { s } else if p < n1 { ob[p - 1] } else if p < n2 { 0 } else { zf[p - n2] }) by {
        if p == 0 {
        } else if p < n1 {
            assert(vo[p] == ob[p - 1]);
        } else if p < n2 {
            assert(vo[p] == zt[p - n1]);
        } else {
            assert(vo[p] == zf[p - n2]);
        }
    }
    assert forall|p: int| 0 <= p < vo.len() implies 0 <= #[trigger] vo[p] < 256 by {
        if 0 < p < n1 {
            assert(vo[p] == ob[p - 1]);
        } else if p >= n2 {
            assert(vo[p] == zf[p - n2]);
        }
    }
    assert forall|j: int| 0 <= j < 256 implies vo.contains(j) by {
        if j == s {
            assert(vo[0] == j);
        } else if bit_at(d, j) {
            if j > s {
                assert(false);
            }
            assert(ob.contains(j));
            let p = choose|p: int| 0 <= p < ob.len() && ob[p] == j;
            assert(vo[p + 1] == j);
        } else if j == 0 {
            assert(vo[n1] == j);
        } else {
            assert(zf.contains(j));
            let p = choose|p: int| 0 <= p < zf.len() && zf[p] == j;
            assert(vo[p + n2] == j);
        }
    }
    assert forall|a: int, b: int| 0 <= a < b < vo.len() implies #[trigger] vo[a] != #[trigger] vo[b] by {
        if a == 0 {
            if b < n1 {
                assert(vo[b] == ob[b - 1]);
            } else if b >= n2 {
                assert(vo[b] == zf[b - n2]);
            }
        } else if a < n1 {
            assert(vo[a] == ob[a - 1]);
            if b < n1 {
                assert(vo[b] == ob[b - 1]);
            } else if b >= n2 {
                assert(vo[b] == zf[b - n2]);
            }
        } else if a < n2 {
            assert(vo[b] == zf[b - n2]);
        } else {
            assert(vo[a] == zf[a - n2]);
            assert(vo[b] == zf[b - n2]);
        }
    }
    assert forall|a: int, b: int| 0 <= a < b < vo.len() && #[trigger] vo[a] != #[trigger] vo[b]
        implies closer_bucket(d, vo[a], vo[b]) by {
        if a == 0 {
            if b < n1 {
                assert(vo[b] == ob[b - 1]);
            } else if b >= n2 {
                assert(vo[b] == zf[b - n2]);
            }
        } else if a < n1 {
            assert(vo[a] == ob[a - 1]);
            if b < n1 {
                assert(vo[b] == ob[b - 1]);
            } else if b >= n2 {
                assert(vo[b] == zf[b - n2]);
            }
        } else if a < n2 {
            assert(vo[b] == zf[b - n2]);
        } else {
            assert(vo[a] == zf[a - n2]);
            assert(vo[b] == zf[b - n2]);
        }
    }
}

/// A byte whose bits above the lowest are clear and whose lowest bit is
/// set is one.
proof fn lemma_byte_one(x: u8)
    by (bit_vector)
    requires
        (x >> 0u8) & 1u8 == 1u8,
        (x >> 1u8) & 1u8 != 1u8,
        (x >> 2u8) & 1u8 != 1u8,
        (x >> 3u8) & 1u8 != 1u8,
        (x >> 4u8) & 1u8 != 1u8,
        (x >> 5u8) & 1u8 != 1u8,
        (x >> 6u8) & 1u8 != 1u8,
        (x >> 7u8) & 1u8 != 1u8,
    ensures
        x == 1,
{
}

/// The one distance whose most significant set bit is bit `0`: the
/// distance one.
pub open spec fn distance_one() -> Seq<u8> {
    Seq::new(32, |j: int| if j == 31 { 1u8 } else { 0u8 })
}

/// Bucket `0` holds a single distance: one.
pub proof fn lemma_bucket_zero(e: Seq<u8>)
    requires
        e.len() == 32,
        is_highest_bit(e, 0),
    ensures
        e == distance_one(),
{
    assert forall|b: int| 0 <= b < 31 implies e[b] == 0 by {
        lemma_bytes_above_zero(e, 0, b);
    }
    lemma_byte_bits(e, 31);
    lemma_byte_one(e[31]);
    assert(e =~= distance_one());
}

/// The byte with only bit `r` set.
pub open spec fn low_byte(r: u8) -> u8 {
    if r == 0 { 1 } else if r == 1 { 2 } else if r == 2 { 4 } else if r == 3 { 8 }
    else if r == 4 { 16 } else if r == 5 { 32 } else if r == 6 { 64 } else { 128 }
}

/// The byte with bits `0` to `r` set.
pub open spec fn top_byte(r: u8) -> u8 {
    if r == 0 { 1 } else if r == 1 { 3 } else if r == 2 { 7 } else if r == 3 { 15 }
    else if r == 4 { 31 } else if r == 5 { 63 } else if r == 6 { 127 } else { 255 }
}

/// The bits of the bytes that bound a bucket.
proof fn lemma_byte_patterns(r: u8, t: u8)
    by (bit_vector)
    requires
        r < 8,
        t < 8,
    ensures
        ((low_byte(r) >> t) & 1u8 == 1u8) == (t == r),
        ((top_byte(r) >> t) & 1u8 == 1u8) == (t <= r),
        (255u8 >> t) & 1u8 == 1u8,
        (0u8 >> t) & 1u8 != 1u8,
{
}

/// A byte from `low_byte(r)` to `top_byte(r)` has bit `r` as its most
/// significant set bit.
proof fn lemma_byte_in_range(x: u8, r: u8, t: u8)
    by (bit_vector)
    requires
        r < 8,
        t < 8,
        low_byte(r) <= x,
        x <= top_byte(r),
    ensures
        t == r ==> (x >> t) & 1u8 == 1u8,
        t > r ==> (x >> t) & 1u8 != 1u8,
{
}

/// 32 bytes that are zero above byte `31 - i / 8`, which lies between
/// `low_byte(i % 8)` and `top_byte(i % 8)`, have bit `i` as their most
/// significant set bit.
proof fn lemma_highest_from_bytes(s: Seq<u8>, i: int)
    requires
        s.len() == 32,
        0 <= i < 256,
        forall|b: int| 0 <= b < 31 - i / 8 ==> s[b] == 0,
        low_byte((i % 8) as u8) <= s[31 - i / 8] <= top_byte((i % 8) as u8),
    ensures
        is_highest_bit(s, i),
{
    lemma_byte_in_range(s[31 - i / 8], (i % 8) as u8, (i % 8) as u8);
    assert forall|j: int| i < j < 256 implies !bit_at(s, j) by {
        if j / 8 == i / 8 {
            lemma_byte_in_range(s[31 - i / 8], (i % 8) as u8, (j % 8) as u8);
        } else {
            lemma_byte_patterns(0, (j % 8) as u8);
        }
    }
}

/// The byte with only bit `r` set.
fn low_byte_of(r: u8) -> (b: u8)
    requires
        r < 8,
    ensures
        b == low_byte(r),
{
    if r == 0 { 1 } else if r == 1 { 2 } else if r == 2 { 4 } else if r == 3 { 8 }
    else if r == 4 { 16 } else if r == 5 { 32 } else if r == 6 { 64 } else { 128 }
}

/// The byte with bits `0` to `r` set.
fn top_byte_of(r: u8) -> (b: u8)
    requires
        r < 8,
    ensures
        b == top_byte(r),
{
    if r == 0 { 1 } else if r == 1 { 3 } else if r == 2 { 7 } else if r == 3 { 15 }
    else if r == 4 { 31 } else if r == 5 { 63 } else if r == 6 { 127 } else { 255 }
}

impl BucketIndex {
    /// The smallest and the largest distance that fall into the bucket:
    /// the distance with only bit `i` set, and the one with bits `0` to
    /// `i` set.
    pub fn range(&self) -> (r: (Distance, Distance))
        requires
            self.0 < 256,
        ensures
            forall|j: int| 0 <= j < 256 ==> (bit_at(r.0@, j) <==> j == self.0),
            forall|j: int| 0 <= j < 256 ==> (bit_at(r.1@, j) <==> j <= self.0),
            spec_ilog2(r.0@) == Some(self.0 as u32),
            spec_ilog2(r.1@) == Some(self.0 as u32),
    {
        let i = self.0;
        let q = i / 8;
        let rr = (i % 8) as u8;
        let mut lo = [0u8; 32];
        let mut hi = [0u8; 32];
        lo[31 - q] = low_byte_of(rr);
        hi[31 - q] = top_byte_of(rr);
        let mut b: usize = 32 - q;
        while b < 32
            invariant
                q == i / 8,
                i < 256,
                32 - q <= b <= 32,
                hi@.len() == 32,
                forall|c: int| 0 <= c < 31 - q ==> hi@[c] == 0,
                hi@[31 - q] == top_byte(rr),
                forall|c: int| 32 - q <= c < b ==> hi@[c] == 255,
            decreases 32 - b,
        {
            hi[b] = 255;
            b += 1;
        }
        let lod = Distance::from_bytes(lo);
        let hid = Distance::from_bytes(hi);
        proof {
            assert(forall|c: int| 0 <= c < 32 && c != 31 - q ==> lo@[c] == 0);
            lemma_distance_len(lod);
            assert forall|j: int| 0 <= j < 256 implies (bit_at(lod@, j) <==> j == i) && (bit_at(hid@, j) <==> j <= i) by {
                let t = (j % 8) as u8;
                lemma_byte_patterns(rr, t);
                if j / 8 == i / 8 {
                } else if j / 8 < i / 8 {
                    assert(hid@[31 - j / 8] == 255);
                } else {
                    assert(hid@[31 - j / 8] == 0);
                }
            }
            lemma_byte_patterns(rr, rr);
            lemma_highest_from_bytes(lod@, i as int);
            lemma_highest_from_bytes(hid@, i as int);
            lemma_highest_bit(lod@, i as int);
            lemma_highest_bit(hid@, i as int);
        }
        (lod, hid)
    }

    /// The distance in the bucket with the bytes of `fill` below byte
    /// `31 - i / 8`, the byte `top` there, and zeros above.
    pub fn distance_from(&self, fill: [u8; 32], top: u8) -> (r: Distance)
        requires
            self.0 < 256,
        ensures
            r@.len() == 32,
            forall|b: int| 0 <= b < 31 - self.0 / 8 ==> r@[b] == 0,
            r@[31 - self.0 / 8] == top,
            forall|b: int| 31 - self.0 / 8 < b < 32 ==> r@[b] == fill@[b],
            low_byte((self.0 % 8) as u8) <= top <= top_byte((self.0 % 8) as u8) ==> spec_ilog2(r@) == Some(self.0 as u32),
    {
        let q = self.0 / 8;
        let mut bytes = fill;
        let mut b: usize = 0;
        while b < 31 - q
            invariant
                q == self.0 / 8,
                self.0 < 256,
                0 <= b <= 31 - q,
                bytes@.len() == 32,
                forall|c: int| 0 <= c < b ==> bytes@[c] == 0,
                forall|c: int| 31 - q <= c < 32 ==> bytes@[c] == fill@[c],
            decreases 31 - q - b,
        {
            bytes[b] = 0;
            b += 1;
        }
        bytes[31 - q] = top;
        let r = Distance::from_bytes(bytes);
        proof {
            lemma_distance_len(r);
            if low_byte((self.0 % 8) as u8) <= top <= top_byte((self.0 % 8) as u8) {
                lemma_highest_from_bytes(r@, self.0 as int);
                lemma_highest_bit(r@, self.0 as int);
            }
        }
        r
    }

    /// A random distance that falls into the bucket: random bytes below
    /// byte `31 - i / 8`, a random byte from `2^(i % 8)` to
    /// `2^(i % 8 + 1) - 1` there, and zeros above.
    pub fn rand_distance(&self) -> (r: Distance)
        requires
            self.0 < 256,
        ensures
            spec_ilog2(r@) == Some(self.0 as u32),
    {
        let q = self.0 / 8;
        let mut fill = [0u8; 32];
        let mut k: usize = 0;
        while k < q
            invariant
                q == self.0 / 8,
                self.0 < 256,
                0 <= k <= q,
                fill@.len() == 32,
            decreases q - k,
        {
            fill[31 - k] = random_byte();
            k += 1;
        }
        let rr = (self.0 % 8) as u8;
        let lower = low_byte_of(rr);
        let upper: u16 = (lower as u16) * 2;
        let top = random_in_range(lower as u16, upper);
        proof {
            assert(top_byte(rr) as int == 2 * low_byte(rr) - 1);
        }
        self.distance_from(fill, top as u8)
    }
}

/// Two bytes with the same bits are equal; two bytes that agree above bit
/// `r` and differ at bit `r` are ordered by that bit.
proof fn lemma_byte_compare(x: u8, y: u8, r: u8)
    by (bit_vector)
    requires
        r < 8,
    ensures
        (((x >> 0u8) & 1u8 == 1u8) == ((y >> 0u8) & 1u8 == 1u8)
            && ((x >> 1u8) & 1u8 == 1u8) == ((y >> 1u8) & 1u8 == 1u8)
            && ((x >> 2u8) & 1u8 == 1u8) == ((y >> 2u8) & 1u8 == 1u8)
            && ((x >> 3u8) & 1u8 == 1u8) == ((y >> 3u8) & 1u8 == 1u8)
            && ((x >> 4u8) & 1u8 == 1u8) == ((y >> 4u8) & 1u8 == 1u8)
            && ((x >> 5u8) & 1u8 == 1u8) == ((y >> 5u8) & 1u8 == 1u8)
            && ((x >> 6u8) & 1u8 == 1u8) == ((y >> 6u8) & 1u8 == 1u8)
            && ((x >> 7u8) & 1u8 == 1u8) == ((y >> 7u8) & 1u8 == 1u8)) ==> x == y,
        ((x >> r) & 1u8 != 1u8 && (y >> r) & 1u8 == 1u8
            && (r < 1 ==> (((x >> 1u8) & 1u8 == 1u8) == ((y >> 1u8) & 1u8 == 1u8)))
            && (r < 2 ==> (((x >> 2u8) & 1u8 == 1u8) == ((y >> 2u8) & 1u8 == 1u8)))
            && (r < 3 ==> (((x >> 3u8) & 1u8 == 1u8) == ((y >> 3u8) & 1u8 == 1u8)))
            && (r < 4 ==> (((x >> 4u8) & 1u8 == 1u8) == ((y >> 4u8) & 1u8 == 1u8)))
            && (r < 5 ==> (((x >> 5u8) & 1u8 == 1u8) == ((y >> 5u8) & 1u8 == 1u8)))
            && (r < 6 ==> (((x >> 6u8) & 1u8 == 1u8) == ((y >> 6u8) & 1u8 == 1u8)))
            && (r < 7 ==> (((x >> 7u8) & 1u8 == 1u8) == ((y >> 7u8) & 1u8 == 1u8)))) ==> x < y,
{
}

/// Of two distances that agree above bit `m` and differ at bit `m`, the one
/// with bit `m` clear is the smaller.
pub proof fn lemma_bit_decides(a: Seq<u8>, b: Seq<u8>, m: int)
    requires
        a.len() == 32,
        b.len() == 32,
        0 <= m < 256,
        !bit_at(a, m),
        bit_at(b, m),
        forall|j: int| m < j < 256 ==> bit_at(a, j) == bit_at(b, j),
    ensures
        lex_lt(a, b),
{
    let bb = 31 - m / 8;
    let r = m % 8;
    assert forall|c: int| 0 <= c < bb implies a[c] == b[c] by {
        lemma_byte_bits(a, c);
        lemma_byte_bits(b, c);
        lemma_byte_compare(a[c], b[c], 0);
    }
    lemma_byte_bits(a, bb);
    lemma_byte_bits(b, bb);
    lemma_bit_position(bb, r);
    lemma_byte_compare(a[bb], b[bb], r as u8);
    assert(0 <= bb < 32);
}

/// Two different distances have a highest bit at which they differ.
pub proof fn lemma_highest_difference(a: Seq<u8>, b: Seq<u8>)
    requires
        a.len() == 32,
        b.len() == 32,
        a != b,
    ensures
        exists|m: int| 0 <= m < 256 && bit_at(a, m) != bit_at(b, m)
            && forall|j: int| m < j < 256 ==> bit_at(a, j) == bit_at(b, j),
{
    assert(exists|c: int| 0 <= c < 32 && a[c] != b[c]) by {
        if forall|c: int| 0 <= c < 32 ==> a[c] == b[c] {
            assert(a =~= b);
        }
    }
    let c = choose|c: int| 0 <= c < 32 && a[c] != b[c];
    let base = 8 * (31 - c);
    lemma_byte_bits(a, c);
    lemma_byte_bits(b, c);
    lemma_byte_compare(a[c], b[c], 0);
    if bit_at(a, base + 0) != bit_at(b, base + 0) {
        lemma_highest_difference_from(a, b, base + 0);
    } else if bit_at(a, base + 1) != bit_at(b, base + 1) {
        lemma_highest_difference_from(a, b, base + 1);
    } else if bit_at(a, base + 2) != bit_at(b, base + 2) {
        lemma_highest_difference_from(a, b, base + 2);
    } else if bit_at(a, base + 3) != bit_at(b, base + 3) {
        lemma_highest_difference_from(a, b, base + 3);
    } else if bit_at(a, base + 4) != bit_at(b, base + 4) {
        lemma_highest_difference_from(a, b, base + 4);
    } else if bit_at(a, base + 5) != bit_at(b, base + 5) {
        lemma_highest_difference_from(a, b, base + 5);
    } else if bit_at(a, base + 6) != bit_at(b, base + 6) {
        lemma_highest_difference_from(a, b, base + 6);
    } else {
        lemma_highest_difference_from(a, b, base + 7);
    }
}

/// A property of bit positions that holds at `j` holds at a highest
/// position.
proof fn lemma_highest_true(f: spec_fn(int) -> bool, j: int)
    requires
        0 <= j < 256,
        f(j),
    ensures
        exists|m: int| 0 <= m < 256 && #[trigger] f(m) && forall|k: int| m < k < 256 ==> !#[trigger] f(k),
    decreases 256 - j,
{
    if exists|k: int| j < k < 256 && #[trigger] f(k) {
        let k = choose|k: int| j < k < 256 && #[trigger] f(k);
        lemma_highest_true(f, k);
    } else {
        assert(forall|k: int| j < k < 256 ==> !#[trigger] f(k));
    }
}

/// A bit at which two distances differ has a highest one above it.
proof fn lemma_highest_difference_from(a: Seq<u8>, b: Seq<u8>, j: int)
    requires
        0 <= j < 256,
        bit_at(a, j) != bit_at(b, j),
    ensures
        exists|m: int| 0 <= m < 256 && bit_at(a, m) != bit_at(b, m)
            && forall|k: int| m < k < 256 ==> bit_at(a, k) == bit_at(b, k),
{
    let f = |k: int| bit_at(a, k) != bit_at(b, k);
    lemma_highest_true(f, j);
    let m = choose|m: int| 0 <= m < 256 && #[trigger] f(m) && forall|k: int| m < k < 256 ==> !#[trigger] f(k);
    assert(forall|k: int| m < k < 256 ==> bit_at(a, k) == bit_at(b, k)) by {
        assert forall|k: int| m < k < 256 implies bit_at(a, k) == bit_at(b, k) by {
            assert(!f(k));
        }
    }
}

/// No distance comes before itself, and of two distances at most one comes
/// before the other.
pub proof fn lemma_lex_asymmetric(a: Seq<u8>, b: Seq<u8>)
    requires
        a.len() == b.len(),
    ensures
        !(lex_lt(a, b) && lex_lt(b, a)),
        !lex_lt(a, a),
{
    if lex_lt(a, b) && lex_lt(b, a) {
        lemma_lex_lt_value(a, b);
        lemma_lex_lt_value(b, a);
    }
    if lex_lt(a, a) {
        lemma_lex_lt_value(a, a);
    }
}

/// A distance falls into bucket `i` exactly when it lies between the
/// smallest distance of the bucket (only bit `i` set) and the largest (bits
/// `0` to `i` set): the buckets split the distances into consecutive
/// ranges.
pub proof fn lemma_range_contains(i: int, min: Seq<u8>, max: Seq<u8>, d: Seq<u8>)
    requires
        0 <= i < 256,
        min.len() == 32,
        max.len() == 32,
        d.len() == 32,
        forall|j: int| 0 <= j < 256 ==> (bit_at(min, j) <==> j == i),
        forall|j: int| 0 <= j < 256 ==> (bit_at(max, j) <==> j <= i),
    ensures
        spec_ilog2(d) == Some(i as u32) <==> (!lex_lt(d, min) && !lex_lt(max, d)),
{
    lemma_lex_asymmetric(d, min);
    lemma_lex_asymmetric(max, d);
    lemma_start_index(d);
    if spec_ilog2(d) == Some(i as u32) {
        let s = start_index(d);
        assert(is_highest_bit(d, s));
        lemma_highest_bit(d, s);
        assert(s == i);
        if d != min {
            lemma_highest_difference(min, d);
            let m = choose|m: int| 0 <= m < 256 && bit_at(min, m) != bit_at(d, m)
                && forall|j: int| m < j < 256 ==> bit_at(min, j) == bit_at(d, j);
            lemma_bit_decides(min, d, m);
            lemma_lex_asymmetric(min, d);
        }
        if d != max {
            lemma_highest_difference(d, max);
            let m = choose|m: int| 0 <= m < 256 && bit_at(d, m) != bit_at(max, m)
                && forall|j: int| m < j < 256 ==> bit_at(d, j) == bit_at(max, j);
            lemma_bit_decides(d, max, m);
            lemma_lex_asymmetric(d, max);
        }
    } else {
        if exists|j: int| i < j < 256 && bit_at(d, j) {
            let j = choose|j: int| i < j < 256 && bit_at(d, j);
            lemma_highest_difference_from(max, d, j);
            let m = choose|m: int| 0 <= m < 256 && bit_at(max, m) != bit_at(d, m)
                && forall|k: int| m < k < 256 ==> bit_at(max, k) == bit_at(d, k);
            if m <= i {
                assert(bit_at(max, j) == bit_at(d, j));
            }
            lemma_bit_decides(max, d, m);
        } else {
            assert(!bit_at(d, i)) by {
                if bit_at(d, i) {
                    assert(is_highest_bit(d, i));
                    lemma_highest_bit(d, i);
                }
            }
            assert(forall|k: int| i < k < 256 ==> bit_at(d, k) == bit_at(min, k));
            lemma_bit_decides(d, min, i);
        }
    }
}

} // verus!
