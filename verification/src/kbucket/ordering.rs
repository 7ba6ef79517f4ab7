//! The entries that a routing table returns for a target come closest
//! first.

use vstd::prelude::*;
use crate::kbucket::key::{KadKey, xor_bytes, lex_lt, spec_ilog2, is_highest_bit, lemma_highest_bit, lemma_lex_lt_value};
use crate::kbucket::sub_bucket::{Node, NodeStatus};
use crate::kbucket::bucket::KBucketView;
use crate::kbucket::closest::{closer_bucket, lemma_bucket_order, lemma_bucket_zero, visit_order, lemma_visit_order};
use crate::kbucket::placement::{in_bucket, lemma_entries_in};
use crate::kbucket::sorting::{sorted_by_distance, is_sorted_by, all_32, lemma_sorted_by_distance_indices, lemma_sorted_by_distance_sorted};
use crate::kbucket::table::{TableView, chunk_entries, entry_distances, entries_along, closest_entries};

verus! {

/// No entry of `s` comes after one whose key is farther from `t`.
pub open spec fn sorted_by_target<TKey: KadKey, TVal>(s: Seq<(Node<TKey, TVal>, NodeStatus)>, t: Seq<u8>) -> bool {
    forall|p: int, q: int| 0 <= p < q < s.len()
        ==> !lex_lt(xor_bytes(t, (#[trigger] s[q]).0.key.key_view()), xor_bytes(t, (#[trigger] s[p]).0.key.key_view()))
}

/// The distance of `k` to `t` is the distance of their distances to `l`.
proof fn lemma_xor_cancel(l: Seq<u8>, t: Seq<u8>, k: Seq<u8>)
    requires
        l.len() == 32,
        t.len() == 32,
        k.len() == 32,
    ensures
        xor_bytes(xor_bytes(l, t), xor_bytes(l, k)) == xor_bytes(t, k),
{
    assert forall|j: int| 0 <= j < 32 implies #[trigger] xor_bytes(xor_bytes(l, t), xor_bytes(l, k))[j] == xor_bytes(t, k)[j] by {
        let a = l[j];
        let b = t[j];
        let c = k[j];
        assert((a ^ b) ^ (a ^ c) == b ^ c) by (bit_vector);
    }
    assert(xor_bytes(xor_bytes(l, t), xor_bytes(l, k)) =~= xor_bytes(t, k));
}

/// The distance that places key bytes in bucket `i` has its most
/// significant set bit at `i`.
proof fn lemma_in_bucket_highest(local: Seq<u8>, i: int, k: Seq<u8>)
    requires
        in_bucket(local, i, k),
        0 <= i < 256,
    ensures
        is_highest_bit(xor_bytes(local, k), i),
{
    let e = xor_bytes(local, k);
    let c = choose|j: int| is_highest_bit(e, j);
    assert(is_highest_bit(e, c));
    lemma_highest_bit(e, c);
}

/// Of two keys in different buckets, visited in that order, the first is
/// closer to the target; of two keys in bucket `0`, both are as close.
proof fn lemma_cross(local: Seq<u8>, t: Seq<u8>, kx: Seq<u8>, ky: Seq<u8>, ix: int, iy: int)
    requires
        local.len() == 32,
        t.len() == 32,
        in_bucket(local, ix, kx),
        in_bucket(local, iy, ky),
        0 <= ix < 256,
        0 <= iy < 256,
        ix != iy ==> closer_bucket(xor_bytes(local, t), ix, iy),
        ix == iy ==> ix == 0,
    ensures
        !lex_lt(xor_bytes(t, ky), xor_bytes(t, kx)),
{
    let d = xor_bytes(local, t);
    let ex = xor_bytes(local, kx);
    let ey = xor_bytes(local, ky);
    lemma_xor_cancel(local, t, kx);
    lemma_xor_cancel(local, t, ky);
    lemma_in_bucket_highest(local, ix, kx);
    lemma_in_bucket_highest(local, iy, ky);
    if ix != iy {
        lemma_bucket_order(d, ex, ey, ix, iy);
        lemma_lex_lt_value(xor_bytes(d, ex), xor_bytes(d, ey));
        if lex_lt(xor_bytes(d, ey), xor_bytes(d, ex)) {
            lemma_lex_lt_value(xor_bytes(d, ey), xor_bytes(d, ex));
        }
    } else {
        lemma_bucket_zero(ex);
        lemma_bucket_zero(ey);
        let z = xor_bytes(t, kx);
        assert forall|m: int| 0 <= m < z.len() && z[m] < z[m] implies false by {}
    }
}

/// A bucket ordered by distance to `t` comes closest first, and holds only
/// entries of the bucket.
proof fn lemma_chunk<TKey: KadKey, TVal>(v: KBucketView<TKey, TVal>, t: Seq<u8>)
    requires
        t.len() == 32,
    ensures
        sorted_by_target(chunk_entries(v, t), t),
        chunk_entries(v, t).len() == v.entries().len(),
        forall|q: int| 0 <= q < chunk_entries(v, t).len() ==> exists|j: int| 0 <= j < v.entries().len()
            && #[trigger] chunk_entries(v, t)[q] == v.entries()[j],
        forall|j: int| 0 <= j < v.entries().len() ==> exists|q: int| 0 <= q < chunk_entries(v, t).len()
            && chunk_entries(v, t)[q] == #[trigger] v.entries()[j],
{
    let n = v.entries().len();
    let ed = entry_distances(v, t);
    let so = sorted_by_distance(n, ed);
    lemma_sorted_by_distance_indices(n, ed);
    assert(all_32(ed));
    lemma_sorted_by_distance_sorted(n, ed);
    let c = chunk_entries(v, t);
    assert forall|p: int, q: int| 0 <= p < q < c.len()
        implies !lex_lt(xor_bytes(t, (#[trigger] c[q]).0.key.key_view()), xor_bytes(t, (#[trigger] c[p]).0.key.key_view())) by {
        assert(c[q] == v.entries()[so[q]]);
        assert(c[p] == v.entries()[so[p]]);
        assert(!lex_lt(ed[so[q]], ed[so[p]]));
    }
    assert forall|q: int| 0 <= q < c.len() implies exists|j: int| 0 <= j < n && #[trigger] c[q] == v.entries()[j] by {
        assert(c[q] == v.entries()[so[q]]);
    }
    assert forall|j: int| 0 <= j < n implies exists|q: int| 0 <= q < c.len() && c[q] == #[trigger] v.entries()[j] by {
        assert(so.contains(j));
        let q = choose|q: int| 0 <= q < so.len() && so[q] == j;
        assert(c[q] == v.entries()[j]);
    }
}

/// Every entry of the buckets `idxs` taken in order is an entry of one of
/// those buckets.
proof fn lemma_along_member<TKey: KadKey, TVal>(tv: TableView<TKey, TVal>, t: Seq<u8>, idxs: Seq<int>, p: int) -> (aj: (int, int))
    requires
        t.len() == 32,
        0 <= p < entries_along(tv, t, idxs).len(),
    ensures
        0 <= aj.0 < idxs.len(),
        0 <= aj.1 < tv.buckets[idxs[aj.0]].entries().len(),
        entries_along(tv, t, idxs)[p] == tv.buckets[idxs[aj.0]].entries()[aj.1],
        p >= entries_along(tv, t, idxs.drop_last()).len() ==> aj.0 == idxs.len() - 1,
        p < entries_along(tv, t, idxs.drop_last()).len() ==> aj.0 < idxs.len() - 1,
    decreases idxs.len(),
{
    let pre = idxs.drop_last();
    let a = entries_along(tv, t, pre);
    let v = tv.buckets[idxs.last()];
    lemma_chunk(v, t);
    if p < a.len() {
        let (x, y) = lemma_along_member(tv, t, pre, p);
        assert(pre[x] == idxs[x]);
        (x, y)
    } else {
        let c = chunk_entries(v, t);
        assert(entries_along(tv, t, idxs)[p] == c[p - a.len()]);
        let j = choose|j: int| 0 <= j < v.entries().len() && c[p - a.len()] == v.entries()[j];
        ((idxs.len() - 1) as int, j)
    }
}

/// The buckets `idxs` taken in an order in which no bucket's keys come
/// after farther ones give their entries closest first.
proof fn lemma_along_sorted<TKey: KadKey, TVal>(tv: TableView<TKey, TVal>, t: Seq<u8>, idxs: Seq<int>)
    requires
        tv.wf(),
        t.len() == 32,
        forall|a: int| 0 <= a < idxs.len() ==> 0 <= #[trigger] idxs[a] < 256,
        forall|a: int, b: int| 0 <= a < b < idxs.len() && #[trigger] idxs[a] == #[trigger] idxs[b] ==> idxs[a] == 0,
        forall|a: int, b: int| 0 <= a < b < idxs.len() && #[trigger] idxs[a] != #[trigger] idxs[b]
            ==> closer_bucket(xor_bytes(tv.local(), t), idxs[a], idxs[b]),
    ensures
        sorted_by_target(entries_along(tv, t, idxs), t),
    decreases idxs.len(),
{
    if idxs.len() > 0 {
        let pre = idxs.drop_last();
        assert forall|a: int| 0 <= a < pre.len() implies 0 <= #[trigger] pre[a] < 256 by {
            assert(pre[a] == idxs[a]);
        }
        assert forall|a: int, b: int| 0 <= a < b < pre.len() && #[trigger] pre[a] == #[trigger] pre[b] implies pre[a] == 0 by {
            assert(pre[a] == idxs[a] && pre[b] == idxs[b]);
        }
        assert forall|a: int, b: int| 0 <= a < b < pre.len() && #[trigger] pre[a] != #[trigger] pre[b]
            implies closer_bucket(xor_bytes(tv.local(), t), pre[a], pre[b]) by {
            assert(pre[a] == idxs[a] && pre[b] == idxs[b]);
        }
        lemma_along_sorted(tv, t, pre);
        let a = entries_along(tv, t, pre);
        let il = idxs.last();
        let v = tv.buckets[il];
        lemma_chunk(v, t);
        let c = chunk_entries(v, t);
        let e = entries_along(tv, t, idxs);
        assert(e == a + c);
        assert(tv.buckets[il].wf() && crate::kbucket::placement::bucket_in(tv.buckets[il], tv.local(), il));
        lemma_entries_in(v, tv.local(), il);
        assert forall|p: int, q: int| 0 <= p < q < e.len()
            implies !lex_lt(xor_bytes(t, (#[trigger] e[q]).0.key.key_view()), xor_bytes(t, (#[trigger] e[p]).0.key.key_view())) by {
            if q < a.len() {
                assert(e[p] == a[p] && e[q] == a[q]);
            } else if p >= a.len() {
                assert(e[p] == c[p - a.len()] && e[q] == c[q - a.len()]);
            } else {
                let (x, y) = lemma_along_member(tv, t, idxs, p);
                let (x2, y2) = lemma_along_member(tv, t, idxs, q);
                let ix = idxs[x];
                assert(tv.buckets[ix].wf() && crate::kbucket::placement::bucket_in(tv.buckets[ix], tv.local(), ix));
                lemma_entries_in(tv.buckets[ix], tv.local(), ix);
                assert(x < idxs.len() - 1);
                assert(x2 == idxs.len() - 1);
                let kx = tv.buckets[ix].entries()[y].0.key.key_view();
                let ky = v.entries()[y2].0.key.key_view();
                assert(in_bucket(tv.local(), ix, kx));
                assert(in_bucket(tv.local(), il, ky));
                lemma_cross(tv.local(), t, kx, ky, ix, il);
            }
        }
    }
}

/// The entries that the table gives for a target come closest to it first.
pub proof fn lemma_closest_sorted<TKey: KadKey, TVal>(tv: TableView<TKey, TVal>, t: Seq<u8>)
    requires
        tv.wf(),
        t.len() == 32,
    ensures
        sorted_by_target(closest_entries(tv, t), t),
{
    let d = xor_bytes(tv.local(), t);
    lemma_visit_order(d);
    lemma_along_sorted(tv, t, visit_order(d));
}

/// Every entry of a bucket among `idxs` is among their entries taken in
/// order.
proof fn lemma_along_complete<TKey: KadKey, TVal>(tv: TableView<TKey, TVal>, t: Seq<u8>, idxs: Seq<int>, a: int, j: int)
    requires
        t.len() == 32,
        0 <= a < idxs.len(),
        0 <= j < tv.buckets[idxs[a]].entries().len(),
    ensures
        exists|p: int| 0 <= p < entries_along(tv, t, idxs).len()
            && entries_along(tv, t, idxs)[p] == tv.buckets[idxs[a]].entries()[j],
    decreases idxs.len(),
{
    let pre = idxs.drop_last();
    let pa = entries_along(tv, t, pre);
    let e = entries_along(tv, t, idxs);
    let c = chunk_entries(tv.buckets[idxs.last()], t);
    assert(e == pa + c);
    if a == idxs.len() - 1 {
        let v = tv.buckets[idxs.last()];
        lemma_chunk(v, t);
        let q = choose|q: int| 0 <= q < c.len() && c[q] == #[trigger] v.entries()[j];
        assert(e[pa.len() + q] == c[q]);
    } else {
        assert(pre[a] == idxs[a]);
        lemma_along_complete(tv, t, pre, a, j);
        let p = choose|p: int| 0 <= p < pa.len() && pa[p] == tv.buckets[pre[a]].entries()[j];
        assert(e[p] == pa[p]);
    }
}

/// Every entry of a bucket of the table is among the entries that the
/// table gives for a target.
pub proof fn lemma_closest_complete<TKey: KadKey, TVal>(tv: TableView<TKey, TVal>, t: Seq<u8>, i: int, j: int)
    requires
        t.len() == 32,
        0 <= i < 256,
        0 <= j < tv.buckets[i].entries().len(),
    ensures
        exists|p: int| 0 <= p < closest_entries(tv, t).len() && closest_entries(tv, t)[p] == tv.buckets[i].entries()[j],
{
    let d = xor_bytes(tv.local(), t);
    let vo = visit_order(d);
    lemma_visit_order(d);
    assert(vo.contains(i));
    let a = choose|a: int| 0 <= a < vo.len() && vo[a] == i;
    lemma_along_complete(tv, t, vo, a, j);
    let e = entries_along(tv, t, vo);
    assert(e == closest_entries(tv, t));
    let p = choose|p: int| 0 <= p < e.len() && e[p] == tv.buckets[vo[a]].entries()[j];
    assert(0 <= p < e.len());
    assert(e[p] == tv.buckets[vo[a]].entries()[j]);
    assert(vo[a] == i);
    assert(closest_entries(tv, t)[p] == tv.buckets[i].entries()[j]);
}

/// Every entry that the table gives for a target is an entry of one of its
/// buckets.
pub proof fn lemma_closest_sound<TKey: KadKey, TVal>(tv: TableView<TKey, TVal>, t: Seq<u8>, p: int)
    requires
        t.len() == 32,
        0 <= p < closest_entries(tv, t).len(),
    ensures
        exists|i: int, j: int| 0 <= i < 256 && 0 <= j < tv.buckets[i].entries().len()
            && closest_entries(tv, t)[p] == tv.buckets[i].entries()[j],
{
    let d = xor_bytes(tv.local(), t);
    let vo = visit_order(d);
    lemma_visit_order(d);
    let (a, j) = lemma_along_member(tv, t, vo, p);
    assert(0 <= vo[a] < 256);
}

} // verus!
