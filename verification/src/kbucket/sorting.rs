//! A stable sort of the entries of a bucket by their distance to a target.

use vstd::prelude::*;
use crate::kbucket::key::{Distance, lex_lt, be_value, lemma_lex_lt_value, lemma_lex_total};

verus! {

/// `s` with the index `x` inserted just after the last index, searching
/// from the end, whose distance in `ds` is not greater than that of `x`.
pub open spec fn insert_by_distance(s: Seq<int>, x: int, ds: Seq<Seq<u8>>) -> Seq<int>
    decreases s.len(),
{
    if s.len() == 0 {
        seq![x]
    } else if lex_lt(ds[x], ds[s.last()]) {
        insert_by_distance(s.drop_last(), x, ds).push(s.last())
    } else {
        s.push(x)
    }
}

/// The indices `0..n` ordered by their distances in `ds`, indices of equal
/// distance in increasing order: the order a stable sort gives.
pub open spec fn sorted_by_distance(n: nat, ds: Seq<Seq<u8>>) -> Seq<int>
    decreases n,
{
    if n == 0 {
        Seq::empty()
    } else {
        insert_by_distance(sorted_by_distance((n - 1) as nat, ds), n - 1, ds)
    }
}

/// No index of `s` comes after one of greater distance.
pub open spec fn is_sorted_by(s: Seq<int>, ds: Seq<Seq<u8>>) -> bool {
    forall|p: int, q: int| 0 <= p < q < s.len() ==> !lex_lt(#[trigger] ds[s[q]], #[trigger] ds[s[p]])
}

/// Every distance has 32 bytes.
pub open spec fn all_32(ds: Seq<Seq<u8>>) -> bool {
    forall|i: int| 0 <= i < ds.len() ==> (#[trigger] ds[i]).len() == 32
}

/// The indices of a vector as integers.
pub open spec fn ints(s: Seq<usize>) -> Seq<int> {
    s.map_values(|x: usize| x as int)
}

/// The bytes of each distance.
pub open spec fn distance_views(ds: Seq<Distance>) -> Seq<Seq<u8>> {
    ds.map_values(|d: Distance| d@)
}

/// A distance that does not come before another is at least as large.
pub proof fn lemma_not_lt_value(a: Seq<u8>, b: Seq<u8>)
    requires
        a.len() == b.len(),
        !lex_lt(b, a),
    ensures
        be_value(a) <= be_value(b),
{
    if lex_lt(a, b) {
        lemma_lex_lt_value(a, b);
    } else {
        lemma_lex_total(a, b);
    }
}

/// Inserting `x` puts it at a position `k` after which only indices of
/// greater distance follow, and just after one of no greater distance.
pub proof fn lemma_insert_by_distance(s: Seq<int>, x: int, ds: Seq<Seq<u8>>) -> (k: int)
    ensures
        0 <= k <= s.len(),
        insert_by_distance(s, x, ds) == s.take(k) + seq![x] + s.skip(k),
        forall|j: int| k <= j < s.len() ==> lex_lt(ds[x], #[trigger] ds[s[j]]),
        k > 0 ==> !lex_lt(ds[x], ds[s[k - 1]]),
    decreases s.len(),
{
    if s.len() == 0 {
        assert(insert_by_distance(s, x, ds) =~= s.take(0) + seq![x] + s.skip(0));
        0
    } else if lex_lt(ds[x], ds[s.last()]) {
        let s1 = s.drop_last();
        let k = lemma_insert_by_distance(s1, x, ds);
        assert(insert_by_distance(s, x, ds) =~= s.take(k) + seq![x] + s.skip(k));
        assert forall|j: int| k <= j < s.len() implies lex_lt(ds[x], #[trigger] ds[s[j]]) by {
            if j < s1.len() {
                assert(s[j] == s1[j]);
            }
        }
        if k > 0 {
            assert(s[k - 1] == s1[k - 1]);
        }
        k
    } else {
        let k = s.len() as int;
        assert(insert_by_distance(s, x, ds) =~= s.take(k) + seq![x] + s.skip(k));
        k
    }
}

/// The stable sort keeps the indices: each of `0..n` once.
pub proof fn lemma_sorted_by_distance_indices(n: nat, ds: Seq<Seq<u8>>)
    ensures
        sorted_by_distance(n, ds).len() == n,
        forall|j: int| 0 <= j < n ==> sorted_by_distance(n, ds).contains(j),
        forall|p: int| 0 <= p < n ==> 0 <= #[trigger] sorted_by_distance(n, ds)[p] < n,
        sorted_by_distance(n, ds).no_duplicates(),
    decreases n,
{
    if n > 0 {
        let m = (n - 1) as nat;
        let s = sorted_by_distance(m, ds);
        lemma_sorted_by_distance_indices(m, ds);
        let x = n - 1;
        let k = lemma_insert_by_distance(s, x, ds);
        let r = sorted_by_distance(n, ds);
        assert(r == s.take(k) + seq![x] + s.skip(k));
        assert forall|p: int| 0 <= p < r.len() implies 0 <= #[trigger] r[p] < n by {
            if p < k {
                assert(r[p] == s[p]);
            } else if p > k {
                assert(r[p] == s[p - 1]);
            }
        }
        assert forall|j: int| 0 <= j < n implies r.contains(j) by {
            if j == x {
                assert(r[k] == x);
            } else {
                assert(s.contains(j));
                let p = choose|p: int| 0 <= p < s.len() && s[p] == j;
                if p < k {
                    assert(r[p] == j);
                } else {
                    assert(r[p + 1] == j);
                }
            }
        }
        assert forall|p: int, q: int| 0 <= p < r.len() && 0 <= q < r.len() && p != q implies r[p] != r[q] by {
            let sp = if p < k { p } else { p - 1 };
            let sq = if q < k { q } else { q - 1 };
            if p != k && q != k {
                assert(r[p] == s[sp]);
                assert(r[q] == s[sq]);
            } else if p == k {
                assert(r[q] == s[sq]);
            } else {
                assert(r[p] == s[sp]);
            }
        }
    }
}

/// The stable sort orders the indices by distance.
pub proof fn lemma_sorted_by_distance_sorted(n: nat, ds: Seq<Seq<u8>>)
    requires
        n <= ds.len(),
        all_32(ds),
    ensures
        is_sorted_by(sorted_by_distance(n, ds), ds),
    decreases n,
{
    if n > 0 {
        let m = (n - 1) as nat;
        let s = sorted_by_distance(m, ds);
        lemma_sorted_by_distance_sorted(m, ds);
        lemma_sorted_by_distance_indices(m, ds);
        let x = n - 1;
        let k = lemma_insert_by_distance(s, x, ds);
        let r = sorted_by_distance(n, ds);
        assert(r == s.take(k) + seq![x] + s.skip(k));
        assert forall|p: int, q: int| 0 <= p < q < r.len() implies !lex_lt(#[trigger] ds[r[q]], #[trigger] ds[r[p]]) by {
            if q < k {
                assert(r[p] == s[p] && r[q] == s[q]);
            } else if p > k {
                assert(r[p] == s[p - 1] && r[q] == s[q - 1]);
            } else if q == k {
                assert(r[p] == s[p]);
                lemma_not_lt_value(ds[s[p]], ds[s[k - 1]]);
                lemma_not_lt_value(ds[s[k - 1]], ds[x]);
                if lex_lt(ds[x], ds[s[p]]) {
                    lemma_lex_lt_value(ds[x], ds[s[p]]);
                }
            } else if p == k {
                assert(r[q] == s[q - 1]);
                assert(lex_lt(ds[x], ds[s[q - 1]]));
                lemma_lex_lt_value(ds[x], ds[s[q - 1]]);
                if lex_lt(ds[s[q - 1]], ds[x]) {
                    lemma_lex_lt_value(ds[s[q - 1]], ds[x]);
                }
            } else {
                assert(p < k < q);
                assert(r[p] == s[p] && r[q] == s[q - 1]);
                assert(lex_lt(ds[x], ds[s[q - 1]]));
                lemma_lex_lt_value(ds[x], ds[s[q - 1]]);
                if k > 0 {
                    lemma_not_lt_value(ds[s[k - 1]], ds[x]);
                    if p < k - 1 {
                        lemma_not_lt_value(ds[s[p]], ds[s[k - 1]]);
                    }
                }
                if lex_lt(ds[s[q - 1]], ds[s[p]]) {
                    lemma_lex_lt_value(ds[s[q - 1]], ds[s[p]]);
                }
            }
        }
    }
}

/// The indices of `ds` in the order of a stable sort by distance.
pub fn sort_indices_by_distance(ds: &Vec<Distance>) -> (r: Vec<usize>)
    ensures
        ints(r@) == sorted_by_distance(ds@.len(), distance_views(ds@)),
{
    let ghost dv = distance_views(ds@);
    let n = ds.len();
    let mut r: Vec<usize> = Vec::new();
    let mut i: usize = 0;
    while i < n
        invariant
            n == ds@.len(),
            dv == distance_views(ds@),
            0 <= i <= n,
            ints(r@) == sorted_by_distance(i as nat, dv),
            forall|p: int| 0 <= p < r@.len() ==> #[trigger] r@[p] < i,
        decreases n - i,
    {
        proof {
            lemma_sorted_by_distance_indices(i as nat, dv);
            assert forall|p: int| 0 <= p < r@.len() implies #[trigger] r@[p] < i by {
                assert(ints(r@)[p] == r@[p] as int);
            }
        }
        let mut j: usize = r.len();
        let ghost s = ints(r@);
        proof {
            assert(s.take(j as int) =~= s);
            assert(insert_by_distance(s, i as int, dv) =~= insert_by_distance(s.take(j as int), i as int, dv) + s.skip(j as int));
        }
        loop
            invariant
                n == ds@.len(),
                dv == distance_views(ds@),
                i < n,
                s == ints(r@),
                forall|p: int| 0 <= p < r@.len() ==> #[trigger] r@[p] < i,
                0 <= j <= r@.len(),
                insert_by_distance(s, i as int, dv) == insert_by_distance(s.take(j as int), i as int, dv) + s.skip(j as int),
            ensures
                0 <= j <= r@.len(),
                insert_by_distance(s, i as int, dv) == s.take(j as int) + seq![i as int] + s.skip(j as int),
            decreases j,
        {
            if j == 0 {
                assert(s.take(0) =~= Seq::<int>::empty());
                assert(insert_by_distance(s.take(0), i as int, dv) == seq![i as int]);
                assert(insert_by_distance(s, i as int, dv) =~= s.take(0) + seq![i as int] + s.skip(0));
                break;
            }
            let prev = r[j - 1];
            assert(dv[i as int] == ds@[i as int]@);
            assert(dv[prev as int] == ds@[prev as int]@);
            assert(s[j - 1] == prev as int);
            let ghost t = s.take(j as int);
            assert(t.last() == prev as int);
            assert(t.drop_last() =~= s.take(j - 1));
            if ds[i].lt(&ds[prev]) {
                assert(insert_by_distance(s, i as int, dv) =~= insert_by_distance(s.take(j - 1), i as int, dv) + s.skip(j - 1));
                j -= 1;
            } else {
                assert(insert_by_distance(t, i as int, dv) == t.push(i as int));
                assert(insert_by_distance(s, i as int, dv) =~= s.take(j as int) + seq![i as int] + s.skip(j as int));
                break;
            }
        }
        r.insert(j, i);
        proof {
            assert(ints(r@) =~= s.take(j as int) + seq![i as int] + s.skip(j as int));
            assert forall|p: int| 0 <= p < r@.len() implies #[trigger] r@[p] < i + 1 by {
                assert(ints(r@)[p] == r@[p] as int);
                lemma_sorted_by_distance_indices((i + 1) as nat, dv);
            }
        }
        i += 1;
    }
    r
}

} // verus!
