//! Lists of entries with distinct keys, read as maps.

use vstd::prelude::*;

verus! {

/// No two entries of `s` have the same key.
pub open spec fn keys_unique<V>(s: Seq<(Seq<u8>, V)>) -> bool {
    forall|i: int, j: int|
        0 <= i < s.len() && 0 <= j < s.len() && #[trigger] s[i].0 == #[trigger] s[j].0 ==> i == j
}

/// Whether some entry of `s` has key `k`.
pub open spec fn has_key<V>(s: Seq<(Seq<u8>, V)>, k: Seq<u8>) -> bool {
    exists|i: int| 0 <= i < s.len() && #[trigger] s[i].0 == k
}

/// The map from each key of `s` to the value of an entry with that key.
pub open spec fn keyed_map<V>(s: Seq<(Seq<u8>, V)>) -> Map<Seq<u8>, V> {
    Map::new(
        |k: Seq<u8>| has_key(s, k),
        |k: Seq<u8>| s[choose|i: int| 0 <= i < s.len() && #[trigger] s[i].0 == k].1,
    )
}

/// The entry at `i` is what the map holds for its key.
pub proof fn lemma_keyed_index<V>(s: Seq<(Seq<u8>, V)>, i: int)
    requires
        keys_unique(s),
        0 <= i < s.len(),
    ensures
        keyed_map(s).contains_key(s[i].0),
        keyed_map(s)[s[i].0] == s[i].1,
{
    let k = s[i].0;
    assert(has_key(s, k));
    let j = choose|j: int| 0 <= j < s.len() && #[trigger] s[j].0 == k;
    assert(s[j].0 == s[i].0);
}

/// A key that no entry has is not in the map.
pub proof fn lemma_keyed_absent<V>(s: Seq<(Seq<u8>, V)>, k: Seq<u8>)
    requires
        forall|i: int| 0 <= i < s.len() ==> s[i].0 != k,
    ensures
        !keyed_map(s).contains_key(k),
{
}

/// Replacing the value of the entry at `i` replaces the map's value for
/// its key.
pub proof fn lemma_keyed_update<V>(s: Seq<(Seq<u8>, V)>, i: int, v: V)
    requires
        keys_unique(s),
        0 <= i < s.len(),
    ensures
        keys_unique(s.update(i, (s[i].0, v))),
        keyed_map(s.update(i, (s[i].0, v))) == keyed_map(s).insert(s[i].0, v),
{
    let t = s.update(i, (s[i].0, v));
    assert(keys_unique(t)) by {
        assert forall|a: int, b: int|
            0 <= a < t.len() && 0 <= b < t.len() && #[trigger] t[a].0 == #[trigger] t[b].0 implies a == b by {
            assert(t[a].0 == s[a].0 && t[b].0 == s[b].0);
        }
    }
    let m = keyed_map(s).insert(s[i].0, v);
    assert forall|k: Seq<u8>| #[trigger] keyed_map(t).contains_key(k) <==> m.contains_key(k) by {
        if has_key(s, k) {
            let j = choose|j: int| 0 <= j < s.len() && #[trigger] s[j].0 == k;
            assert(t[j].0 == k);
        }
        if has_key(t, k) {
            let j = choose|j: int| 0 <= j < t.len() && #[trigger] t[j].0 == k;
            assert(s[j].0 == k);
        }
    }
    assert forall|k: Seq<u8>| #[trigger] keyed_map(t).contains_key(k) implies keyed_map(t)[k] == m[k] by {
        let j = choose|j: int| 0 <= j < t.len() && #[trigger] t[j].0 == k;
        assert(s[j].0 == k);
        lemma_keyed_index(t, j);
        lemma_keyed_index(s, j);
        if j == i {
        } else {
            assert(s[j].0 != s[i].0);
        }
    }
    assert(keyed_map(t) =~= m);
}

/// Appending an entry with a new key adds it to the map.
pub proof fn lemma_keyed_push<V>(s: Seq<(Seq<u8>, V)>, k: Seq<u8>, v: V)
    requires
        keys_unique(s),
        forall|i: int| 0 <= i < s.len() ==> s[i].0 != k,
    ensures
        keys_unique(s.push((k, v))),
        keyed_map(s.push((k, v))) == keyed_map(s).insert(k, v),
{
    let t = s.push((k, v));
    assert(keys_unique(t)) by {
        assert forall|a: int, b: int|
            0 <= a < t.len() && 0 <= b < t.len() && #[trigger] t[a].0 == #[trigger] t[b].0 implies a == b by {
            if a < s.len() && b < s.len() {
                assert(t[a].0 == s[a].0 && t[b].0 == s[b].0);
            } else if a < s.len() {
                assert(t[a].0 == s[a].0);
            } else if b < s.len() {
                assert(t[b].0 == s[b].0);
            }
        }
    }
    let m = keyed_map(s).insert(k, v);
    assert forall|x: Seq<u8>| #[trigger] keyed_map(t).contains_key(x) <==> m.contains_key(x) by {
        if has_key(s, x) {
            let j = choose|j: int| 0 <= j < s.len() && #[trigger] s[j].0 == x;
            assert(t[j].0 == x);
        }
        if x == k {
            assert(t[s.len() as int].0 == k);
        }
        if has_key(t, x) && x != k {
            let j = choose|j: int| 0 <= j < t.len() && #[trigger] t[j].0 == x;
            assert(j < s.len());
            assert(s[j].0 == x);
        }
    }
    assert forall|x: Seq<u8>| #[trigger] keyed_map(t).contains_key(x) implies keyed_map(t)[x] == m[x] by {
        let j = choose|j: int| 0 <= j < t.len() && #[trigger] t[j].0 == x;
        lemma_keyed_index(t, j);
        if j < s.len() {
            assert(s[j].0 == x);
            lemma_keyed_index(s, j);
        }
    }
    assert(keyed_map(t) =~= m);
}

/// Removing the entry at `i` removes its key from the map.
pub proof fn lemma_keyed_remove<V>(s: Seq<(Seq<u8>, V)>, i: int)
    requires
        keys_unique(s),
        0 <= i < s.len(),
    ensures
        keys_unique(s.remove(i)),
        keyed_map(s.remove(i)) == keyed_map(s).remove(s[i].0),
{
    let t = s.remove(i);
    assert forall|a: int| 0 <= a < t.len() implies #[trigger] t[a] == s[if a < i { a } else { a + 1 }] by {
    }
    assert(keys_unique(t)) by {
        assert forall|a: int, b: int|
            0 <= a < t.len() && 0 <= b < t.len() && #[trigger] t[a].0 == #[trigger] t[b].0 implies a == b by {
            let a2 = if a < i { a } else { a + 1 };
            let b2 = if b < i { b } else { b + 1 };
            assert(t[a] == s[a2] && t[b] == s[b2]);
            assert(s[a2].0 == s[b2].0);
        }
    }
    let m = keyed_map(s).remove(s[i].0);
    assert forall|x: Seq<u8>| #[trigger] keyed_map(t).contains_key(x) <==> m.contains_key(x) by {
        if has_key(s, x) && x != s[i].0 {
            let j = choose|j: int| 0 <= j < s.len() && #[trigger] s[j].0 == x;
            assert(j != i);
            let j2 = if j < i { j } else { j - 1 };
            assert(t[j2] == s[if j2 < i { j2 } else { j2 + 1 }]);
            assert(t[j2].0 == x);
        }
        if has_key(t, x) {
            let j = choose|j: int| 0 <= j < t.len() && #[trigger] t[j].0 == x;
            let j2 = if j < i { j } else { j + 1 };
            assert(t[j] == s[j2]);
            assert(s[j2].0 == x);
            assert(j2 != i);
        }
    }
    assert forall|x: Seq<u8>| #[trigger] keyed_map(t).contains_key(x) implies keyed_map(t)[x] == m[x] by {
        let j = choose|j: int| 0 <= j < t.len() && #[trigger] t[j].0 == x;
        let j2 = if j < i { j } else { j + 1 };
        assert(t[j] == s[j2]);
        lemma_keyed_index(t, j);
        lemma_keyed_index(s, j2);
    }
    assert(keyed_map(t) =~= m);
}

/// The map has as many keys as `s` has entries.
pub proof fn lemma_keyed_len<V>(s: Seq<(Seq<u8>, V)>)
    requires
        keys_unique(s),
    ensures
        keyed_map(s).dom().finite(),
        keyed_map(s).dom().len() == s.len(),
    decreases s.len(),
{
    if s.len() == 0 {
        assert(keyed_map(s).dom() =~= Set::empty());
    } else {
        let p = s.drop_last();
        let last = s.last();
        assert(keys_unique(p)) by {
            assert forall|a: int, b: int|
                0 <= a < p.len() && 0 <= b < p.len() && #[trigger] p[a].0 == #[trigger] p[b].0 implies a == b by {
                assert(p[a] == s[a] && p[b] == s[b]);
            }
        }
        assert forall|i: int| 0 <= i < p.len() implies p[i].0 != last.0 by {
            assert(p[i] == s[i]);
            assert(s[s.len() - 1] == last);
        }
        lemma_keyed_len(p);
        lemma_keyed_push(p, last.0, last.1);
        assert(p.push((last.0, last.1)) =~= s);
        lemma_keyed_absent(p, last.0);
    }
}

} // verus!
