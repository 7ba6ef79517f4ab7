//! Which bucket of a routing table a key belongs in, and the proof that the
//! operations of a bucket keep every key where it belongs.

use vstd::prelude::*;
use crate::kbucket::key::{KadKey, xor_bytes, spec_ilog2};
use crate::kbucket::sub_bucket::{
    Node, NodeStatus, PendingNode, SubBucketView, has_key, node_cloned, key_index, lemma_key_index, lemma_evicted_wf,
};
use crate::kbucket::swamp::SwampView;
use crate::kbucket::weighted::{
    WeightedNode, WeightedView, sorted_weights, weight_index, is_insert_pos, insert_pos,
    lemma_weight_index, lemma_insert_pos, least_recent_index, lemma_least_recent_index,
    has_weighted_key, is_first_weighted_key, first_weighted_key, weighted_entries, inner_entries,
    insert_outcome, apply_outcome, update_outcome, empty_sub, lemma_evicted_at_wf, contact_fits,
};
use crate::kbucket::bucket::{
    KBucketView, InsertResult, AppliedPending, insert_post, update_post, update_pending_post,
    apply_post, swamp_insert_outcome,
};

verus! {

/// Key bytes `k` belong in bucket `i` of a table whose local key has the
/// key bytes `local`: they are 32 bytes, and the most significant bit of
/// their distance is bit `i`.
pub open spec fn in_bucket(local: Seq<u8>, i: int, k: Seq<u8>) -> bool {
    &&& k.len() == 32
    &&& spec_ilog2(xor_bytes(local, k)) == Some(i as u32)
}

/// Every element of `s` satisfies `ok`.
pub open spec fn all_ok<N>(s: Seq<N>, ok: spec_fn(N) -> bool) -> bool {
    forall|p: int| 0 <= p < s.len() ==> ok(#[trigger] s[p])
}

/// A node whose key belongs in bucket `i`.
pub open spec fn node_ok<TKey: KadKey, TVal>(local: Seq<u8>, i: int) -> spec_fn(Node<TKey, TVal>) -> bool {
    |n: Node<TKey, TVal>| in_bucket(local, i, n.key.key_view())
}

/// A weighted node whose key belongs in bucket `i`.
pub open spec fn wnode_ok<TKey: KadKey, TVal>(local: Seq<u8>, i: int) -> spec_fn(WeightedNode<TKey, TVal>) -> bool {
    |n: WeightedNode<TKey, TVal>| in_bucket(local, i, n.inner.key.key_view())
}

/// A pending node, if any, whose key belongs in bucket `i`.
pub open spec fn pending_ok<TKey: KadKey, TVal>(p: Option<PendingNode<TKey, TVal>>, local: Seq<u8>, i: int) -> bool {
    p matches Some(pn) ==> in_bucket(local, i, pn.node.key.key_view())
}

/// Every sub-bucket of a weighted part holds nodes satisfying `ok`.
pub open spec fn subs_ok<N>(subs: Seq<SubBucketView<N>>, ok: spec_fn(N) -> bool) -> bool {
    forall|j: int| 0 <= j < subs.len() ==> all_ok(#[trigger] subs[j].nodes, ok)
}

/// Every node and pending node of bucket `v` belongs in bucket `i`.
pub open spec fn bucket_in<TKey: KadKey, TVal>(v: KBucketView<TKey, TVal>, local: Seq<u8>, i: int) -> bool {
    &&& all_ok(v.swamp.bucket.nodes, node_ok(local, i))
    &&& pending_ok(v.swamp.pending, local, i)
    &&& subs_ok(v.weighted.subs, wnode_ok(local, i))
    &&& pending_ok(v.weighted.pending, local, i)
}

/// Adding a node that satisfies `ok` to a list of such nodes gives a list
/// of such nodes.
proof fn lemma_added_ok<N>(b: SubBucketView<N>, n: N, status: NodeStatus, ok: spec_fn(N) -> bool)
    requires
        b.wf(),
        all_ok(b.nodes, ok),
        ok(n),
    ensures
        all_ok(b.added(n, status).nodes, ok),
{
    let c = b.added(n, status).nodes;
    let d = b.num_disconnected();
    assert forall|p: int| 0 <= p < c.len() implies ok(#[trigger] c[p]) by {
        match status {
            NodeStatus::Connected => {
                if p < b.nodes.len() {
                    assert(c[p] == b.nodes[p]);
                }
            },
            NodeStatus::Disconnected => {
                if p < d {
                    assert(c[p] == b.nodes[p]);
                } else if p > d {
                    assert(c[p] == b.nodes[p - 1]);
                }
            },
        }
    }
}

/// Evicting a node from a list of nodes satisfying `ok` leaves such nodes.
proof fn lemma_evicted_ok<N>(b: SubBucketView<N>, pos: int, ok: spec_fn(N) -> bool)
    requires
        all_ok(b.nodes, ok),
    ensures
        all_ok(b.evicted(pos).nodes, ok),
{
    let c = b.evicted(pos).nodes;
    if 0 <= pos < b.nodes.len() {
        assert forall|p: int| 0 <= p < c.len() implies ok(#[trigger] c[p]) by {
            if p < pos {
                assert(c[p] == b.nodes[p]);
            } else {
                assert(c[p] == b.nodes[p + 1]);
            }
        }
    }
}

/// A weight missing from sorted weights has a place among them.
proof fn lemma_insert_pos_exists(ws: Seq<u32>, w: u32)
    requires
        sorted_weights(ws),
        forall|i: int| 0 <= i < ws.len() ==> ws[i] != w,
    ensures
        is_insert_pos(ws, w, insert_pos(ws, w)),
    decreases ws.len(),
{
    if ws.len() == 0 {
        assert(is_insert_pos(ws, w, 0));
    } else if ws.last() < w {
        assert(is_insert_pos(ws, w, ws.len() as int));
    } else {
        let ws1 = ws.drop_last();
        lemma_insert_pos_exists(ws1, w);
        let k = insert_pos(ws1, w);
        assert forall|j: int| 0 <= j < k implies ws[j] < w by {
            assert(ws[j] == ws1[j]);
        }
        assert forall|j: int| k <= j < ws.len() implies ws[j] > w by {
            if j < ws1.len() {
                assert(ws[j] == ws1[j]);
            }
        }
        assert(is_insert_pos(ws, w, k));
    }
}

/// Adding a node that satisfies `ok` to a weighted part whose nodes
/// satisfy `ok` keeps them so.
proof fn lemma_with_added_ok<TKey, TVal>(
    v: WeightedView<TKey, TVal>,
    wn: WeightedNode<TKey, TVal>,
    status: NodeStatus,
    ok: spec_fn(WeightedNode<TKey, TVal>) -> bool,
)
    requires
        v.wf(),
        subs_ok(v.subs, ok),
        ok(wn),
    ensures
        subs_ok(v.with_added(wn, status).subs, ok),
{
    let w = wn.inner.weight;
    lemma_weight_index(v.ws, w);
    let i = weight_index(v.ws, w);
    let n = v.with_added(wn, status);
    if i >= 0 {
        lemma_added_ok(v.subs[i], wn, status, ok);
        assert forall|j: int| 0 <= j < n.subs.len() implies all_ok(#[trigger] n.subs[j].nodes, ok) by {
            if j != i {
                assert(n.subs[j] == v.subs[j]);
            }
        }
    } else {
        lemma_insert_pos_exists(v.ws, w);
        let k = insert_pos(v.ws, w);
        lemma_added_ok(empty_sub::<WeightedNode<TKey, TVal>>(), wn, status, ok);
        assert forall|j: int| 0 <= j < n.subs.len() implies all_ok(#[trigger] n.subs[j].nodes, ok) by {
            if j < k {
                assert(n.subs[j] == v.subs[j]);
            } else if j > k {
                assert(n.subs[j] == v.subs[j - 1]);
            }
        }
    }
}

/// Evicting a node from a weighted part whose nodes satisfy `ok` keeps
/// them so.
proof fn lemma_evicted_at_ok<TKey, TVal>(
    v: WeightedView<TKey, TVal>,
    i: int,
    p: int,
    ok: spec_fn(WeightedNode<TKey, TVal>) -> bool,
)
    requires
        subs_ok(v.subs, ok),
        0 <= i < v.subs.len(),
    ensures
        subs_ok(v.evicted_at(i, p).subs, ok),
{
    let n = v.evicted_at(i, p);
    lemma_evicted_ok(v.subs[i], p, ok);
    assert forall|j: int| 0 <= j < n.subs.len() implies all_ok(#[trigger] n.subs[j].nodes, ok) by {
        if j != i {
            assert(n.subs[j] == v.subs[j]);
        }
    }
}

/// Making room for a pending node keeps the nodes of a weighted part
/// satisfying `ok` so.
proof fn lemma_before_apply_ok<TKey, TVal>(
    v: WeightedView<TKey, TVal>,
    w: u32,
    ok: spec_fn(WeightedNode<TKey, TVal>) -> bool,
)
    requires
        v.wf(),
        subs_ok(v.subs, ok),
    ensures
        subs_ok(v.before_apply(w).subs, ok),
{
    lemma_least_recent_index(v.ws, v.subs, w);
    let li = least_recent_index(v.ws, v.subs, w);
    if v.full() && li >= 0 {
        lemma_evicted_at_ok(v, li, 0, ok);
        assert(v.popped(w).subs == v.evicted_at(li, 0).subs);
    }
}

/// The key of every entry of a bucket whose nodes belong in bucket `i`
/// belongs there.
pub proof fn lemma_entries_in<TKey: KadKey, TVal>(v: KBucketView<TKey, TVal>, local: Seq<u8>, i: int)
    requires
        bucket_in(v, local, i),
    ensures
        forall|j: int| 0 <= j < v.entries().len() ==> in_bucket(local, i, (#[trigger] v.entries()[j]).0.key.key_view()),
{
    lemma_weighted_entries_in(v.weighted.subs, local, i);
    let we = v.weighted.entries();
    let se = v.swamp.bucket.entries();
    assert forall|j: int| 0 <= j < v.entries().len() implies in_bucket(local, i, (#[trigger] v.entries()[j]).0.key.key_view()) by {
        if j < we.len() {
            assert(v.entries()[j] == we[j]);
        } else {
            assert(v.entries()[j] == se[j - we.len()]);
            assert(se[j - we.len()].0 == v.swamp.bucket.nodes[j - we.len()]);
            assert(node_ok::<TKey, TVal>(local, i)(v.swamp.bucket.nodes[j - we.len()]));
        }
    }
}

/// The key of every weighted entry belongs in bucket `i` where the nodes
/// of the sub-buckets do.
proof fn lemma_weighted_entries_in<TKey: KadKey, TVal>(
    subs: Seq<SubBucketView<WeightedNode<TKey, TVal>>>,
    local: Seq<u8>,
    i: int,
)
    requires
        subs_ok(subs, wnode_ok(local, i)),
    ensures
        forall|j: int| 0 <= j < weighted_entries(subs).len() ==> in_bucket(local, i, (#[trigger] weighted_entries(subs)[j]).0.key.key_view()),
    decreases subs.len(),
{
    if subs.len() > 0 {
        let s1 = subs.drop_last();
        assert forall|j: int| 0 <= j < s1.len() implies all_ok(#[trigger] s1[j].nodes, wnode_ok(local, i)) by {
            assert(s1[j] == subs[j]);
        }
        lemma_weighted_entries_in(s1, local, i);
        let a = weighted_entries(s1);
        let b = inner_entries(subs.last());
        assert(all_ok(subs[subs.len() - 1].nodes, wnode_ok(local, i)));
        assert forall|j: int| 0 <= j < weighted_entries(subs).len() implies in_bucket(local, i, (#[trigger] weighted_entries(subs)[j]).0.key.key_view()) by {
            if j < a.len() {
                assert(weighted_entries(subs)[j] == a[j]);
            } else {
                let q = j - a.len();
                assert(weighted_entries(subs)[j] == b[q]);
                assert(b[q].0 == subs.last().nodes[q].inner);
                assert(wnode_ok::<TKey, TVal>(local, i)(subs.last().nodes[q]));
            }
        }
    }
}

/// Inserting a node that belongs in bucket `i` keeps every key of the
/// bucket where it belongs.
pub proof fn lemma_insert_in<TKey: KadKey, TVal>(
    old: KBucketView<TKey, TVal>,
    new: KBucketView<TKey, TVal>,
    node: Node<TKey, TVal>,
    status: NodeStatus,
    r: InsertResult<TKey>,
    now: std::time::Instant,
    local: Seq<u8>,
    i: int,
)
    requires
        old.wf(),
        insert_post(old, new, node, status, r, now),
        bucket_in(old, local, i),
        in_bucket(local, i, node.key.key_view()),
    ensures
        bucket_in(new, local, i),
{
    if node.weight > 0 {
        if !old.weighted.full() {
            let tt = choose|t: Option<std::time::Instant>|
                crate::kbucket::weighted::contact_fits(t, status) && new.weighted == old.weighted.with_added(
                    WeightedNode { inner: node, last_contact_time: t }, status);
            let wn = WeightedNode { inner: node, last_contact_time: tt };
            assert(wnode_ok::<TKey, TVal>(local, i)(wn));
            lemma_with_added_ok(old.weighted, wn, status, wnode_ok(local, i));
        }
    } else {
        if !old.swamp.full() {
            lemma_added_ok(old.swamp.bucket, node, status, node_ok(local, i));
        }
    }
}

/// A node with key bytes `k` in some sub-bucket has a first position.
pub proof fn lemma_first_weighted_exists<TKey: KadKey, TVal>(
    subs: Seq<SubBucketView<WeightedNode<TKey, TVal>>>,
    k: Seq<u8>,
    i: int,
    p: int,
)
    requires
        0 <= i < subs.len(),
        0 <= p < subs[i].nodes.len(),
        subs[i].nodes[p].inner.key.key_view() == k,
    ensures
        is_first_weighted_key(subs, k, first_weighted_key(subs, k).0, first_weighted_key(subs, k).1),
    decreases i, p,
{
    if exists|j: int, q: int| 0 <= j < i && 0 <= q < subs[j].nodes.len() && subs[j].nodes[q].inner.key.key_view() == k {
        let (j, q) = choose|j: int, q: int| 0 <= j < i && 0 <= q < subs[j].nodes.len() && subs[j].nodes[q].inner.key.key_view() == k;
        lemma_first_weighted_exists(subs, k, j, q);
    } else if exists|q: int| 0 <= q < p && subs[i].nodes[q].inner.key.key_view() == k {
        let q = choose|q: int| 0 <= q < p && subs[i].nodes[q].inner.key.key_view() == k;
        lemma_first_weighted_exists(subs, k, i, q);
    } else {
        assert(is_first_weighted_key(subs, k, i, p));
    }
}

/// Moving a node within its part keeps every key of the bucket where it
/// belongs.
pub proof fn lemma_update_in<TKey: KadKey, TVal>(
    old: KBucketView<TKey, TVal>,
    new: KBucketView<TKey, TVal>,
    k: Seq<u8>,
    status: NodeStatus,
    local: Seq<u8>,
    i: int,
)
    requires
        old.wf(),
        update_post(old, new, k, status),
        bucket_in(old, local, i),
    ensures
        bucket_in(new, local, i),
{
    if has_weighted_key(old.weighted.subs, k) {
        let subs = old.weighted.subs;
        let (a, b) = choose|a: int, b: int| 0 <= a < subs.len() && 0 <= b < subs[a].nodes.len() && subs[a].nodes[b].inner.key.key_view() == k;
        lemma_first_weighted_exists(subs, k, a, b);
        let (wi, p) = first_weighted_key(subs, k);
        let wn = subs[wi].nodes[p];
        assert(wnode_ok::<TKey, TVal>(local, i)(wn));
        let mid = old.weighted.evicted_at(wi, p);
        lemma_evicted_at_wf(old.weighted, wi, p);
        lemma_evicted_at_ok(old.weighted, wi, p, wnode_ok(local, i));
        let li = least_recent_index(old.weighted.ws, subs, wn.inner.weight);
        let drop = status == NodeStatus::Connected && li >= 0 && subs[li].nodes[0].inner.key.key_view() == k;
        let mid2 = if drop { WeightedView { pending: None, ..mid } } else { mid };
        let t = choose|t: Option<std::time::Instant>|
            contact_fits(t, status) && new.weighted == mid2.with_added(WeightedNode { inner: wn.inner, last_contact_time: t }, status);
        let wn2 = WeightedNode { inner: wn.inner, last_contact_time: t };
        assert(wnode_ok::<TKey, TVal>(local, i)(wn2));
        lemma_with_added_ok(mid2, wn2, status, wnode_ok(local, i));
    } else if has_key(old.swamp.bucket.nodes, k) {
        lemma_key_index(old.swamp.bucket.nodes, k);
        let p = key_index(old.swamp.bucket.nodes, k);
        let b = old.swamp.bucket;
        assert(node_ok::<TKey, TVal>(local, i)(b.nodes[p]));
        lemma_evicted_wf(b, p);
        lemma_evicted_ok(b, p, node_ok(local, i));
        lemma_added_ok(b.evicted(p), b.nodes[p], status, node_ok(local, i));
    }
}

/// Changing the status of a pending node keeps every key of the bucket
/// where it belongs.
pub proof fn lemma_update_pending_in<TKey: KadKey, TVal>(
    old: KBucketView<TKey, TVal>,
    new: KBucketView<TKey, TVal>,
    k: Seq<u8>,
    status: NodeStatus,
    local: Seq<u8>,
    i: int,
)
    requires
        update_pending_post(old, new, k, status),
        bucket_in(old, local, i),
    ensures
        bucket_in(new, local, i),
{
}

/// Applying pending nodes keeps every key of the bucket where it belongs.
pub proof fn lemma_apply_in<TKey: KadKey, TVal: Clone>(
    old: KBucketView<TKey, TVal>,
    new: KBucketView<TKey, TVal>,
    r: Seq<AppliedPending<TKey, TVal>>,
    local: Seq<u8>,
    i: int,
)
    requires
        old.wf(),
        apply_post(old, new, r),
        bucket_in(old, local, i),
    ensures
        bucket_in(new, local, i),
{
    if new.weighted != old.weighted {
        let a = choose|a: Option<AppliedPending<TKey, TVal>>|
            apply_outcome(old.weighted, new.weighted, a) && (a matches Some(x) ==> r.len() >= 1 && r[0] == x);
        let p = old.weighted.pending.unwrap();
        let mid = old.weighted.before_apply(p.node.weight);
        lemma_before_apply_ok(old.weighted, p.node.weight, wnode_ok(local, i));
        if !mid.full() {
            let (c, t) = choose|c: Node<TKey, TVal>, t: Option<std::time::Instant>|
                node_cloned(p.node, c) && contact_fits(t, p.status)
                && new.weighted == mid.with_added(WeightedNode { inner: c, last_contact_time: t }, p.status);
            let wn = WeightedNode { inner: c, last_contact_time: t };
            assert(wnode_ok::<TKey, TVal>(local, i)(wn));
            lemma_least_recent_index(old.weighted.ws, old.weighted.subs, p.node.weight);
            let li = least_recent_index(old.weighted.ws, old.weighted.subs, p.node.weight);
            if old.weighted.full() && li >= 0 {
                lemma_evicted_at_wf(old.weighted, li, 0);
                assert(mid.subs == old.weighted.evicted_at(li, 0).subs);
            }
            assert(mid.wf());
            lemma_with_added_ok(mid, wn, p.status, wnode_ok(local, i));
        }
    }
    if new.swamp != old.swamp {
        let p = old.swamp.pending.unwrap();
        let b = old.swamp.bucket;
        let b1 = if b.full() { b.evicted(0) } else { b };
        lemma_evicted_wf(b, 0);
        lemma_evicted_ok(b, 0, node_ok(local, i));
        let c = choose|c: Node<TKey, TVal>| #[trigger] node_cloned(p.node, c) && new.swamp == (SwampView {
            bucket: crate::kbucket::swamp::bucket_after_apply(b, c, p.status),
            pending: None,
            timeout: old.swamp.timeout,
        });
        assert(node_ok::<TKey, TVal>(local, i)(c));
        lemma_added_ok(b1, c, p.status, node_ok(local, i));
    }
}

/// Replacing the value of a node keeps every key of the bucket where it
/// belongs.
pub proof fn lemma_with_value_in<TKey: KadKey, TVal>(v: KBucketView<TKey, TVal>, k: Seq<u8>, val: TVal, local: Seq<u8>, i: int)
    requires
        v.wf(),
        bucket_in(v, local, i),
    ensures
        bucket_in(crate::kbucket::bucket::with_value(v, k, val), local, i),
{
    let n = crate::kbucket::bucket::with_value(v, k, val);
    if has_weighted_key(v.weighted.subs, k) {
        let subs = v.weighted.subs;
        let (a, b) = choose|a: int, b: int| 0 <= a < subs.len() && 0 <= b < subs[a].nodes.len() && subs[a].nodes[b].inner.key.key_view() == k;
        lemma_first_weighted_exists(subs, k, a, b);
        let (wi, p) = first_weighted_key(subs, k);
        assert forall|j: int| 0 <= j < n.weighted.subs.len() implies all_ok(#[trigger] n.weighted.subs[j].nodes, wnode_ok(local, i)) by {
            if j == wi {
                assert forall|q: int| 0 <= q < n.weighted.subs[j].nodes.len() implies wnode_ok::<TKey, TVal>(local, i)(#[trigger] n.weighted.subs[j].nodes[q]) by {
                    assert(wnode_ok::<TKey, TVal>(local, i)(subs[j].nodes[q]));
                }
            } else {
                assert(n.weighted.subs[j] == subs[j]);
            }
        }
    } else if has_key(v.swamp.bucket.nodes, k) {
        lemma_key_index(v.swamp.bucket.nodes, k);
        assert forall|q: int| 0 <= q < n.swamp.bucket.nodes.len() implies node_ok::<TKey, TVal>(local, i)(#[trigger] n.swamp.bucket.nodes[q]) by {
            assert(node_ok::<TKey, TVal>(local, i)(v.swamp.bucket.nodes[q]));
        }
    }
}

/// A node of the weighted part: its weight is not zero.
pub open spec fn heavy<TKey, TVal>() -> spec_fn(WeightedNode<TKey, TVal>) -> bool {
    |n: WeightedNode<TKey, TVal>| n.inner.weight > 0
}

/// A node of the swamp: its weight is zero.
pub open spec fn light<TKey, TVal>() -> spec_fn(Node<TKey, TVal>) -> bool {
    |n: Node<TKey, TVal>| n.weight == 0
}

/// The weights partition bucket `v`: the weighted part, its pending node
/// included, holds only nodes of weight above zero, and the swamp only
/// nodes of weight zero.
pub open spec fn partitioned<TKey, TVal>(v: KBucketView<TKey, TVal>) -> bool {
    &&& subs_ok(v.weighted.subs, heavy())
    &&& v.weighted.pending matches Some(p) ==> p.node.weight > 0
    &&& all_ok(v.swamp.bucket.nodes, light())
    &&& v.swamp.pending matches Some(p) ==> p.node.weight == 0
}

/// Inserting a node keeps the weights partitioning a bucket.
pub proof fn lemma_insert_parted<TKey: KadKey, TVal>(
    old: KBucketView<TKey, TVal>,
    new: KBucketView<TKey, TVal>,
    node: Node<TKey, TVal>,
    status: NodeStatus,
    r: InsertResult<TKey>,
    now: std::time::Instant,
)
    requires
        old.wf(),
        insert_post(old, new, node, status, r, now),
        partitioned(old),
    ensures
        partitioned(new),
{
    if node.weight > 0 {
        if !old.weighted.full() {
            let tt = choose|t: Option<std::time::Instant>|
                crate::kbucket::weighted::contact_fits(t, status) && new.weighted == old.weighted.with_added(
                    WeightedNode { inner: node, last_contact_time: t }, status);
            let wn = WeightedNode { inner: node, last_contact_time: tt };
            assert(heavy::<TKey, TVal>()(wn));
            lemma_with_added_ok(old.weighted, wn, status, heavy());
        }
    } else {
        if !old.swamp.full() {
            lemma_added_ok(old.swamp.bucket, node, status, light());
        }
    }
}

/// Moving a node within its part keeps the weights partitioning a bucket.
pub proof fn lemma_update_parted<TKey: KadKey, TVal>(
    old: KBucketView<TKey, TVal>,
    new: KBucketView<TKey, TVal>,
    k: Seq<u8>,
    status: NodeStatus,
)
    requires
        old.wf(),
        update_post(old, new, k, status),
        partitioned(old),
    ensures
        partitioned(new),
{
    if has_weighted_key(old.weighted.subs, k) {
        let subs = old.weighted.subs;
        let (a, b) = choose|a: int, b: int| 0 <= a < subs.len() && 0 <= b < subs[a].nodes.len() && subs[a].nodes[b].inner.key.key_view() == k;
        lemma_first_weighted_exists(subs, k, a, b);
        let (wi, p) = first_weighted_key(subs, k);
        let wn = subs[wi].nodes[p];
        assert(heavy::<TKey, TVal>()(wn));
        let mid = old.weighted.evicted_at(wi, p);
        lemma_evicted_at_wf(old.weighted, wi, p);
        lemma_evicted_at_ok(old.weighted, wi, p, heavy());
        let li = least_recent_index(old.weighted.ws, subs, wn.inner.weight);
        let drop = status == NodeStatus::Connected && li >= 0 && subs[li].nodes[0].inner.key.key_view() == k;
        let mid2 = if drop { WeightedView { pending: None, ..mid } } else { mid };
        let t = choose|t: Option<std::time::Instant>|
            contact_fits(t, status) && new.weighted == mid2.with_added(WeightedNode { inner: wn.inner, last_contact_time: t }, status);
        let wn2 = WeightedNode { inner: wn.inner, last_contact_time: t };
        assert(heavy::<TKey, TVal>()(wn2));
        lemma_with_added_ok(mid2, wn2, status, heavy());
    } else if has_key(old.swamp.bucket.nodes, k) {
        lemma_key_index(old.swamp.bucket.nodes, k);
        let p = key_index(old.swamp.bucket.nodes, k);
        let b = old.swamp.bucket;
        assert(light::<TKey, TVal>()(b.nodes[p]));
        lemma_evicted_wf(b, p);
        lemma_evicted_ok(b, p, light());
        lemma_added_ok(b.evicted(p), b.nodes[p], status, light());
    }
}

/// Changing the status of a pending node keeps the weights partitioning a
/// bucket.
pub proof fn lemma_update_pending_parted<TKey: KadKey, TVal>(
    old: KBucketView<TKey, TVal>,
    new: KBucketView<TKey, TVal>,
    k: Seq<u8>,
    status: NodeStatus,
)
    requires
        update_pending_post(old, new, k, status),
        partitioned(old),
    ensures
        partitioned(new),
{
}

/// Applying pending nodes keeps the weights partitioning a bucket.
pub proof fn lemma_apply_parted<TKey: KadKey, TVal: Clone>(
    old: KBucketView<TKey, TVal>,
    new: KBucketView<TKey, TVal>,
    r: Seq<AppliedPending<TKey, TVal>>,
)
    requires
        old.wf(),
        apply_post(old, new, r),
        partitioned(old),
    ensures
        partitioned(new),
{
    if new.weighted != old.weighted {
        let a = choose|a: Option<AppliedPending<TKey, TVal>>|
            apply_outcome(old.weighted, new.weighted, a) && (a matches Some(x) ==> r.len() >= 1 && r[0] == x);
        let p = old.weighted.pending.unwrap();
        let mid = old.weighted.before_apply(p.node.weight);
        lemma_before_apply_ok(old.weighted, p.node.weight, heavy());
        if !mid.full() {
            let (c, t) = choose|c: Node<TKey, TVal>, t: Option<std::time::Instant>|
                node_cloned(p.node, c) && contact_fits(t, p.status)
                && new.weighted == mid.with_added(WeightedNode { inner: c, last_contact_time: t }, p.status);
            let wn = WeightedNode { inner: c, last_contact_time: t };
            assert(heavy::<TKey, TVal>()(wn));
            lemma_least_recent_index(old.weighted.ws, old.weighted.subs, p.node.weight);
            let li = least_recent_index(old.weighted.ws, old.weighted.subs, p.node.weight);
            if old.weighted.full() && li >= 0 {
                lemma_evicted_at_wf(old.weighted, li, 0);
                assert(mid.subs == old.weighted.evicted_at(li, 0).subs);
            }
            assert(mid.wf());
            lemma_with_added_ok(mid, wn, p.status, heavy());
        }
    }
    if new.swamp != old.swamp {
        let p = old.swamp.pending.unwrap();
        let b = old.swamp.bucket;
        let b1 = if b.full() { b.evicted(0) } else { b };
        lemma_evicted_wf(b, 0);
        lemma_evicted_ok(b, 0, light());
        let c = choose|c: Node<TKey, TVal>| #[trigger] node_cloned(p.node, c) && new.swamp == (SwampView {
            bucket: crate::kbucket::swamp::bucket_after_apply(b, c, p.status),
            pending: None,
            timeout: old.swamp.timeout,
        });
        assert(light::<TKey, TVal>()(c));
        lemma_added_ok(b1, c, p.status, light());
    }
}

/// The nodes of a weighted part whose nodes are all heavy have weights
/// above zero.
pub proof fn lemma_weighted_entries_heavy<TKey, TVal>(subs: Seq<SubBucketView<WeightedNode<TKey, TVal>>>)
    requires
        subs_ok(subs, heavy()),
    ensures
        forall|j: int| 0 <= j < weighted_entries(subs).len() ==> (#[trigger] weighted_entries(subs)[j]).0.weight > 0,
    decreases subs.len(),
{
    if subs.len() > 0 {
        let s1 = subs.drop_last();
        assert forall|j: int| 0 <= j < s1.len() implies all_ok(#[trigger] s1[j].nodes, heavy()) by {
            assert(s1[j] == subs[j]);
        }
        lemma_weighted_entries_heavy(s1);
        let a = weighted_entries(s1);
        let b = inner_entries(subs.last());
        assert(all_ok(subs[subs.len() - 1].nodes, heavy()));
        assert forall|j: int| 0 <= j < weighted_entries(subs).len() implies (#[trigger] weighted_entries(subs)[j]).0.weight > 0 by {
            if j < a.len() {
                assert(weighted_entries(subs)[j] == a[j]);
            } else {
                let q = j - a.len();
                assert(weighted_entries(subs)[j] == b[q]);
                assert(b[q].0 == subs.last().nodes[q].inner);
                assert(heavy::<TKey, TVal>()(subs.last().nodes[q]));
            }
        }
    }
}

} // verus!
