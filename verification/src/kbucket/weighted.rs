//! The weighted part of a bucket: sub-buckets keyed by weight, at most
//! `W_VALUE` nodes in all, and one pending node.

use vstd::prelude::*;
use std::time::{Duration, Instant};
use crate::W_VALUE;
use crate::time::{instant_now, instant_checked_add, instant_ge, instant_plus};
use crate::kbucket::key::{KadKey, KeyBytes};
use crate::kbucket::bucket::{AppliedPending, InsertResult, names_for_check};
use crate::kbucket::sub_bucket::{
    pending_ready_at, pending_active_at, Node, NodeStatus, PendingNode, Position, SubBucket, SubBucketView, node_cloned, status_at,
    lemma_added_entries, lemma_evicted_entries,
};

verus! {

/// A node of the weighted part, with the time it was last seen connected.
#[derive(Debug)]
pub struct WeightedNode<TKey, TVal> {
    /// The node.
    pub inner: Node<TKey, TVal>,
    /// The instant the node was inserted as connected; `None` if it was
    /// inserted as disconnected.
    pub last_contact_time: Option<Instant>,
}

/// The contact time of a node inserted with `status`: the clock reading if
/// it is connected, none otherwise.
pub open spec fn contact_fits(t: Option<Instant>, status: NodeStatus) -> bool {
    match status {
        NodeStatus::Connected => t is Some,
        NodeStatus::Disconnected => t is None,
    }
}

impl<TKey, TVal> WeightedNode<TKey, TVal> {
    /// The node with its contact time set for `status`: the clock reading if
    /// it is connected, none otherwise.
    fn update(self, status: NodeStatus) -> (r: Self)
        ensures
            r.inner == self.inner,
            contact_fits(r.last_contact_time, status),
    {
        let new_time = if status == NodeStatus::Connected {
            Some(instant_now())
        } else {
            None
        };
        WeightedNode { inner: self.inner, last_contact_time: new_time }
    }

    /// A weighted node without a contact time.
    pub fn from_node(node: Node<TKey, TVal>) -> (r: Self)
        ensures
            r.inner == node,
            r.last_contact_time is None,
    {
        WeightedNode { inner: node, last_contact_time: None }
    }

    /// The node itself.
    pub fn into_node(self) -> (r: Node<TKey, TVal>)
        ensures
            r == self.inner,
    {
        self.inner
    }
}

/// The position of a node in the weighted part: its weight and its
/// position in the sub-bucket of that weight.
#[derive(Debug, Clone, Copy, PartialEq, Eq, Structural)]
pub struct WeightedPosition {
    pub weight: u32,
    pub position: usize,
}

impl WeightedPosition {
    /// The position `position` in the sub-bucket of weight `weight`.
    pub fn new(weight: u32, position: Position) -> (r: Self)
        ensures
            r.weight == weight,
            r.position == position.0,
    {
        WeightedPosition { weight, position: position.0 }
    }

    /// The position within the sub-bucket.
    pub fn into_position(self) -> (r: Position)
        ensures
            r.0 == self.position,
    {
        Position(self.position)
    }
}

/// The number of nodes in all sub-buckets.
pub open spec fn total_nodes<N>(subs: Seq<SubBucketView<N>>) -> int
    decreases subs.len(),
{
    if subs.len() == 0 {
        0
    } else {
        total_nodes(subs.drop_last()) + subs.last().nodes.len()
    }
}

/// The weights are in increasing order, hence distinct.
pub open spec fn sorted_weights(ws: Seq<u32>) -> bool {
    forall|i: int, j: int| 0 <= i < j < ws.len() ==> ws[i] < ws[j]
}

/// The index of weight `w`, or `-1` if there is none.
pub open spec fn weight_index(ws: Seq<u32>, w: u32) -> int {
    if exists|i: int| 0 <= i < ws.len() && ws[i] == w {
        choose|i: int| 0 <= i < ws.len() && ws[i] == w
    } else {
        -1
    }
}

/// `k` is where weight `w` goes in the sorted weights `ws`.
pub open spec fn is_insert_pos(ws: Seq<u32>, w: u32, k: int) -> bool {
    &&& 0 <= k <= ws.len()
    &&& forall|j: int| 0 <= j < k ==> ws[j] < w
    &&& forall|j: int| k <= j < ws.len() ==> ws[j] > w
}

/// Where weight `w` goes in the sorted weights `ws`, if it is not there.
pub open spec fn insert_pos(ws: Seq<u32>, w: u32) -> int {
    choose|k: int| is_insert_pos(ws, w, k)
}

/// The index of the first non-empty sub-bucket, or `-1`.
pub open spec fn first_nonempty<N>(subs: Seq<SubBucketView<N>>) -> int {
    if exists|i: int| 0 <= i < subs.len() && subs[i].nodes.len() > 0 {
        choose|i: int|
            0 <= i < subs.len() && subs[i].nodes.len() > 0 && forall|j: int|
                0 <= j < i ==> subs[j].nodes.len() == 0
    } else {
        -1
    }
}

/// The index of the sub-bucket holding the least-recently (dis)connected
/// node of weight at most `bound`: the non-empty sub-bucket of least weight,
/// if that weight is at most `bound`; `-1` otherwise.
pub open spec fn least_recent_index<N>(ws: Seq<u32>, subs: Seq<SubBucketView<N>>, bound: u32) -> int {
    let i = first_nonempty(subs);
    if i >= 0 && ws[i] <= bound {
        i
    } else {
        -1
    }
}

/// The first position `(i, p)` of a node with key bytes `k`: the sub-bucket
/// of least weight holding one, and the first position in it.
pub open spec fn is_first_weighted_key<TKey: KadKey, TVal>(
    subs: Seq<SubBucketView<WeightedNode<TKey, TVal>>>,
    k: Seq<u8>,
    i: int,
    p: int,
) -> bool {
    &&& 0 <= i < subs.len()
    &&& 0 <= p < subs[i].nodes.len()
    &&& subs[i].nodes[p].inner.key.key_view() == k
    &&& forall|q: int| 0 <= q < p ==> subs[i].nodes[q].inner.key.key_view() != k
    &&& forall|j: int, q: int|
        0 <= j < i && 0 <= q < subs[j].nodes.len() ==> subs[j].nodes[q].inner.key.key_view() != k
}

/// Whether a node with key bytes `k` is in some sub-bucket.
pub open spec fn has_weighted_key<TKey: KadKey, TVal>(
    subs: Seq<SubBucketView<WeightedNode<TKey, TVal>>>,
    k: Seq<u8>,
) -> bool {
    exists|i: int, p: int|
        0 <= i < subs.len() && 0 <= p < subs[i].nodes.len() && subs[i].nodes[p].inner.key.key_view() == k
}

/// Replacing a sub-bucket changes the total by the difference of sizes.
pub proof fn lemma_total_update<N>(subs: Seq<SubBucketView<N>>, i: int, x: SubBucketView<N>)
    requires
        0 <= i < subs.len(),
    ensures
        total_nodes(subs.update(i, x)) == total_nodes(subs) - subs[i].nodes.len() + x.nodes.len(),
    decreases subs.len(),
{
    let u = subs.update(i, x);
    if i == subs.len() - 1 {
        assert(u.drop_last() =~= subs.drop_last());
    } else {
        assert(u.drop_last() =~= subs.drop_last().update(i, x));
        lemma_total_update(subs.drop_last(), i, x);
    }
}

/// Inserting a sub-bucket adds its size to the total.
pub proof fn lemma_total_insert<N>(subs: Seq<SubBucketView<N>>, k: int, x: SubBucketView<N>)
    requires
        0 <= k <= subs.len(),
    ensures
        total_nodes(subs.insert(k, x)) == total_nodes(subs) + x.nodes.len(),
    decreases subs.len(),
{
    let u = subs.insert(k, x);
    if k == subs.len() {
        assert(u.drop_last() =~= subs);
    } else {
        assert(u.drop_last() =~= subs.drop_last().insert(k, x));
        lemma_total_insert(subs.drop_last(), k, x);
    }
}

/// The total of a prefix is at most the total.
pub proof fn lemma_total_prefix<N>(subs: Seq<SubBucketView<N>>, n: int)
    requires
        0 <= n <= subs.len(),
    ensures
        0 <= total_nodes(subs.take(n)) <= total_nodes(subs),
        n < subs.len() ==> total_nodes(subs.take(n + 1)) == total_nodes(subs.take(n)) + subs[n].nodes.len(),
    decreases subs.len(),
{
    if n < subs.len() {
        assert(subs.take(n + 1).drop_last() =~= subs.take(n));
    }
    if n == subs.len() {
        assert(subs.take(n) =~= subs);
        lemma_total_nonneg(subs);
    } else {
        assert(subs.take(n) =~= subs.drop_last().take(n));
        lemma_total_prefix(subs.drop_last(), n);
    }
}

/// The total is not negative.
pub proof fn lemma_total_nonneg<N>(subs: Seq<SubBucketView<N>>)
    ensures
        total_nodes(subs) >= 0,
    decreases subs.len(),
{
    if subs.len() > 0 {
        lemma_total_nonneg(subs.drop_last());
    }
}

/// A non-empty sub-bucket makes the total positive.
pub proof fn lemma_total_positive<N>(subs: Seq<SubBucketView<N>>, i: int)
    requires
        0 <= i < subs.len(),
    ensures
        total_nodes(subs) >= subs[i].nodes.len(),
    decreases subs.len(),
{
    lemma_total_nonneg(subs.drop_last());
    if i < subs.len() - 1 {
        lemma_total_positive(subs.drop_last(), i);
        assert(subs.drop_last()[i] == subs[i]);
    }
}

/// A positive total has a non-empty sub-bucket.
pub proof fn lemma_total_has_nonempty<N>(subs: Seq<SubBucketView<N>>)
    requires
        total_nodes(subs) > 0,
    ensures
        exists|i: int| 0 <= i < subs.len() && subs[i].nodes.len() > 0,
    decreases subs.len(),
{
    if subs.last().nodes.len() == 0 {
        lemma_total_has_nonempty(subs.drop_last());
        let i = choose|i: int| 0 <= i < subs.drop_last().len() && subs.drop_last()[i].nodes.len() > 0;
        assert(subs[i] == subs.drop_last()[i]);
    } else {
        assert(subs[subs.len() - 1].nodes.len() > 0);
    }
}

/// In sorted weights, a weight has at most one index, and `weight_index`
/// finds it.
pub proof fn lemma_weight_index(ws: Seq<u32>, w: u32)
    requires
        sorted_weights(ws),
    ensures
        forall|i: int| 0 <= i < ws.len() && ws[i] == w ==> i == weight_index(ws, w),
        weight_index(ws, w) >= 0 ==> weight_index(ws, w) < ws.len() && ws[weight_index(ws, w)] == w,
        weight_index(ws, w) < 0 ==> weight_index(ws, w) == -1 && forall|i: int| 0 <= i < ws.len() ==> ws[i] != w,
{
}

/// The place of a missing weight in sorted weights is unique.
pub proof fn lemma_insert_pos(ws: Seq<u32>, w: u32, k: int)
    requires
        sorted_weights(ws),
        is_insert_pos(ws, w, k),
    ensures
        insert_pos(ws, w) == k,
        sorted_weights(ws.insert(k, w)),
{
    let c = insert_pos(ws, w);
    assert(is_insert_pos(ws, w, c));
    if c < k {
        assert(ws[c] > w);
    } else if k < c {
        assert(ws[k] > w);
    }
}

/// The first non-empty sub-bucket is unique, and `first_nonempty` finds it.
pub proof fn lemma_first_nonempty<N>(subs: Seq<SubBucketView<N>>, i: int)
    requires
        0 <= i < subs.len(),
        subs[i].nodes.len() > 0,
        forall|j: int| 0 <= j < i ==> subs[j].nodes.len() == 0,
    ensures
        first_nonempty(subs) == i,
{
    let c = first_nonempty(subs);
    if c < i {
        assert(subs[c].nodes.len() == 0);
    } else if i < c {
        assert(subs[i].nodes.len() == 0);
    }
}

impl<TKey: KadKey, TVal> SubBucket<WeightedNode<TKey, TVal>> {
    /// The position of the first node with key bytes `kb`.
    pub fn weighted_key_position(&self, kb: &KeyBytes) -> (r: Option<Position>)
        ensures
            match r {
                Some(p) => {
                    &&& p.0 < self@.nodes.len()
                    &&& self@.nodes[p.0 as int].inner.key.key_view() == kb@
                    &&& forall|q: int| 0 <= q < p.0 ==> self@.nodes[q].inner.key.key_view() != kb@
                },
                None => forall|q: int| 0 <= q < self@.nodes.len() ==> self@.nodes[q].inner.key.key_view() != kb@,
            },
    {
        let mut i: usize = 0;
        while i < self.nodes.len()
            invariant
                0 <= i <= self@.nodes.len(),
                forall|j: int| 0 <= j < i ==> self@.nodes[j].inner.key.key_view() != kb@,
            decreases self@.nodes.len() - i,
        {
            if self.nodes[i].inner.key.key_bytes().same_as(kb) {
                return Some(Position(i));
            }
            i += 1;
        }
        None
    }
}

/// `first_nonempty` is `-1` or the index of the first non-empty sub-bucket.
pub proof fn lemma_first_nonempty_spec<N>(subs: Seq<SubBucketView<N>>)
    ensures
        first_nonempty(subs) >= -1,
        first_nonempty(subs) >= 0 ==> {
            &&& first_nonempty(subs) < subs.len()
            &&& subs[first_nonempty(subs)].nodes.len() > 0
            &&& forall|j: int| 0 <= j < first_nonempty(subs) ==> subs[j].nodes.len() == 0
        },
        first_nonempty(subs) < 0 ==> forall|j: int| 0 <= j < subs.len() ==> subs[j].nodes.len() == 0,
    decreases subs.len(),
{
    if exists|i: int| 0 <= i < subs.len() && subs[i].nodes.len() > 0 {
        if subs[0].nodes.len() > 0 {
            lemma_first_nonempty(subs, 0);
        } else {
            let t = subs.drop_first();
            let i = choose|i: int| 0 <= i < subs.len() && subs[i].nodes.len() > 0;
            assert(t[i - 1] == subs[i]);
            lemma_first_nonempty_spec(t);
            let q = first_nonempty(t);
            assert forall|j: int| 0 <= j < q + 1 implies subs[j].nodes.len() == 0 by {
                if j > 0 {
                    assert(subs[j] == t[j - 1]);
                }
            }
            assert(subs[q + 1] == t[q]);
            lemma_first_nonempty(subs, q + 1);
        }
    }
}

/// `least_recent_index` is `-1` or the index of a non-empty sub-bucket of
/// weight at most `bound`, the first non-empty one.
pub proof fn lemma_least_recent_index<N>(ws: Seq<u32>, subs: Seq<SubBucketView<N>>, bound: u32)
    requires
        ws.len() == subs.len(),
    ensures
        least_recent_index(ws, subs, bound) >= -1,
        least_recent_index(ws, subs, bound) >= 0 ==> {
            &&& least_recent_index(ws, subs, bound) < subs.len()
            &&& subs[least_recent_index(ws, subs, bound)].nodes.len() > 0
            &&& ws[least_recent_index(ws, subs, bound)] <= bound
        },
{
    lemma_first_nonempty_spec(subs);
}

/// An empty sub-bucket of the weighted part.
pub open spec fn empty_sub<N>() -> SubBucketView<N> {
    SubBucketView { nodes: Seq::empty(), first: None, capacity: W_VALUE as int }
}

/// The nodes of the sub-buckets with their status: the sub-buckets in
/// order, each from its least-recently to its most-recently (dis)connected
/// node.
pub open spec fn weighted_entries<TKey, TVal>(subs: Seq<SubBucketView<WeightedNode<TKey, TVal>>>) -> Seq<(Node<TKey, TVal>, NodeStatus)>
    decreases subs.len(),
{
    if subs.len() == 0 {
        Seq::empty()
    } else {
        weighted_entries(subs.drop_last()) + inner_entries(subs.last())
    }
}

/// The nodes of a sub-bucket of the weighted part with their status.
pub open spec fn inner_entries<TKey, TVal>(b: SubBucketView<WeightedNode<TKey, TVal>>) -> Seq<(Node<TKey, TVal>, NodeStatus)> {
    b.entries().map_values(|e: (WeightedNode<TKey, TVal>, NodeStatus)| (e.0.inner, e.1))
}

/// The weighted entries are as many as the nodes.
pub proof fn lemma_weighted_entries_len<TKey, TVal>(subs: Seq<SubBucketView<WeightedNode<TKey, TVal>>>)
    ensures
        weighted_entries(subs).len() == total_nodes(subs),
    decreases subs.len(),
{
    if subs.len() > 0 {
        lemma_weighted_entries_len(subs.drop_last());
    }
}

/// The weighted part of a bucket.
#[derive(Debug)]
pub struct Weighted<TKey, TVal> {
    weights: Vec<u32>,
    subs: Vec<SubBucket<WeightedNode<TKey, TVal>>>,
    pending: Option<PendingNode<TKey, TVal>>,
    capacity: usize,
    pending_timeout: Duration,
}

/// The mathematical model of a `Weighted`.
pub ghost struct WeightedView<TKey, TVal> {
    /// The weights of the sub-buckets, in increasing order.
    pub ws: Seq<u32>,
    /// The sub-buckets, in the order of their weights.
    pub subs: Seq<SubBucketView<WeightedNode<TKey, TVal>>>,
    /// The pending node, if any.
    pub pending: Option<PendingNode<TKey, TVal>>,
    /// The timeout after which a pending node becomes eligible.
    pub timeout: Duration,
    /// The number of nodes at which the weighted part counts as full.
    pub cap: int,
}

impl<TKey, TVal> View for Weighted<TKey, TVal> {
    type V = WeightedView<TKey, TVal>;

    closed spec fn view(&self) -> WeightedView<TKey, TVal> {
        WeightedView {
            ws: self.weights@,
            subs: self.subs@.map_values(|b: SubBucket<WeightedNode<TKey, TVal>>| b@),
            pending: self.pending,
            timeout: self.pending_timeout,
            cap: self.capacity as int,
        }
    }
}

impl<TKey, TVal> WeightedView<TKey, TVal> {
    /// One sub-bucket per weight, in increasing order of weight, each well
    /// formed, full at `W_VALUE` nodes and holding nodes of its weight; at
    /// most `W_VALUE` nodes in all.
    pub open spec fn wf(self) -> bool {
        &&& self.ws.len() == self.subs.len()
        &&& sorted_weights(self.ws)
        &&& forall|i: int| 0 <= i < self.subs.len() ==> (#[trigger] self.subs[i]).wf()
            && self.subs[i].capacity == W_VALUE
        &&& forall|i: int, p: int| 0 <= i < self.subs.len() && 0 <= p < self.subs[i].nodes.len()
            ==> (#[trigger] self.subs[i].nodes[p]).inner.weight == self.ws[i]
        &&& total_nodes(self.subs) <= W_VALUE
        &&& self.cap == W_VALUE
    }

    /// Whether the weighted part holds `W_VALUE` nodes.
    pub open spec fn full(self) -> bool {
        total_nodes(self.subs) >= self.cap
    }

    /// The nodes with their status, in order of weight.
    pub open spec fn entries(self) -> Seq<(Node<TKey, TVal>, NodeStatus)> {
        weighted_entries(self.subs)
    }

    /// `wn` added with `status` to the sub-bucket of its weight, which is
    /// created where it is missing.
    pub open spec fn with_added(self, wn: WeightedNode<TKey, TVal>, status: NodeStatus) -> Self {
        let w = wn.inner.weight;
        let i = weight_index(self.ws, w);
        if i >= 0 {
            WeightedView { subs: self.subs.update(i, self.subs[i].added(wn, status)), ..self }
        } else {
            let k = insert_pos(self.ws, w);
            WeightedView {
                ws: self.ws.insert(k, w),
                subs: self.subs.insert(k, empty_sub().added(wn, status)),
                ..self
            }
        }
    }

    /// The least-recently (dis)connected node of the non-empty sub-bucket
    /// of least weight evicted, if that weight is at most `bound`.
    pub open spec fn popped(self, bound: u32) -> Self {
        let i = least_recent_index(self.ws, self.subs, bound);
        if i >= 0 {
            WeightedView { subs: self.subs.update(i, self.subs[i].evicted(0)), ..self }
        } else {
            self
        }
    }

    /// The node at `p` of the sub-bucket at index `i` evicted.
    pub open spec fn evicted_at(self, i: int, p: int) -> Self {
        WeightedView { subs: self.subs.update(i, self.subs[i].evicted(p)), ..self }
    }

    /// The state in which a pending node of weight `w` is inserted: without
    /// the pending node, and with the least-recently (dis)connected node of
    /// weight at most `w` evicted if the weighted part is full.
    pub open spec fn before_apply(self, w: u32) -> Self {
        WeightedView { pending: None, ..(if self.full() { self.popped(w) } else { self }) }
    }
}

/// `(i, p)` is the first position of a node with key bytes `k`.
pub open spec fn first_weighted_key<TKey: KadKey, TVal>(
    subs: Seq<SubBucketView<WeightedNode<TKey, TVal>>>,
    k: Seq<u8>,
) -> (int, int) {
    choose|i: int, p: int| is_first_weighted_key(subs, k, i, p)
}

/// The first position of a key is unique, and `first_weighted_key` finds it.
pub proof fn lemma_first_weighted_key<TKey: KadKey, TVal>(
    subs: Seq<SubBucketView<WeightedNode<TKey, TVal>>>,
    k: Seq<u8>,
    i: int,
    p: int,
)
    requires
        is_first_weighted_key(subs, k, i, p),
    ensures
        first_weighted_key(subs, k) == (i, p),
{
    let (a, b) = first_weighted_key(subs, k);
    assert(is_first_weighted_key(subs, k, a, b));
    if a < i {
        assert(subs[a].nodes[b].inner.key.key_view() != k);
    } else if i < a {
        assert(subs[i].nodes[p].inner.key.key_view() != k);
    } else if b < p {
        assert(subs[i].nodes[b].inner.key.key_view() != k);
    } else if p < b {
        assert(subs[i].nodes[p].inner.key.key_view() != k);
    }
}

/// Adding a node keeps the weighted part well formed and adds one to its
/// total, if it was not full.
pub proof fn lemma_with_added_wf<TKey, TVal>(v: WeightedView<TKey, TVal>, wn: WeightedNode<TKey, TVal>, status: NodeStatus)
    requires
        v.wf(),
        !v.full(),
        weight_index(v.ws, wn.inner.weight) < 0 ==> is_insert_pos(v.ws, wn.inner.weight, insert_pos(v.ws, wn.inner.weight)),
    ensures
        v.with_added(wn, status).wf(),
        total_nodes(v.with_added(wn, status).subs) == total_nodes(v.subs) + 1,
{
    let w = wn.inner.weight;
    lemma_weight_index(v.ws, w);
    let i = weight_index(v.ws, w);
    let n = v.with_added(wn, status);
    if i >= 0 {
        lemma_added_entries(v.subs[i], wn, status);
        lemma_total_update(v.subs, i, v.subs[i].added(wn, status));
        assert forall|j: int, p: int| 0 <= j < n.subs.len() && 0 <= p < n.subs[j].nodes.len()
            implies (#[trigger] n.subs[j].nodes[p]).inner.weight == n.ws[j] by {
            if j == i {
                let b = v.subs[i];
                if status == NodeStatus::Disconnected {
                    let d = b.num_disconnected();
                    if p > d {
                        assert(n.subs[j].nodes[p] == b.nodes[p - 1]);
                    } else if p < d {
                        assert(n.subs[j].nodes[p] == b.nodes[p]);
                    }
                } else if p < b.nodes.len() {
                    assert(n.subs[j].nodes[p] == b.nodes[p]);
                }
            }
        }
    } else {
        let k = insert_pos(v.ws, w);
        lemma_insert_pos(v.ws, w, k);
        lemma_added_entries(empty_sub::<WeightedNode<TKey, TVal>>(), wn, status);
        lemma_total_insert(v.subs, k, empty_sub::<WeightedNode<TKey, TVal>>().added(wn, status));
        assert forall|j: int| 0 <= j < n.subs.len() implies (#[trigger] n.subs[j]).wf() && n.subs[j].capacity == W_VALUE by {
            if j < k {
                assert(n.subs[j] == v.subs[j]);
            } else if j > k {
                assert(n.subs[j] == v.subs[j - 1]);
            }
        }
        assert forall|j: int, p: int| 0 <= j < n.subs.len() && 0 <= p < n.subs[j].nodes.len()
            implies (#[trigger] n.subs[j].nodes[p]).inner.weight == n.ws[j] by {
            if j < k {
                assert(n.subs[j] == v.subs[j]);
            } else if j > k {
                assert(n.subs[j] == v.subs[j - 1]);
            } else {
                assert(n.subs[j].nodes[p] == wn);
            }
        }
    }
}

/// Evicting a node at a valid position keeps the weighted part well formed
/// and takes one from its total.
pub proof fn lemma_evicted_at_wf<TKey, TVal>(v: WeightedView<TKey, TVal>, i: int, p: int)
    requires
        v.wf(),
        0 <= i < v.subs.len(),
        0 <= p < v.subs[i].nodes.len(),
    ensures
        v.evicted_at(i, p).wf(),
        total_nodes(v.evicted_at(i, p).subs) == total_nodes(v.subs) - 1,
{
    let n = v.evicted_at(i, p);
    lemma_evicted_entries(v.subs[i], p);
    lemma_total_update(v.subs, i, v.subs[i].evicted(p));
    assert forall|j: int, q: int| 0 <= j < n.subs.len() && 0 <= q < n.subs[j].nodes.len()
        implies (#[trigger] n.subs[j].nodes[q]).inner.weight == n.ws[j] by {
        if j == i {
            if q < p {
                assert(n.subs[j].nodes[q] == v.subs[i].nodes[q]);
            } else {
                assert(n.subs[j].nodes[q] == v.subs[i].nodes[q + 1]);
            }
        }
    }
}

/// The outcome of inserting `node` with `status` into `old` at the instant
/// `now`, giving `new` and the result `r`: see `Weighted::insert_weighted`.
pub open spec fn insert_outcome<TKey: KadKey, TVal>(
    old: WeightedView<TKey, TVal>,
    new: WeightedView<TKey, TVal>,
    node: Node<TKey, TVal>,
    status: NodeStatus,
    r: InsertResult<TKey>,
    now: Instant,
) -> bool {
    let li = least_recent_index(old.ws, old.subs, node.weight);
    if !old.full() {
        &&& r is Inserted
        &&& exists|t: Option<Instant>|
            contact_fits(t, status) && new == old.with_added(WeightedNode { inner: node, last_contact_time: t }, status)
    } else if status == NodeStatus::Connected && old.pending is None && old.ws.len() > 0
        && old.ws[0] < node.weight && li >= 0 && old.subs[li].status_of(0) == NodeStatus::Disconnected {
        match instant_plus(now, old.timeout) {
            Some(x) => {
                &&& names_for_check(r, old.subs[li].nodes[0].inner.key)
                &&& new == (WeightedView {
                    pending: Some(PendingNode { node, status: NodeStatus::Connected, replace: x }),
                    ..old
                })
            },
            None => {
                &&& r is Full
                &&& new == old
            },
        }
    } else {
        &&& r is Full
        &&& new == old
    }
}

/// The outcome of applying the pending node of `old`, giving `new` and the
/// result `r`: see `Weighted::apply_ready_pending`.
pub open spec fn apply_outcome<TKey: KadKey, TVal: Clone>(
    old: WeightedView<TKey, TVal>,
    new: WeightedView<TKey, TVal>,
    r: Option<AppliedPending<TKey, TVal>>,
) -> bool {
    &&& old.pending matches Some(p)
    &&& {
        let mid = old.before_apply(p.node.weight);
        let li = least_recent_index(old.ws, old.subs, p.node.weight);
        let ev = if old.full() && li >= 0 { Some(old.subs[li].nodes[0].inner) } else { None };
        if mid.full() {
            r is None && new == mid
        } else {
            &&& r matches Some(a)
            &&& a.inserted == p.node
            &&& a.evicted == ev
            &&& exists|c: Node<TKey, TVal>, t: Option<Instant>|
                node_cloned(p.node, c) && contact_fits(t, p.status)
                && new == mid.with_added(WeightedNode { inner: c, last_contact_time: t }, p.status)
        }
    }
}

/// The outcome of moving the node with key bytes `k` to the end of the
/// group of nodes with `status` in its sub-bucket, from `old` to `new`:
/// see `Weighted::update`.
pub open spec fn update_outcome<TKey: KadKey, TVal>(
    old: WeightedView<TKey, TVal>,
    new: WeightedView<TKey, TVal>,
    k: Seq<u8>,
    status: NodeStatus,
) -> bool {
    let (i, p) = first_weighted_key(old.subs, k);
    let wn = old.subs[i].nodes[p];
    let mid = old.evicted_at(i, p);
    let li = least_recent_index(old.ws, old.subs, wn.inner.weight);
    let drop = status == NodeStatus::Connected && li >= 0 && old.subs[li].nodes[0].inner.key.key_view() == k;
    let mid2 = if drop { WeightedView { pending: None, ..mid } } else { mid };
    exists|t: Option<Instant>|
        contact_fits(t, status) && new == mid2.with_added(WeightedNode { inner: wn.inner, last_contact_time: t }, status)
}

impl<TKey: KadKey, TVal: Clone> Weighted<TKey, TVal> {
    /// Creates an empty weighted part whose pending nodes become eligible
    /// after `pending_timeout`.
    pub fn new(pending_timeout: Duration) -> (r: Self)
        ensures
            r@.wf(),
            r@.ws == Seq::<u32>::empty(),
            r@.subs == Seq::<SubBucketView<WeightedNode<TKey, TVal>>>::empty(),
            r@.pending is None,
            r@.timeout == pending_timeout,
    {
        let r = Weighted {
            weights: Vec::new(),
            subs: Vec::new(),
            pending: None,
            capacity: W_VALUE,
            pending_timeout,
        };
        proof {
            assert(r@.subs =~= Seq::<SubBucketView<WeightedNode<TKey, TVal>>>::empty());
        }
        r
    }

    /// Finds weight `w`: `Ok` with its index, or `Err` with its place.
    fn find_weight(&self, w: u32) -> (r: Result<usize, usize>)
        requires
            self@.wf(),
        ensures
            match r {
                Ok(i) => i < self@.ws.len() && self@.ws[i as int] == w && i == weight_index(self@.ws, w),
                Err(k) => weight_index(self@.ws, w) == -1 && is_insert_pos(self@.ws, w, k as int)
                    && insert_pos(self@.ws, w) == k,
            },
    {
        proof {
            lemma_weight_index(self@.ws, w);
        }
        let mut i: usize = 0;
        while i < self.weights.len()
            invariant
                self@.wf(),
                0 <= i <= self@.ws.len(),
                forall|j: int| 0 <= j < i ==> self@.ws[j] < w,
            decreases self@.ws.len() - i,
        {
            if self.weights[i] == w {
                return Ok(i);
            }
            if self.weights[i] > w {
                proof {
                    lemma_insert_pos(self@.ws, w, i as int);
                }
                return Err(i);
            }
            i += 1;
        }
        proof {
            lemma_insert_pos(self@.ws, w, i as int);
        }
        Err(i)
    }

    /// Whether the sub-bucket of weight `weight` exists and all its nodes
    /// are connected.
    pub fn all_nodes_connected(&self, weight: u32) -> (r: bool)
        requires
            self@.wf(),
        ensures
            r == (weight_index(self@.ws, weight) >= 0
                && self@.subs[weight_index(self@.ws, weight)].first == Some(0int)),
    {
        match self.find_weight(weight) {
            Ok(i) => self.subs[i].all_nodes_connected(),
            Err(_) => false,
        }
    }

    /// Makes `node` the pending node.
    pub fn set_pending(&mut self, node: PendingNode<TKey, TVal>)
        ensures
            final(self)@ == (WeightedView { pending: Some(node), ..old(self)@ }),
    {
        self.pending = Some(node)
    }

    /// Removes the pending node if its key is `key`.
    pub fn remove_pending(&mut self, key: &TKey) -> (r: Option<PendingNode<TKey, TVal>>)
        ensures
            (old(self)@.pending matches Some(p) && p.node.key.key_view() == key.key_view()) ==> {
                &&& r == old(self)@.pending
                &&& final(self)@ == (WeightedView { pending: None, ..old(self)@ })
            },
            !(old(self)@.pending matches Some(p) && p.node.key.key_view() == key.key_view()) ==> {
                &&& r is None
                &&& final(self)@ == old(self)@
            },
    {
        let matches = match &self.pending {
            Some(p) => p.node.key.key_bytes().same_as(key.key_bytes()),
            None => false,
        };
        if matches {
            self.drop_pending()
        } else {
            None
        }
    }

    /// Whether there is a pending node and its time of insertion has come.
    ///
    /// The answer depends on when the call is made.
    pub fn pending_ready(&self) -> (r: bool)
        ensures
            r ==> self@.pending is Some,
            exists|now: Instant| r == #[trigger] pending_ready_at(self@.pending, now),
    {
        let r = match &self.pending {
            Some(p) => p.is_ready(),
            None => false,
        };
        proof {
            match self@.pending {
                Some(p) => {
                    let now = choose|now: Instant| r == #[trigger] instant_ge(now, p.replace);
                    assert(r == pending_ready_at(self@.pending, now));
                },
                None => {
                    let now: Instant = vstd::pervasive::arbitrary();
                    assert(r == pending_ready_at(self@.pending, now));
                },
            }
        }
        r
    }

    /// Whether there is a pending node whose time of insertion has not come.
    ///
    /// The answer depends on when the call is made.
    pub fn pending_active(&self) -> (r: bool)
        ensures
            r ==> self@.pending is Some,
            exists|now: Instant| r == #[trigger] pending_active_at(self@.pending, now),
    {
        let r = match &self.pending {
            Some(p) => !p.is_ready(),
            None => false,
        };
        proof {
            match self@.pending {
                Some(p) => {
                    let now = choose|now: Instant| !r == #[trigger] instant_ge(now, p.replace);
                    assert(r == pending_active_at(self@.pending, now));
                },
                None => {
                    let now: Instant = vstd::pervasive::arbitrary();
                    assert(r == pending_active_at(self@.pending, now));
                },
            }
        }
        r
    }

    /// Whether there is a pending node.
    pub fn pending_exists(&self) -> (r: bool)
        ensures
            r == self@.pending is Some,
    {
        self.pending.is_some()
    }

    /// The number of nodes in all sub-buckets.
    pub fn num_entries(&self) -> (r: usize)
        requires
            self@.wf(),
        ensures
            r == total_nodes(self@.subs),
    {
        let mut sum: usize = 0;
        let mut i: usize = 0;
        while i < self.subs.len()
            invariant
                self@.wf(),
                0 <= i <= self@.subs.len(),
                sum == total_nodes(self@.subs.take(i as int)),
            decreases self@.subs.len() - i,
        {
            proof {
                lemma_total_prefix(self@.subs, i as int);
                lemma_total_prefix(self@.subs, i as int + 1);
            }
            sum = sum + self.subs[i].nodes.len();
            i += 1;
        }
        proof {
            assert(self@.subs.take(i as int) =~= self@.subs);
        }
        sum
    }

    /// Whether the weighted part holds `W_VALUE` nodes.
    pub fn is_full(&self) -> (r: bool)
        requires
            self@.wf(),
        ensures
            r == self@.full(),
    {
        self.num_entries() >= self.capacity
    }

    /// The least weight of a sub-bucket (possibly an empty one), if any.
    fn min_key(&self) -> (r: Option<u32>)
        requires
            self@.wf(),
        ensures
            self@.ws.len() > 0 ==> r == Some(self@.ws[0]),
            self@.ws.len() == 0 ==> r is None,
    {
        if self.weights.len() > 0 {
            Some(self.weights[0])
        } else {
            None
        }
    }

    /// The index of the first non-empty sub-bucket, if any.
    fn first_nonempty_index(&self) -> (r: Option<usize>)
        requires
            self@.wf(),
        ensures
            match r {
                Some(i) => i as int == first_nonempty(self@.subs) && i < self@.subs.len()
                    && self@.subs[i as int].nodes.len() > 0,
                None => first_nonempty(self@.subs) == -1,
            },
    {
        let mut i: usize = 0;
        while i < self.subs.len()
            invariant
                self@.wf(),
                0 <= i <= self@.subs.len(),
                forall|j: int| 0 <= j < i ==> self@.subs[j].nodes.len() == 0,
            decreases self@.subs.len() - i,
        {
            if self.subs[i].nodes.len() > 0 {
                proof {
                    lemma_first_nonempty(self@.subs, i as int);
                }
                return Some(i);
            }
            i += 1;
        }
        None
    }

    /// The least-recently (dis)connected node of the non-empty sub-bucket of
    /// least weight, if that weight is at most `weight_bound`.
    fn least_recent(&self, weight_bound: u32) -> (r: Option<&WeightedNode<TKey, TVal>>)
        requires
            self@.wf(),
        ensures
            least_recent_index(self@.ws, self@.subs, weight_bound) >= 0 ==> r == Some(
                &self@.subs[least_recent_index(self@.ws, self@.subs, weight_bound)].nodes[0],
            ),
            least_recent_index(self@.ws, self@.subs, weight_bound) < 0 ==> r is None,
            least_recent_index(self@.ws, self@.subs, weight_bound) >= 0 ==> {
                &&& least_recent_index(self@.ws, self@.subs, weight_bound) < self@.subs.len()
                &&& self@.subs[least_recent_index(self@.ws, self@.subs, weight_bound)].nodes.len() > 0
            },
            least_recent_index(self@.ws, self@.subs, weight_bound) >= -1,
    {
        match self.first_nonempty_index() {
            Some(i) => if self.weights[i] <= weight_bound {
                Some(&self.subs[i].nodes[0])
            } else {
                None
            },
            None => None,
        }
    }

    /// Borrows the sub-bucket of weight `weight` mutably, creating it
    /// (empty, full at `W_VALUE` nodes) where it is missing.
    fn get_bucket_mut(&mut self, weight: u32) -> (r: &mut SubBucket<WeightedNode<TKey, TVal>>)
        requires
            old(self)@.wf(),
        ensures
            ({
                let i = weight_index(old(self)@.ws, weight);
                if i >= 0 {
                    &&& r@ == old(self)@.subs[i]
                    &&& final(self)@ == (WeightedView { subs: old(self)@.subs.update(i, final(r)@), ..old(self)@ })
                } else {
                    let k = insert_pos(old(self)@.ws, weight);
                    &&& is_insert_pos(old(self)@.ws, weight, k)
                    &&& r@ == empty_sub::<WeightedNode<TKey, TVal>>()
                    &&& final(self)@ == (WeightedView {
                        ws: old(self)@.ws.insert(k, weight),
                        subs: old(self)@.subs.insert(k, final(r)@),
                        ..old(self)@
                    })
                }
            }),
    {
        match self.find_weight(weight) {
            Ok(i) => {
                let ghost mid = self.subs@;
                assert(forall|x: SubBucket<WeightedNode<TKey, TVal>>| #![trigger mid.update(i as int, x)]
                    mid.update(i as int, x).map_values(|b: SubBucket<WeightedNode<TKey, TVal>>| b@)
                        =~= old(self)@.subs.update(i as int, x@));
                &mut self.subs[i]
            },
            Err(k) => {
                self.weights.insert(k, weight);
                self.subs.insert(k, SubBucket::new(W_VALUE));
                let ghost mid = self.subs@;
                assert(forall|x: SubBucket<WeightedNode<TKey, TVal>>| #![trigger mid.update(k as int, x)]
                    mid.update(k as int, x).map_values(|b: SubBucket<WeightedNode<TKey, TVal>>| b@)
                        =~= old(self)@.subs.insert(k as int, x@));
                &mut self.subs[k]
            },
        }
    }

    /// Removes the pending node.
    fn drop_pending(&mut self) -> (r: Option<PendingNode<TKey, TVal>>)
        ensures
            r == old(self)@.pending,
            final(self)@ == (WeightedView { pending: None, ..old(self)@ }),
    {
        self.pending.take()
    }

    /// Appends `node` as the most-recently connected node of the
    /// sub-bucket of its weight.
    fn append_connected_node(&mut self, node: WeightedNode<TKey, TVal>)
        requires
            old(self)@.wf(),
            !old(self)@.full(),
        ensures
            final(self)@ == old(self)@.with_added(node, NodeStatus::Connected),
            final(self)@.wf(),
    {
        proof {
            lemma_weight_index(old(self)@.ws, node.inner.weight);
        }
        let b = self.get_bucket_mut(node.inner.weight);
        b.append_connected_node(node);
        proof {
            lemma_with_added_wf(old(self)@, node, NodeStatus::Connected);
        }
    }

    /// Inserts `node` as the most-recently disconnected node of the
    /// sub-bucket of its weight.
    fn insert_disconnected_node(&mut self, node: WeightedNode<TKey, TVal>)
        requires
            old(self)@.wf(),
            !old(self)@.full(),
        ensures
            final(self)@ == old(self)@.with_added(node, NodeStatus::Disconnected),
            final(self)@.wf(),
    {
        proof {
            lemma_weight_index(old(self)@.ws, node.inner.weight);
        }
        let b = self.get_bucket_mut(node.inner.weight);
        b.insert_disconnected_node(node);
        proof {
            lemma_with_added_wf(old(self)@, node, NodeStatus::Disconnected);
        }
    }

    /// Evicts the node at `position`, which must be in the weighted part.
    fn evict_node(&mut self, position: WeightedPosition) -> (r: Option<WeightedNode<TKey, TVal>>)
        requires
            old(self)@.wf(),
            weight_index(old(self)@.ws, position.weight) >= 0,
            position.position < old(self)@.subs[weight_index(old(self)@.ws, position.weight)].nodes.len(),
        ensures
            ({
                let i = weight_index(old(self)@.ws, position.weight);
                &&& final(self)@ == old(self)@.evicted_at(i, position.position as int)
                &&& r == Some(old(self)@.subs[i].nodes[position.position as int])
            }),
            final(self)@.wf(),
    {
        proof {
            lemma_evicted_at_wf(old(self)@, weight_index(old(self)@.ws, position.weight), position.position as int);
        }
        let bucket = self.get_bucket_mut(position.weight);
        bucket.evict_node(position.into_position())
    }

    /// Evicts the least-recently (dis)connected node of the non-empty
    /// sub-bucket of least weight, if that weight is at most `weight_bound`.
    fn pop_node(&mut self, weight_bound: u32) -> (r: Option<WeightedNode<TKey, TVal>>)
        requires
            old(self)@.wf(),
        ensures
            final(self)@ == old(self)@.popped(weight_bound),
            final(self)@.wf(),
            ({
                let i = least_recent_index(old(self)@.ws, old(self)@.subs, weight_bound);
                r == (if i >= 0 { Some(old(self)@.subs[i].nodes[0]) } else { None })
            }),
    {
        let weight = match self.least_recent(weight_bound) {
            Some(lr) => lr.inner.weight,
            None => return None,
        };
        proof {
            let i = least_recent_index(old(self)@.ws, old(self)@.subs, weight_bound);
            assert(old(self)@.subs[i].nodes[0].inner.weight == old(self)@.ws[i]);
            lemma_weight_index(old(self)@.ws, weight);
            lemma_evicted_at_wf(old(self)@, i, 0);
        }
        let bucket = self.get_bucket_mut(weight);
        bucket.pop_node()
    }

    /// The position of the first node with key `key`: in the sub-bucket of
    /// least weight holding one, the first such position.
    fn position(&self, key: &TKey) -> (r: Option<WeightedPosition>)
        requires
            self@.wf(),
        ensures
            match r {
                Some(wp) => {
                    &&& weight_index(self@.ws, wp.weight) >= 0
                    &&& is_first_weighted_key(self@.subs, key.key_view(), weight_index(self@.ws, wp.weight), wp.position as int)
                    &&& first_weighted_key(self@.subs, key.key_view()) == (weight_index(self@.ws, wp.weight), wp.position as int)
                },
                None => !has_weighted_key(self@.subs, key.key_view()),
            },
    {
        let kb = key.key_bytes();
        let mut i: usize = 0;
        while i < self.subs.len()
            invariant
                self@.wf(),
                0 <= i <= self@.subs.len(),
                kb@ == key.key_view(),
                forall|j: int, q: int| 0 <= j < i && 0 <= q < self@.subs[j].nodes.len()
                    ==> self@.subs[j].nodes[q].inner.key.key_view() != kb@,
            decreases self@.subs.len() - i,
        {
            match self.subs[i].weighted_key_position(kb) {
                Some(p) => {
                    proof {
                        lemma_weight_index(self@.ws, self@.ws[i as int]);
                        lemma_first_weighted_key(self@.subs, kb@, i as int, p.0 as int);
                    }
                    return Some(WeightedPosition::new(self.weights[i], p));
                },
                None => {},
            }
            i += 1;
        }
        None
    }

    /// Whether `key` is the key of the least-recently (dis)connected node of
    /// weight at most `weight`.
    fn is_least_recently_connected(&self, key: &TKey, weight: u32) -> (r: bool)
        requires
            self@.wf(),
        ensures
            ({
                let i = least_recent_index(self@.ws, self@.subs, weight);
                r == (i >= 0 && self@.subs[i].nodes[0].inner.key.key_view() == key.key_view())
            }),
    {
        match self.least_recent(weight) {
            Some(lr) => lr.inner.key.key_bytes().same_as(key.key_bytes()),
            None => false,
        }
    }

    /// The status of the node at `position`, if its weight has a sub-bucket.
    fn status_of(&self, position: WeightedPosition) -> (r: Option<NodeStatus>)
        requires
            self@.wf(),
        ensures
            ({
                let i = weight_index(self@.ws, position.weight);
                r == (if i >= 0 { Some(self@.subs[i].status_of(position.position as int)) } else { None })
            }),
    {
        match self.find_weight(position.weight) {
            Ok(i) => Some(self.subs[i].status(position.into_position())),
            Err(_) => None,
        }
    }

    /// Inserts `node` with `status`; the node's contact time is set anew.
    ///
    /// A node goes into the sub-bucket of its weight if there is room. If
    /// the weighted part is full, a connected node becomes the pending node,
    /// to be inserted `timeout` after now, when there is none yet, some
    /// sub-bucket has a smaller weight, and the least-recently
    /// (dis)connected node of the non-empty sub-bucket of least weight has
    /// weight at most its own and is disconnected: that node is named for a
    /// connectivity check. `Full` comes back instead where that instant is
    /// not representable. Otherwise the result is `Full` and nothing
    /// changes.
    fn insert_weighted(&mut self, node: WeightedNode<TKey, TVal>, status: NodeStatus) -> (r: InsertResult<TKey>)
        requires
            old(self)@.wf(),
        ensures
            final(self)@.wf(),
            exists|now: Instant| #[trigger] insert_outcome(old(self)@, final(self)@, node.inner, status, r, now),
    {
        let ghost n0 = node.inner;
        let ghost arb: Instant = vstd::pervasive::arbitrary();
        let node = node.update(status);
        match status {
            NodeStatus::Connected => {
                if !self.is_full() {
                    self.append_connected_node(node);
                    assert(insert_outcome(old(self)@, self@, n0, status, InsertResult::Inserted, arb));
                    return InsertResult::Inserted;
                }
                let min_key = match self.min_key() {
                    Some(m) => m,
                    None => {
                        assert(insert_outcome(old(self)@, self@, n0, status, InsertResult::Full, arb));
                        return InsertResult::Full;
                    },
                };
                if min_key < node.inner.weight && !self.pending_exists() {
                    let (least_recent_key, lr_status) = match self.first_nonempty_index() {
                        Some(i) => if self.weights[i] <= node.inner.weight {
                            (self.subs[i].nodes[0].inner.key.clone_key(), self.subs[i].status(Position(0)))
                        } else {
                            assert(insert_outcome(old(self)@, self@, n0, status, InsertResult::Full, arb));
                            return InsertResult::Full;
                        },
                        None => {
                            assert(insert_outcome(old(self)@, self@, n0, status, InsertResult::Full, arb));
                            return InsertResult::Full;
                        },
                    };
                    if lr_status == NodeStatus::Connected {
                        assert(insert_outcome(old(self)@, self@, n0, status, InsertResult::Full, arb));
                        return InsertResult::Full;
                    }
                    let now = instant_now();
                    let deadline = instant_checked_add(now, self.pending_timeout);
                    let replace = match deadline {
                        Some(t) => t,
                        None => {
                            assert(insert_outcome(old(self)@, self@, n0, status, InsertResult::Full, now));
                            return InsertResult::Full;
                        },
                    };
                    self.set_pending(PendingNode { node: node.inner, status, replace });
                    let r = InsertResult::Pending { disconnected: least_recent_key };
                    assert(insert_outcome(old(self)@, self@, n0, status, r, now));
                    r
                } else {
                    assert(insert_outcome(old(self)@, self@, n0, status, InsertResult::Full, arb));
                    InsertResult::Full
                }
            },
            NodeStatus::Disconnected => {
                if !self.is_full() {
                    self.insert_disconnected_node(node);
                    assert(insert_outcome(old(self)@, self@, n0, status, InsertResult::Inserted, arb));
                    InsertResult::Inserted
                } else {
                    assert(insert_outcome(old(self)@, self@, n0, status, InsertResult::Full, arb));
                    InsertResult::Full
                }
            },
        }
    }

    /// Inserts `node` with `status`, as `insert_weighted` says.
    pub fn insert(&mut self, node: Node<TKey, TVal>, status: NodeStatus) -> (r: InsertResult<TKey>)
        requires
            old(self)@.wf(),
        ensures
            final(self)@.wf(),
            exists|now: Instant| #[trigger] insert_outcome(old(self)@, final(self)@, node, status, r, now),
    {
        self.insert_weighted(WeightedNode::from_node(node), status)
    }

    /// Applies the pending node if there is one and its time has come, as
    /// `apply_ready_pending` says.
    ///
    /// Whether the time has come depends on when the call is made.
    pub fn apply_pending(&mut self) -> (r: Option<AppliedPending<TKey, TVal>>)
        requires
            old(self)@.wf(),
        ensures
            final(self)@.wf(),
            final(self)@ == old(self)@ && r is None || apply_outcome(old(self)@, final(self)@, r),
            exists|now: Instant| if #[trigger] pending_ready_at(old(self)@.pending, now) {
                apply_outcome(old(self)@, final(self)@, r)
            } else {
                r is None && final(self)@ == old(self)@
            },
    {
        let ready = self.pending_ready();
        let ghost now = choose|now: Instant| ready == #[trigger] pending_ready_at(old(self)@.pending, now);
        if !ready {
            assert(!pending_ready_at(old(self)@.pending, now));
            return None;
        }
        let r = self.apply_ready_pending();
        assert(pending_ready_at(old(self)@.pending, now));
        r
    }

    /// Applies the pending node, if there is one, whatever the time. If the
    /// weighted part is full, the least-recently (dis)connected node of the
    /// non-empty sub-bucket of least weight is evicted first, if that
    /// weight is at most the pending node's. The pending node is then
    /// inserted with its status; if there is still no room, it is dropped,
    /// and `None` comes back.
    pub fn apply_ready_pending(&mut self) -> (r: Option<AppliedPending<TKey, TVal>>)
        requires
            old(self)@.wf(),
        ensures
            final(self)@.wf(),
            old(self)@.pending is None ==> r is None && final(self)@ == old(self)@,
            old(self)@.pending is Some ==> apply_outcome(old(self)@, final(self)@, r),
    {
        match self.pending.take() {
            None => None,
            Some(p) => {
                let PendingNode { node, status, replace } = p;
                let ghost li = least_recent_index(old(self)@.ws, old(self)@.subs, node.weight);
                proof {
                    lemma_least_recent_index(old(self)@.ws, old(self)@.subs, node.weight);
                    if old(self)@.full() && li >= 0 {
                        lemma_evicted_at_wf(old(self)@, li, 0);
                        lemma_total_prefix(old(self)@.subs, 0);
                    }
                }
                let evicted = if self.is_full() {
                    self.pop_node(node.weight)
                } else {
                    None
                };
                let copy = node.clone_node();
                match self.insert(copy, status) {
                    InsertResult::Inserted => Some(AppliedPending {
                        inserted: node,
                        evicted: match evicted {
                            Some(e) => Some(e.into_node()),
                            None => None,
                        },
                    }),
                    _ => None,
                }
            },
        }
    }

    /// Moves the node with key `key`, if there is one, to the end of the
    /// group of nodes with `new_status` in its sub-bucket, with a new
    /// contact time. The pending node is dropped if the node is now
    /// connected and was the least-recently (dis)connected one of weight at
    /// most its own: the node named for a connectivity check answered.
    ///
    /// Returns whether the node was found.
    pub fn update(&mut self, key: &TKey, new_status: NodeStatus) -> (r: bool)
        requires
            old(self)@.wf(),
        ensures
            final(self)@.wf(),
            r == has_weighted_key(old(self)@.subs, key.key_view()),
            !r ==> final(self)@ == old(self)@,
            r ==> update_outcome(old(self)@, final(self)@, key.key_view(), new_status),
    {
        match self.position(key) {
            Some(pos) => {
                let ghost i = weight_index(old(self)@.ws, pos.weight);
                proof {
                    lemma_evicted_at_wf(old(self)@, i, pos.position as int);
                    lemma_total_prefix(old(self)@.subs, 0);
                }
                let was_least_recent = self.is_least_recently_connected(key, pos.weight);
                let node = match self.evict_node(pos) {
                    Some(n) => n,
                    None => {
                        proof { assert(false); }
                        return true;
                    },
                };
                if was_least_recent && new_status == NodeStatus::Connected {
                    self.drop_pending();
                }
                let _res = self.insert_weighted(node, new_status);
                true
            },
            None => false,
        }
    }

    /// The nodes of the weighted part with their status: the sub-buckets in
    /// increasing order of weight, each in its order.
    pub fn iter(&self) -> (r: Vec<(&Node<TKey, TVal>, NodeStatus)>)
        requires
            self@.wf(),
        ensures
            r@.len() == self@.entries().len(),
            forall|i: int| 0 <= i < r@.len() ==> *(#[trigger] r@[i]).0 == self@.entries()[i].0
                && r@[i].1 == self@.entries()[i].1,
    {
        let mut r: Vec<(&Node<TKey, TVal>, NodeStatus)> = Vec::new();
        let mut i: usize = 0;
        while i < self.subs.len()
            invariant
                self@.wf(),
                0 <= i <= self@.subs.len(),
                r@.len() == weighted_entries(self@.subs.take(i as int)).len(),
                forall|x: int| 0 <= x < r@.len() ==> *(#[trigger] r@[x]).0 == weighted_entries(self@.subs.take(i as int))[x].0
                    && r@[x].1 == weighted_entries(self@.subs.take(i as int))[x].1,
            decreases self@.subs.len() - i,
        {
            let ghost before = weighted_entries(self@.subs.take(i as int));
            let ghost sub = self@.subs[i as int];
            let ghost tail = inner_entries(sub);
            proof {
                assert(self@.subs.take(i as int + 1).drop_last() =~= self@.subs.take(i as int));
                assert(weighted_entries(self@.subs.take(i as int + 1)) == before + tail);
            }
            let b = &self.subs[i];
            let mut j: usize = 0;
            while j < b.nodes.len()
                invariant
                    b@ == sub,
                    tail == inner_entries(sub),
                    0 <= j <= sub.nodes.len(),
                    r@.len() == before.len() + j,
                    tail.len() == sub.nodes.len(),
                    forall|x: int| 0 <= x < before.len() ==> *(#[trigger] r@[x]).0 == before[x].0 && r@[x].1 == before[x].1,
                    forall|x: int| 0 <= x < j ==> *(#[trigger] r@[before.len() + x]).0 == tail[x].0
                        && r@[before.len() + x].1 == tail[x].1,
                decreases sub.nodes.len() - j,
            {
                let ghost old_r = r@;
                proof {
                    assert(sub.entries()[j as int] == (sub.nodes[j as int], status_at(sub.first, j as int)));
                    assert(tail[j as int] == (sub.nodes[j as int].inner, sub.status_of(j as int)));
                }
                r.push((&b.nodes[j].inner, b.status(Position(j))));
                proof {
                    assert forall|x: int| 0 <= x < j + 1 implies *(#[trigger] r@[before.len() + x]).0 == tail[x].0
                        && r@[before.len() + x].1 == tail[x].1 by {
                        if x < j {
                            assert(r@[before.len() + x] == old_r[before.len() + x]);
                        }
                    }
                }
                j += 1;
            }
            proof {
                let after = before + tail;
                assert forall|x: int| 0 <= x < r@.len() implies *(#[trigger] r@[x]).0 == after[x].0 && r@[x].1 == after[x].1 by {
                    if x >= before.len() {
                        assert(r@[before.len() + (x - before.len())] == r@[x]);
                    }
                }
            }
            i += 1;
        }
        proof {
            assert(self@.subs.take(i as int) =~= self@.subs);
        }
        r
    }

    /// The status of the node with key `key`, if there is one.
    pub fn status(&self, key: &TKey) -> (r: Option<NodeStatus>)
        requires
            self@.wf(),
        ensures
            r == (if has_weighted_key(self@.subs, key.key_view()) {
                Some(self@.subs[first_weighted_key(self@.subs, key.key_view()).0].status_of(
                    first_weighted_key(self@.subs, key.key_view()).1,
                ))
            } else {
                None
            }),
    {
        match self.position(key) {
            Some(position) => self.status_of(position),
            None => None,
        }
    }

    /// Sets the status of the pending node if its key is `key`; returns
    /// whether it did.
    pub fn update_pending(&mut self, key: &TKey, status: NodeStatus) -> (r: bool)
        ensures
            r == (old(self)@.pending matches Some(p) && p.node.key.key_view() == key.key_view()),
            r ==> final(self)@ == (WeightedView {
                pending: Some(PendingNode { status, ..old(self)@.pending.unwrap() }),
                ..old(self)@
            }),
            !r ==> final(self)@ == old(self)@,
    {
        match self.pending_mut(key) {
            Some(pending) => {
                pending.status = status;
                true
            },
            None => false,
        }
    }

    /// Borrows the pending node, if any.
    pub fn pending(&self) -> (r: Option<&PendingNode<TKey, TVal>>)
        ensures
            match r {
                Some(p) => self@.pending == Some(*p),
                None => self@.pending is None,
            },
    {
        self.pending.as_ref()
    }

    /// Borrows the pending node mutably if its key is `key`.
    pub fn pending_mut(&mut self, key: &TKey) -> (r: Option<&mut PendingNode<TKey, TVal>>)
        ensures
            (old(self)@.pending matches Some(p) && p.node.key.key_view() == key.key_view()) ==> {
                &&& r is Some
                &&& *r.unwrap() == old(self)@.pending.unwrap()
                &&& final(self)@ == (WeightedView { pending: Some(*final(r.unwrap())), ..old(self)@ })
            },
            !(old(self)@.pending matches Some(p) && p.node.key.key_view() == key.key_view()) ==> {
                &&& r is None
                &&& final(self)@ == old(self)@
            },
    {
        let matches = match &self.pending {
            Some(p) => p.node.key.key_bytes().same_as(key.key_bytes()),
            None => false,
        };
        if matches {
            self.pending.as_mut()
        } else {
            None
        }
    }

    /// Borrows the pending node if its key is `key`.
    pub fn pending_ref(&self, key: &TKey) -> (r: Option<&PendingNode<TKey, TVal>>)
        ensures
            (self@.pending matches Some(p) && p.node.key.key_view() == key.key_view())
                ==> r is Some && *r.unwrap() == self@.pending.unwrap(),
            !(self@.pending matches Some(p) && p.node.key.key_view() == key.key_view()) ==> r is None,
    {
        match &self.pending {
            Some(p) => if p.node.key.key_bytes().same_as(key.key_bytes()) {
                Some(p)
            } else {
                None
            },
            None => None,
        }
    }

    /// Borrows the node with key `key` mutably, if there is one.
    pub fn get_mut(&mut self, key: &TKey) -> (r: Option<&mut Node<TKey, TVal>>)
        requires
            old(self)@.wf(),
        ensures
            has_weighted_key(old(self)@.subs, key.key_view()) ==> {
                let (i, p) = first_weighted_key(old(self)@.subs, key.key_view());
                let wn = old(self)@.subs[i].nodes[p];
                &&& r is Some
                &&& *r.unwrap() == wn.inner
                &&& final(self)@ == (WeightedView {
                    subs: old(self)@.subs.update(i, SubBucketView {
                        nodes: old(self)@.subs[i].nodes.update(p, WeightedNode { inner: *final(r.unwrap()), ..wn }),
                        ..old(self)@.subs[i]
                    }),
                    ..old(self)@
                })
            },
            !has_weighted_key(old(self)@.subs, key.key_view()) ==> r is None && final(self)@ == old(self)@,
    {
        let position = match self.position(key) {
            Some(p) => p,
            None => return None,
        };
        let bucket = self.get_bucket_mut(position.weight);
        match bucket.get_mut(position.into_position()) {
            Some(n) => Some(&mut n.inner),
            None => None,
        }
    }

    /// Removes the node with key `key`, if there is one, and returns it with
    /// the status and position it had in its sub-bucket.
    pub fn remove(&mut self, key: &TKey) -> (r: Option<(Node<TKey, TVal>, NodeStatus, Position)>)
        requires
            old(self)@.wf(),
        ensures
            final(self)@.wf(),
            has_weighted_key(old(self)@.subs, key.key_view()) ==> {
                let (i, p) = first_weighted_key(old(self)@.subs, key.key_view());
                &&& r == Some((old(self)@.subs[i].nodes[p].inner, old(self)@.subs[i].status_of(p), Position(p as usize)))
                &&& final(self)@ == old(self)@.evicted_at(i, p)
            },
            !has_weighted_key(old(self)@.subs, key.key_view()) ==> r is None && final(self)@ == old(self)@,
    {
        let pos = match self.position(key) {
            Some(p) => p,
            None => return None,
        };
        let status = match self.status_of(pos) {
            Some(s) => s,
            None => return None,
        };
        match self.evict_node(pos) {
            Some(node) => Some((node.into_node(), status, pos.into_position())),
            None => None,
        }
    }
}

} // verus!
