//! A list of nodes ordered from the least-recently to the most-recently
//! (dis)connected, with the disconnected nodes before the connected ones.

use vstd::prelude::*;
use std::time::Instant;
use crate::time::{instant_now, instant_not_before, instant_ge};
use crate::kbucket::key::{KadKey, KeyBytes, same_key};

verus! {

/// How the mark of the first connected node moves when a bucket changes.
enum ChangePosition {
    AddDisconnected,
    /// `num_entries`: the number of nodes in the bucket before appending.
    AppendConnected { num_entries: usize },
    RemoveConnected,
    RemoveDisconnected,
}

/// The status of a node in a bucket.
///
/// The status of a node together with the time of its last status change
/// determines the position of the node in a bucket.
#[derive(PartialEq, Eq, Structural, Debug, Copy, Clone)]
pub enum NodeStatus {
    /// The node is considered connected.
    Connected,
    /// The node is considered disconnected.
    Disconnected,
}

/// A `Node` in a bucket: a peer of the DHT with an associated value (e.g.
/// contact information) and a weight.
#[derive(Debug, Clone, PartialEq, Eq)]
pub struct Node<TKey, TVal> {
    /// The key of the node, identifying the peer.
    pub key: TKey,
    /// The associated value.
    pub value: TVal,
    /// The weight of the node; `0` puts it into the unweighted part of a bucket.
    pub weight: u32,
}

/// `b` holds the same node as `a`, its value cloned.
pub open spec fn node_cloned<TKey: KadKey, TVal: Clone>(a: Node<TKey, TVal>, b: Node<TKey, TVal>) -> bool {
    &&& same_key(b.key, a.key)
    &&& b.weight == a.weight
    &&& cloned::<TVal>(a.value, b.value)
}

impl<TKey: KadKey, TVal: Clone> Node<TKey, TVal> {
    /// A copy of the node, its value cloned.
    pub fn clone_node(&self) -> (r: Self)
        ensures
            node_cloned(*self, r),
    {
        Node { key: self.key.clone_key(), value: self.value.clone(), weight: self.weight }
    }
}

/// There is a pending node and its time of insertion has come at `now`.
pub open spec fn pending_ready_at<TKey, TVal>(pending: Option<PendingNode<TKey, TVal>>, now: Instant) -> bool {
    pending matches Some(p) && instant_ge(now, p.replace)
}

/// There is a pending node and its time of insertion has not come at
/// `now`.
pub open spec fn pending_active_at<TKey, TVal>(pending: Option<PendingNode<TKey, TVal>>, now: Instant) -> bool {
    pending matches Some(p) && !instant_ge(now, p.replace)
}

/// At any one instant, a pending node is either still waiting or ready,
/// never both; without a pending node, neither.
pub proof fn lemma_active_or_ready<TKey, TVal>(pending: Option<PendingNode<TKey, TVal>>, now: Instant)
    ensures
        !(pending_active_at(pending, now) && pending_ready_at(pending, now)),
        (pending_active_at(pending, now) || pending_ready_at(pending, now)) == pending is Some,
{
}

/// A node that is pending insertion into a full bucket.
#[derive(Debug)]
pub struct PendingNode<TKey, TVal> {
    /// The pending node to insert.
    pub node: Node<TKey, TVal>,
    /// The status of the pending node.
    pub status: NodeStatus,
    /// The instant at which the pending node is eligible for insertion.
    pub replace: Instant,
}

impl<TKey, TVal> PendingNode<TKey, TVal> {
    /// The key of the pending node.
    pub fn key(&self) -> (r: &TKey)
        ensures
            *r == self.node.key,
    {
        &self.node.key
    }

    /// The status of the pending node.
    pub fn status(&self) -> (r: NodeStatus)
        ensures
            r == self.status,
    {
        self.status
    }

    /// Borrows the value of the pending node mutably.
    pub fn value_mut(&mut self) -> (r: &mut TVal)
        ensures
            *r == old(self).node.value,
            final(self).node.value == *final(r),
            final(self).node.key == old(self).node.key,
            final(self).node.weight == old(self).node.weight,
            final(self).status == old(self).status,
            final(self).replace == old(self).replace,
    {
        &mut self.node.value
    }

    /// Whether the time of insertion has come, i.e. whether the clock reads
    /// no earlier than `replace`.
    ///
    /// The answer depends on when the call is made.
    pub fn is_ready(&self) -> (r: bool)
        ensures
            exists|now: Instant| r == #[trigger] instant_ge(now, self.replace),
    {
        let now = instant_now();
        let r = instant_not_before(&now, &self.replace);
        assert(r == instant_ge(now, self.replace));
        r
    }

    /// Sets the instant at which the pending node becomes eligible.
    pub fn set_ready_at(&mut self, t: Instant)
        ensures
            final(self).replace == t,
            final(self).node == old(self).node,
            final(self).status == old(self).status,
    {
        self.replace = t;
    }

    /// The pending node itself.
    pub fn into_node(self) -> (r: Node<TKey, TVal>)
        ensures
            r == self.node,
    {
        self.node
    }
}

/// The position of a node in a bucket.
#[derive(Copy, Clone, Debug, PartialEq, Eq, Structural)]
pub struct Position(pub usize);

/// A list of nodes, the disconnected ones (from the least-recently to the
/// most-recently disconnected) before the connected ones (from the
/// least-recently to the most-recently connected).
#[derive(Debug)]
pub struct SubBucket<N> {
    /// The nodes, in order.
    pub nodes: Vec<N>,
    /// The position of the first connected node; `None` when no node is
    /// connected.
    pub first_connected_pos: Option<usize>,
    /// The number of nodes at which the bucket counts as full.
    pub capacity: usize,
}

/// The mathematical model of a `SubBucket`.
pub ghost struct SubBucketView<N> {
    /// The nodes, in order.
    pub nodes: Seq<N>,
    /// The position of the first connected node, if any.
    pub first: Option<int>,
    /// The number of nodes at which the bucket counts as full.
    pub capacity: int,
}

/// The status of the node at position `i` of a list whose first connected
/// node is at `first`.
pub open spec fn status_at(first: Option<int>, i: int) -> NodeStatus {
    match first {
        Some(p) => if i >= p { NodeStatus::Connected } else { NodeStatus::Disconnected },
        None => NodeStatus::Disconnected,
    }
}

/// The entries of a list after a node was added with `status`: at the end
/// if it is connected, just before the first connected node otherwise.
pub open spec fn entries_added<N>(es: Seq<(N, NodeStatus)>, num_disconnected: int, node: N, status: NodeStatus) -> Seq<(N, NodeStatus)> {
    match status {
        NodeStatus::Connected => es.push((node, NodeStatus::Connected)),
        NodeStatus::Disconnected => es.insert(num_disconnected, (node, NodeStatus::Disconnected)),
    }
}

/// The number of disconnected nodes of a list after the node at `pos` went.
pub open spec fn num_disconnected_after_removal(num_disconnected: int, pos: int) -> int {
    if pos < num_disconnected { num_disconnected - 1 } else { num_disconnected }
}

impl<N> SubBucketView<N> {
    /// The mark of the first connected node points into the list.
    pub open spec fn wf(self) -> bool {
        match self.first {
            Some(p) => 0 <= p < self.nodes.len(),
            None => true,
        }
    }

    /// The mark of the first connected node is at most the length of the
    /// list: where it equals the length, no node counts as connected.
    pub open spec fn mark_within(self) -> bool {
        match self.first {
            Some(p) => 0 <= p <= self.nodes.len(),
            None => true,
        }
    }

    /// The status of the node at position `i`.
    pub open spec fn status_of(self, i: int) -> NodeStatus {
        status_at(self.first, i)
    }

    /// The nodes with their status, in order.
    pub open spec fn entries(self) -> Seq<(N, NodeStatus)> {
        self.nodes.map(|i: int, n: N| (n, status_at(self.first, i)))
    }

    /// The number of disconnected nodes, which is also the position of the
    /// first connected node.
    pub open spec fn num_disconnected(self) -> int {
        match self.first {
            Some(p) => p,
            None => self.nodes.len() as int,
        }
    }

    /// The number of connected nodes.
    pub open spec fn num_connected(self) -> int {
        self.nodes.len() - self.num_disconnected()
    }

    /// Whether the list holds `capacity` nodes or more.
    pub open spec fn full(self) -> bool {
        self.nodes.len() >= self.capacity
    }

    /// The list with `node` appended as the most-recently connected node.
    pub open spec fn appended(self, node: N) -> Self {
        SubBucketView {
            nodes: self.nodes.push(node),
            first: match self.first {
                Some(p) => Some(p),
                None => Some(self.nodes.len() as int),
            },
            capacity: self.capacity,
        }
    }

    /// The list with `node` inserted as the most-recently disconnected node,
    /// just before the first connected one.
    pub open spec fn inserted(self, node: N) -> Self {
        SubBucketView {
            nodes: self.nodes.insert(self.num_disconnected(), node),
            first: match self.first {
                Some(p) => Some(p + 1),
                None => None,
            },
            capacity: self.capacity,
        }
    }

    /// The list with `node` added with `status`.
    pub open spec fn added(self, node: N, status: NodeStatus) -> Self {
        match status {
            NodeStatus::Connected => self.appended(node),
            NodeStatus::Disconnected => self.inserted(node),
        }
    }

    /// The mark of the first connected node after a node with the status of
    /// position `pos` went: it is dropped with the last connected node, and
    /// moves down by one (but not below zero) with a disconnected node.
    pub open spec fn mark_after_removal(self, pos: int) -> Option<int> {
        match self.status_of(pos) {
            NodeStatus::Connected => if self.num_connected() == 1 { None } else { self.first },
            NodeStatus::Disconnected => match self.first {
                Some(p) => Some(if p >= 1 { p - 1 } else { 0 }),
                None => None,
            },
        }
    }

    /// The list after the node at `pos` was evicted. Where `pos` is past
    /// the end, the nodes stay, but the mark moves all the same.
    pub open spec fn evicted(self, pos: int) -> Self {
        SubBucketView {
            nodes: if 0 <= pos < self.nodes.len() { self.nodes.remove(pos) } else { self.nodes },
            first: self.mark_after_removal(pos),
            capacity: self.capacity,
        }
    }
}

/// Adding a node adds its entry, at the end if it is connected and just
/// before the first connected node otherwise, and leaves the others as they
/// were: the disconnected nodes come before the connected ones, each group
/// in the order of insertion.
pub proof fn lemma_added_entries<N>(v: SubBucketView<N>, node: N, status: NodeStatus)
    requires
        v.wf(),
    ensures
        v.added(node, status).wf(),
        v.added(node, status).entries() == entries_added(v.entries(), v.num_disconnected(), node, status),
        v.added(node, status).num_disconnected() == v.num_disconnected() + (if status == NodeStatus::Disconnected { 1int } else { 0int }),
        v.added(node, status).nodes.len() == v.nodes.len() + 1,
{
    let n = v.added(node, status);
    let o = v.entries();
    let k = v.num_disconnected();
    let e = entries_added(o, k, node, status);
    assert(n.entries().len() == e.len());
    assert forall|i: int| 0 <= i < e.len() implies n.entries()[i] == e[i] by {
        assert(n.entries()[i] == (n.nodes[i], status_at(n.first, i)));
        if status == NodeStatus::Disconnected {
            if i < k {
                assert(e[i] == o[i]);
            } else if i > k {
                assert(e[i] == o[i - 1]);
            }
        } else {
            if i < v.nodes.len() {
                assert(e[i] == o[i]);
            }
        }
    }
    assert(n.entries() =~= e);
}

/// Evicting the node at a valid position removes its entry and leaves the
/// status and order of every other node as they were.
pub proof fn lemma_evicted_entries<N>(v: SubBucketView<N>, pos: int)
    requires
        v.wf(),
        0 <= pos < v.nodes.len(),
    ensures
        v.evicted(pos).wf(),
        v.evicted(pos).entries() == v.entries().remove(pos),
        v.evicted(pos).num_disconnected() == num_disconnected_after_removal(v.num_disconnected(), pos),
        v.evicted(pos).nodes.len() == v.nodes.len() - 1,
{
    assert(v.evicted(pos).entries() =~= v.entries().remove(pos));
}

/// Evicting keeps a list well formed, even from a position past its end.
pub proof fn lemma_evicted_wf<N>(v: SubBucketView<N>, pos: int)
    requires
        v.wf(),
    ensures
        v.evicted(pos).wf(),
{
}

/// The key bytes of the nodes of a list, in order.
pub open spec fn keys_of<TKey: KadKey, TVal>(s: Seq<Node<TKey, TVal>>) -> Seq<Seq<u8>> {
    s.map_values(|n: Node<TKey, TVal>| n.key.key_view())
}

/// `p` is the first position of a node with key bytes `k`.
pub open spec fn is_first_with_key<TKey: KadKey, TVal>(s: Seq<Node<TKey, TVal>>, k: Seq<u8>, p: int) -> bool {
    &&& 0 <= p < s.len()
    &&& s[p].key.key_view() == k
    &&& forall|j: int| 0 <= j < p ==> s[j].key.key_view() != k
}

/// Whether a node with key bytes `k` is in the list.
pub open spec fn has_key<TKey: KadKey, TVal>(s: Seq<Node<TKey, TVal>>, k: Seq<u8>) -> bool {
    exists|i: int| 0 <= i < s.len() && s[i].key.key_view() == k
}

/// The first position of a node with key bytes `k`, or `-1` if there is none.
pub open spec fn key_index<TKey: KadKey, TVal>(s: Seq<Node<TKey, TVal>>, k: Seq<u8>) -> int {
    if has_key(s, k) {
        choose|p: int| is_first_with_key(s, k, p)
    } else {
        -1
    }
}

/// A list that holds key bytes `k` has a first position for them, and it is
/// `key_index`.
pub proof fn lemma_key_index<TKey: KadKey, TVal>(s: Seq<Node<TKey, TVal>>, k: Seq<u8>)
    ensures
        has_key(s, k) ==> is_first_with_key(s, k, key_index(s, k)),
        !has_key(s, k) ==> key_index(s, k) == -1,
        forall|p: int| is_first_with_key(s, k, p) ==> p == key_index(s, k),
    decreases s.len(),
{
    if has_key(s, k) {
        if s[0].key.key_view() == k {
            assert(is_first_with_key(s, k, 0));
        } else {
            let t = s.drop_first();
            let i = choose|i: int| 0 <= i < s.len() && s[i].key.key_view() == k;
            assert(t[i - 1] == s[i]);
            lemma_key_index(t, k);
            let q = key_index(t, k);
            assert forall|j: int| 0 <= j < q + 1 implies s[j].key.key_view() != k by {
                if j > 0 {
                    assert(s[j] == t[j - 1]);
                }
            }
            assert(is_first_with_key(s, k, q + 1));
        }
        assert forall|p: int| is_first_with_key(s, k, p) implies p == key_index(s, k) by {
            let q = key_index(s, k);
            if p < q {
                assert(s[p].key.key_view() != k);
            } else if q < p {
                assert(s[q].key.key_view() != k);
            }
        }
    }
}

impl<N> View for SubBucket<N> {
    type V = SubBucketView<N>;

    open spec fn view(&self) -> SubBucketView<N> {
        SubBucketView {
            nodes: self.nodes@,
            first: match self.first_connected_pos {
                Some(p) => Some(p as int),
                None => None,
            },
            capacity: self.capacity as int,
        }
    }
}

impl<N> SubBucket<N> {
    /// Creates an empty bucket that is full at `capacity` nodes.
    pub fn new(capacity: usize) -> (r: Self)
        ensures
            r@.wf(),
            r@.nodes == Seq::<N>::empty(),
            r@.first is None,
            r@.capacity == capacity,
    {
        SubBucket { nodes: Vec::new(), first_connected_pos: None, capacity }
    }

    /// The status of the node at `pos`.
    pub fn status(&self, pos: Position) -> (r: NodeStatus)
        ensures
            r == self@.status_of(pos.0 as int),
    {
        match self.first_connected_pos {
            Some(i) => if pos.0 >= i { NodeStatus::Connected } else { NodeStatus::Disconnected },
            None => NodeStatus::Disconnected,
        }
    }

    /// The nodes of the bucket together with their status, in order.
    pub fn iter(&self) -> (r: Vec<(&N, NodeStatus)>)
        ensures
            r@.len() == self@.nodes.len(),
            forall|i: int| 0 <= i < r@.len() ==> *(#[trigger] r@[i]).0 == self@.entries()[i].0
                && r@[i].1 == self@.entries()[i].1,
    {
        let mut r: Vec<(&N, NodeStatus)> = Vec::new();
        let mut i: usize = 0;
        while i < self.nodes.len()
            invariant
                0 <= i <= self@.nodes.len(),
                r@.len() == i,
                forall|j: int| 0 <= j < i ==> *(#[trigger] r@[j]).0 == self@.entries()[j].0
                    && r@[j].1 == self@.entries()[j].1,
            decreases self@.nodes.len() - i,
        {
            r.push((&self.nodes[i], self.status(Position(i))));
            i += 1;
        }
        r
    }

    /// Whether the bucket holds `capacity` nodes or more.
    pub fn is_full(&self) -> (r: bool)
        ensures
            r == self@.full(),
    {
        self.nodes.len() >= self.capacity
    }

    /// Whether every node of the bucket is connected (and there is one).
    pub fn all_nodes_connected(&self) -> (r: bool)
        ensures
            r == (self@.first == Some(0int)),
    {
        match self.first_connected_pos {
            Some(p) => p == 0,
            None => false,
        }
    }

    /// Appends a node as the most-recently connected one.
    pub fn append_connected_node(&mut self, node: N)
        requires
            old(self)@.wf(),
        ensures
            final(self)@ == old(self)@.appended(node),
            final(self)@.wf(),
    {
        // The number of entries MUST be calculated BEFORE insertion.
        let num_entries = self.num_entries();
        self.change_connected_pos(ChangePosition::AppendConnected { num_entries });
        self.nodes.push(node);
        proof {
            lemma_added_entries(old(self)@, node, NodeStatus::Connected);
        }
    }

    /// Inserts a node as the most-recently disconnected one, i.e. just
    /// before the first connected node.
    pub fn insert_disconnected_node(&mut self, node: N)
        requires
            old(self)@.wf(),
        ensures
            final(self)@ == old(self)@.inserted(node),
            final(self)@.wf(),
    {
        let current_position = self.first_connected_pos;
        let _len = self.nodes.len();
        self.change_connected_pos(ChangePosition::AddDisconnected);
        match current_position {
            Some(p) => self.nodes.insert(p, node),
            None => self.nodes.push(node),
        }
        proof {
            assert(self.nodes@ =~= old(self)@.nodes.insert(old(self)@.num_disconnected(), node));
            lemma_added_entries(old(self)@, node, NodeStatus::Disconnected);
        }
    }

    /// Moves the mark of the first connected node for a change of the list.
    fn change_connected_pos(&mut self, action: ChangePosition)
        requires
            old(self)@.wf(),
        ensures
            final(self).nodes == old(self).nodes,
            final(self).capacity == old(self).capacity,
            final(self)@.first == (match action {
                ChangePosition::AddDisconnected => match old(self)@.first {
                    Some(p) => Some(p + 1),
                    None => None,
                },
                ChangePosition::AppendConnected { num_entries } => match old(self)@.first {
                    Some(p) => Some(p),
                    None => Some(num_entries as int),
                },
                ChangePosition::RemoveConnected => if old(self)@.num_connected() == 1 {
                    None
                } else {
                    old(self)@.first
                },
                ChangePosition::RemoveDisconnected => match old(self)@.first {
                    Some(p) => Some(if p >= 1 { p - 1 } else { 0 }),
                    None => None,
                },
            }),
    {
        match action {
            ChangePosition::AddDisconnected => {
                let _len = self.nodes.len();
                // A new disconnected node moves the first connected node by one.
                self.first_connected_pos = match self.first_connected_pos {
                    Some(p) => Some(p + 1),
                    None => None,
                };
            },
            ChangePosition::AppendConnected { num_entries } => {
                // Without connected nodes, the appended node is the first one.
                self.first_connected_pos = match self.first_connected_pos {
                    Some(p) => Some(p),
                    None => Some(num_entries),
                };
            },
            ChangePosition::RemoveConnected => {
                if self.num_connected() == 1 {
                    // The last connected node goes.
                    self.first_connected_pos = None;
                }
            },
            ChangePosition::RemoveDisconnected => {
                self.first_connected_pos = match self.first_connected_pos {
                    Some(p) => Some(if p >= 1 { p - 1 } else { 0 }),
                    None => None,
                };
            },
        }
    }

    /// Removes the node at `position`.
    ///
    /// The mark of the first connected node moves as if a node with the
    /// status of `position` were removed, also where `position` is past the
    /// end of the list; the list itself changes only where it is not.
    pub fn evict_node(&mut self, position: Position) -> (r: Option<N>)
        requires
            old(self)@.wf(),
        ensures
            final(self)@ == old(self)@.evicted(position.0 as int),
            final(self)@.wf(),
            r == (if position.0 < old(self)@.nodes.len() {
                Some(old(self)@.nodes[position.0 as int])
            } else {
                None
            }),
    {
        match self.status(position) {
            NodeStatus::Connected => self.change_connected_pos(ChangePosition::RemoveConnected),
            NodeStatus::Disconnected => self.change_connected_pos(ChangePosition::RemoveDisconnected),
        }
        if position.0 >= self.nodes.len() {
            None
        } else {
            Some(self.nodes.remove(position.0))
        }
    }

    /// Removes the least-recently (dis)connected node, if any.
    pub fn pop_node(&mut self) -> (r: Option<N>)
        requires
            old(self)@.wf(),
        ensures
            final(self)@ == old(self)@.evicted(0),
            final(self)@.wf(),
            r == (if old(self)@.nodes.len() > 0 { Some(old(self)@.nodes[0]) } else { None }),
    {
        self.evict_node(Position(0))
    }

    /// The least-recently (dis)connected node, if any.
    pub fn least_recently_connected(&self) -> (r: Option<&N>)
        ensures
            self@.nodes.len() > 0 ==> r == Some(&self@.nodes[0]),
            self@.nodes.len() == 0 ==> r is None,
    {
        if self.nodes.len() > 0 {
            Some(&self.nodes[0])
        } else {
            None
        }
    }

    /// Whether `pos` is the position of the least-recently (dis)connected node.
    pub fn is_least_recently_connected(&self, pos: Position) -> (r: bool)
        ensures
            r == (pos.0 == 0),
    {
        pos.0 == 0
    }

    /// Whether the node at `pos` counts as connected.
    pub fn is_connected(&self, pos: Position) -> (r: bool)
        ensures
            r == (self@.status_of(pos.0 as int) == NodeStatus::Connected),
    {
        self.status(pos) == NodeStatus::Connected
    }

    /// The number of nodes in the bucket.
    pub fn num_entries(&self) -> (r: usize)
        ensures
            r == self@.nodes.len(),
    {
        self.nodes.len()
    }

    /// The number of connected nodes in the bucket.
    pub fn num_connected(&self) -> (r: usize)
        requires
            self@.mark_within(),
        ensures
            r == self@.num_connected(),
    {
        match self.first_connected_pos {
            Some(i) => self.num_entries() - i,
            None => 0,
        }
    }

    /// The number of disconnected nodes in the bucket.
    pub fn num_disconnected(&self) -> (r: usize)
        requires
            self@.mark_within(),
        ensures
            r == self@.num_disconnected(),
    {
        self.num_entries() - self.num_connected()
    }

    /// The position of the first node for which `pred` holds.
    pub fn position<P: Fn(&N) -> bool>(&self, pred: P) -> (r: Option<Position>)
        requires
            forall|n: &N| pred.requires((n,)),
        ensures
            match r {
                Some(p) => {
                    &&& p.0 < self@.nodes.len()
                    &&& pred.ensures((&self@.nodes[p.0 as int],), true)
                    &&& forall|j: int| 0 <= j < p.0 ==> pred.ensures((&self@.nodes[j],), false)
                },
                None => forall|j: int| 0 <= j < self@.nodes.len() ==> pred.ensures((&self@.nodes[j],), false),
            },
    {
        let mut i: usize = 0;
        while i < self.nodes.len()
            invariant
                0 <= i <= self@.nodes.len(),
                forall|n: &N| pred.requires((n,)),
                forall|j: int| 0 <= j < i ==> pred.ensures((&self@.nodes[j],), false),
            decreases self@.nodes.len() - i,
        {
            let b = pred(&self.nodes[i]);
            if b {
                return Some(Position(i));
            }
            i += 1;
        }
        None
    }

    /// Borrows the node at `position` mutably.
    pub fn get_mut(&mut self, position: Position) -> (r: Option<&mut N>)
        ensures
            position.0 < old(self)@.nodes.len() ==> {
                &&& r is Some
                &&& *r.unwrap() == old(self)@.nodes[position.0 as int]
                &&& final(self)@ == (SubBucketView {
                    nodes: old(self)@.nodes.update(position.0 as int, *final(r.unwrap())),
                    ..old(self)@
                })
            },
            position.0 >= old(self)@.nodes.len() ==> r is None && final(self)@ == old(self)@,
    {
        if position.0 < self.nodes.len() {
            Some(&mut self.nodes[position.0])
        } else {
            None
        }
    }
}

impl<TKey: KadKey, TVal> SubBucket<Node<TKey, TVal>> {
    /// The position of the first node with key bytes `kb`.
    pub fn key_position(&self, kb: &KeyBytes) -> (r: Option<Position>)
        ensures
            match r {
                Some(p) => is_first_with_key(self@.nodes, kb@, p.0 as int),
                None => !has_key(self@.nodes, kb@),
            },
    {
        let mut i: usize = 0;
        while i < self.nodes.len()
            invariant
                0 <= i <= self@.nodes.len(),
                forall|j: int| 0 <= j < i ==> self@.nodes[j].key.key_view() != kb@,
            decreases self@.nodes.len() - i,
        {
            if self.nodes[i].key.key_bytes().same_as(kb) {
                return Some(Position(i));
            }
            i += 1;
        }
        None
    }
}

} // verus!
