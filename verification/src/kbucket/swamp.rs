//! The unweighted part of a bucket: at most `K_VALUE` nodes and one
//! pending node.

use vstd::prelude::*;
use std::time::{Duration, Instant};
use crate::K_VALUE;
use crate::time::{instant_now, instant_checked_add, instant_ge, instant_plus};
use crate::kbucket::key::KadKey;
use crate::kbucket::bucket::{AppliedPending, InsertResult, names_for_check, swamp_insert_outcome};
use crate::kbucket::sub_bucket::{
    pending_ready_at, pending_active_at, Node, NodeStatus, PendingNode, Position, SubBucket, SubBucketView, node_cloned, has_key,
    key_index, lemma_key_index, is_first_with_key, lemma_added_entries, lemma_evicted_entries,
    lemma_evicted_wf,
};

verus! {

/// The unweighted part of a bucket.
#[derive(Debug)]
pub struct Swamp<TKey, TVal> {
    bucket: SubBucket<Node<TKey, TVal>>,
    pending: Option<PendingNode<TKey, TVal>>,
    pending_timeout: Duration,
}

/// The mathematical model of a `Swamp`.
pub ghost struct SwampView<TKey, TVal> {
    /// The nodes, with the mark of the first connected one.
    pub bucket: SubBucketView<Node<TKey, TVal>>,
    /// The pending node, if any.
    pub pending: Option<PendingNode<TKey, TVal>>,
    /// The timeout after which a pending node becomes eligible.
    pub timeout: Duration,
}

/// The list of a bucket after its pending node, a `node` with `status`, was
/// applied: the least-recently (dis)connected node is evicted if the list
/// is full, and `node` is added with `status`.
pub open spec fn bucket_after_apply<N>(b: SubBucketView<N>, node: N, status: NodeStatus) -> SubBucketView<N> {
    (if b.full() { b.evicted(0) } else { b }).added(node, status)
}

impl<TKey, TVal> SwampView<TKey, TVal> {
    /// The list is well formed, full at `K_VALUE` nodes and holds no more.
    pub open spec fn wf(self) -> bool {
        &&& self.bucket.wf()
        &&& self.bucket.capacity == K_VALUE
        &&& self.bucket.nodes.len() <= K_VALUE
    }

    /// Whether the swamp holds `K_VALUE` nodes.
    pub open spec fn full(self) -> bool {
        self.bucket.full()
    }
}

impl<TKey, TVal> View for Swamp<TKey, TVal> {
    type V = SwampView<TKey, TVal>;

    closed spec fn view(&self) -> SwampView<TKey, TVal> {
        SwampView { bucket: self.bucket@, pending: self.pending, timeout: self.pending_timeout }
    }
}

impl<TKey: KadKey, TVal: Clone> Swamp<TKey, TVal> {
    /// Creates an empty swamp whose pending nodes become eligible after
    /// `pending_timeout`.
    pub fn new(pending_timeout: Duration) -> (r: Self)
        ensures
            r@.wf(),
            r@.bucket.nodes == Seq::<Node<TKey, TVal>>::empty(),
            r@.bucket.first is None,
            r@.pending is None,
            r@.timeout == pending_timeout,
    {
        Swamp { bucket: SubBucket::new(K_VALUE), pending: None, pending_timeout }
    }

    /// Makes `node` the pending node.
    pub fn set_pending(&mut self, node: PendingNode<TKey, TVal>)
        ensures
            final(self)@ == (SwampView { pending: Some(node), ..old(self)@ }),
    {
        self.pending = Some(node)
    }

    /// Removes the pending node if its key is `key`.
    pub fn remove_pending(&mut self, key: &TKey) -> (r: Option<PendingNode<TKey, TVal>>)
        ensures
            (old(self)@.pending matches Some(p) && p.node.key.key_view() == key.key_view()) ==> {
                &&& r == old(self)@.pending
                &&& final(self)@ == (SwampView { pending: None, ..old(self)@ })
            },
            !(old(self)@.pending matches Some(p) && p.node.key.key_view() == key.key_view()) ==> {
                &&& r is None
                &&& final(self)@ == old(self)@
            },
    {
        let matches = match &self.pending {
            Some(p) => p.node.key.key_bytes().same_as(key.key_bytes()),
            None => false,
        };
        if matches {
            self.drop_pending()
        } else {
            None
        }
    }

    /// Removes the pending node.
    pub fn drop_pending(&mut self) -> (r: Option<PendingNode<TKey, TVal>>)
        ensures
            r == old(self)@.pending,
            final(self)@ == (SwampView { pending: None, ..old(self)@ }),
    {
        self.pending.take()
    }

    /// Whether there is a pending node and its time of insertion has come.
    ///
    /// The answer depends on when the call is made.
    pub fn pending_ready(&self) -> (r: bool)
        ensures
            r ==> self@.pending is Some,
            exists|now: Instant| r == #[trigger] pending_ready_at(self@.pending, now),
    {
        let r = match &self.pending {
            Some(p) => p.is_ready(),
            None => false,
        };
        proof {
            match self@.pending {
                Some(p) => {
                    let now = choose|now: Instant| r == #[trigger] instant_ge(now, p.replace);
                    assert(r == pending_ready_at(self@.pending, now));
                },
                None => {
                    let now: Instant = vstd::pervasive::arbitrary();
                    assert(r == pending_ready_at(self@.pending, now));
                },
            }
        }
        r
    }

    /// Whether there is a pending node whose time of insertion has not come.
    ///
    /// The answer depends on when the call is made.
    pub fn pending_active(&self) -> (r: bool)
        ensures
            r ==> self@.pending is Some,
            exists|now: Instant| r == #[trigger] pending_active_at(self@.pending, now),
    {
        let r = match &self.pending {
            Some(p) => !p.is_ready(),
            None => false,
        };
        proof {
            match self@.pending {
                Some(p) => {
                    let now = choose|now: Instant| !r == #[trigger] instant_ge(now, p.replace);
                    assert(r == pending_active_at(self@.pending, now));
                },
                None => {
                    let now: Instant = vstd::pervasive::arbitrary();
                    assert(r == pending_active_at(self@.pending, now));
                },
            }
        }
        r
    }

    /// Whether there is a pending node.
    pub fn pending_exists(&self) -> (r: bool)
        ensures
            r == self@.pending is Some,
    {
        self.pending.is_some()
    }

    /// Inserts `node` with `status`.
    ///
    /// A connected node goes to the end of the list if there is room. If the
    /// swamp is full, not all of its nodes are connected and there is no
    /// pending node, it becomes the pending node, to be inserted `timeout`
    /// after now, and the least-recently (dis)connected node, which is
    /// disconnected, is named for a connectivity check; `Full` comes back
    /// instead where that instant is not representable. A disconnected node
    /// goes just before the first connected one if there is room. Otherwise
    /// the result is `Full` and nothing changes.
    pub fn insert(&mut self, node: Node<TKey, TVal>, status: NodeStatus) -> (r: InsertResult<TKey>)
        requires
            old(self)@.wf(),
        ensures
            final(self)@.wf(),
            exists|now: Instant| #[trigger] swamp_insert_outcome(old(self)@, final(self)@, node, status, r, now),
    {
        let ghost gnode = node;
        match status {
            NodeStatus::Connected => {
                if self.is_full() {
                    if self.bucket.all_nodes_connected() || self.pending_exists() {
                        let ghost now: Instant = vstd::pervasive::arbitrary();
                        assert(swamp_insert_outcome(old(self)@, self@, gnode, status, InsertResult::Full, now));
                        return InsertResult::Full;
                    }
                    let now = instant_now();
                    let deadline = instant_checked_add(now, self.pending_timeout);
                    let replace = match deadline {
                        Some(t) => t,
                        None => {
                            assert(swamp_insert_outcome(old(self)@, self@, gnode, status, InsertResult::Full, now));
                            return InsertResult::Full;
                        },
                    };
                    let disconnected = match self.bucket.least_recently_connected() {
                        Some(least_recent) => least_recent.key.clone_key(),
                        None => {
                            proof {
                                assert(false);
                            }
                            return InsertResult::Full;
                        },
                    };
                    self.set_pending(PendingNode { node, status: NodeStatus::Connected, replace });
                    let r = InsertResult::Pending { disconnected };
                    assert(swamp_insert_outcome(old(self)@, self@, gnode, status, r, now));
                    return r;
                }
                self.bucket.append_connected_node(node);
                let ghost now: Instant = vstd::pervasive::arbitrary();
                assert(swamp_insert_outcome(old(self)@, self@, gnode, status, InsertResult::Inserted, now));
                InsertResult::Inserted
            },
            NodeStatus::Disconnected => {
                let ghost now: Instant = vstd::pervasive::arbitrary();
                if self.is_full() {
                    assert(swamp_insert_outcome(old(self)@, self@, gnode, status, InsertResult::Full, now));
                    return InsertResult::Full;
                }
                self.bucket.insert_disconnected_node(node);
                assert(swamp_insert_outcome(old(self)@, self@, gnode, status, InsertResult::Inserted, now));
                InsertResult::Inserted
            },
        }
    }

    /// Applies the pending node if there is one and its time has come: the
    /// least-recently (dis)connected node is evicted if the swamp is full,
    /// and the pending node is inserted with its status.
    ///
    /// Whether the time has come depends on when the call is made.
    pub fn apply_pending(&mut self) -> (r: Option<AppliedPending<TKey, TVal>>)
        requires
            old(self)@.wf(),
        ensures
            final(self)@.wf(),
            r is None ==> final(self)@ == old(self)@,
            r is Some ==> applied(old(self)@, final(self)@, r),
            exists|now: Instant| if #[trigger] pending_ready_at(old(self)@.pending, now) {
                applied(old(self)@, final(self)@, r)
            } else {
                r is None && final(self)@ == old(self)@
            },
    {
        let ready = self.pending_ready();
        let ghost now = choose|now: Instant| ready == #[trigger] pending_ready_at(old(self)@.pending, now);
        if !ready {
            assert(!pending_ready_at(old(self)@.pending, now));
            return None;
        }
        let r = self.apply_ready_pending();
        assert(pending_ready_at(old(self)@.pending, now));
        r
    }

    /// Applies the pending node, if there is one, whatever the time: the
    /// least-recently (dis)connected node is evicted if the swamp is full,
    /// and the pending node is inserted with its status.
    pub fn apply_ready_pending(&mut self) -> (r: Option<AppliedPending<TKey, TVal>>)
        requires
            old(self)@.wf(),
        ensures
            final(self)@.wf(),
            old(self)@.pending is None ==> r is None && final(self)@ == old(self)@,
            old(self)@.pending is Some ==> applied(old(self)@, final(self)@, r),
    {
        match self.pending.take() {
            None => None,
            Some(p) => {
                let PendingNode { node, status, replace } = p;
                let evicted = if self.is_full() {
                    proof {
                        lemma_evicted_entries(self.bucket@, 0);
                    }
                    self.bucket.pop_node()
                } else {
                    None
                };
                let copy = node.clone_node();
                let _res = self.insert(copy, status);
                Some(AppliedPending { inserted: node, evicted })
            },
        }
    }

    /// Moves the node with key `key`, if there is one, to the end of the
    /// group of nodes with `new_status` (the most-recently connected or the
    /// most-recently disconnected node). If it was the least-recently
    /// (dis)connected node and is now connected, the pending node is dropped.
    ///
    /// Returns whether the node was found.
    pub fn update(&mut self, key: &TKey, new_status: NodeStatus) -> (r: bool)
        requires
            old(self)@.wf(),
        ensures
            final(self)@.wf(),
            r == has_key(old(self)@.bucket.nodes, key.key_view()),
            !r ==> final(self)@ == old(self)@,
            r ==> {
                let p = key_index(old(self)@.bucket.nodes, key.key_view());
                final(self)@ == (SwampView {
                    bucket: old(self)@.bucket.evicted(p).added(old(self)@.bucket.nodes[p], new_status),
                    pending: if p == 0 && new_status == NodeStatus::Connected {
                        None
                    } else {
                        old(self)@.pending
                    },
                    timeout: old(self)@.timeout,
                })
            },
    {
        let pos = self.bucket.key_position(key.key_bytes());
        proof {
            lemma_key_index(old(self)@.bucket.nodes, key.key_view());
        }
        match pos {
            Some(pos) => {
                proof {
                    lemma_evicted_entries(old(self)@.bucket, pos.0 as int);
                }
                let node = match self.bucket.evict_node(pos) {
                    Some(n) => n,
                    None => {
                        proof { assert(false); }
                        return true;
                    },
                };
                if self.bucket.is_least_recently_connected(pos) && new_status == NodeStatus::Connected {
                    self.drop_pending();
                }
                let _res = self.insert(node, new_status);
                true
            },
            None => false,
        }
    }

    /// The nodes of the swamp with their status, in order.
    pub fn iter(&self) -> (r: Vec<(&Node<TKey, TVal>, NodeStatus)>)
        ensures
            r@.len() == self@.bucket.nodes.len(),
            forall|i: int| 0 <= i < r@.len() ==> *(#[trigger] r@[i]).0 == self@.bucket.entries()[i].0
                && r@[i].1 == self@.bucket.entries()[i].1,
    {
        self.bucket.iter()
    }

    /// The number of nodes in the swamp.
    pub fn num_entries(&self) -> (r: usize)
        ensures
            r == self@.bucket.nodes.len(),
    {
        self.bucket.nodes.len()
    }

    /// Whether the swamp holds `K_VALUE` nodes.
    pub fn is_full(&self) -> (r: bool)
        ensures
            r == self@.full(),
    {
        self.bucket.is_full()
    }

    /// The status of the node with key `key`, if there is one.
    pub fn status(&self, key: &TKey) -> (r: Option<NodeStatus>)
        ensures
            r == (if has_key(self@.bucket.nodes, key.key_view()) {
                Some(self@.bucket.status_of(key_index(self@.bucket.nodes, key.key_view())))
            } else {
                None
            }),
    {
        let pos = self.bucket.key_position(key.key_bytes());
        proof {
            lemma_key_index(self@.bucket.nodes, key.key_view());
        }
        match pos {
            Some(p) => Some(self.bucket.status(p)),
            None => None,
        }
    }

    /// Sets the status of the pending node if its key is `key`; returns
    /// whether it did.
    pub fn update_pending(&mut self, key: &TKey, status: NodeStatus) -> (r: bool)
        ensures
            r == (old(self)@.pending matches Some(p) && p.node.key.key_view() == key.key_view()),
            r ==> final(self)@ == (SwampView {
                pending: Some(PendingNode { status, ..old(self)@.pending.unwrap() }),
                ..old(self)@
            }),
            !r ==> final(self)@ == old(self)@,
    {
        match self.pending_mut(key) {
            Some(pending) => {
                pending.status = status;
                true
            },
            None => false,
        }
    }

    /// Borrows the pending node, if any.
    pub fn pending(&self) -> (r: Option<&PendingNode<TKey, TVal>>)
        ensures
            match r {
                Some(p) => self@.pending == Some(*p),
                None => self@.pending is None,
            },
    {
        self.pending.as_ref()
    }

    /// Borrows the pending node mutably if its key is `key`.
    pub fn pending_mut(&mut self, key: &TKey) -> (r: Option<&mut PendingNode<TKey, TVal>>)
        ensures
            (old(self)@.pending matches Some(p) && p.node.key.key_view() == key.key_view()) ==> {
                &&& r is Some
                &&& *r.unwrap() == old(self)@.pending.unwrap()
                &&& final(self)@ == (SwampView { pending: Some(*final(r.unwrap())), ..old(self)@ })
            },
            !(old(self)@.pending matches Some(p) && p.node.key.key_view() == key.key_view()) ==> {
                &&& r is None
                &&& final(self)@ == old(self)@
            },
    {
        let matches = match &self.pending {
            Some(p) => p.node.key.key_bytes().same_as(key.key_bytes()),
            None => false,
        };
        if matches {
            self.pending.as_mut()
        } else {
            None
        }
    }

    /// Borrows the pending node if its key is `key`.
    pub fn pending_ref(&self, key: &TKey) -> (r: Option<&PendingNode<TKey, TVal>>)
        ensures
            (self@.pending matches Some(p) && p.node.key.key_view() == key.key_view())
                ==> r is Some && *r.unwrap() == self@.pending.unwrap(),
            !(self@.pending matches Some(p) && p.node.key.key_view() == key.key_view()) ==> r is None,
    {
        match &self.pending {
            Some(p) => if p.node.key.key_bytes().same_as(key.key_bytes()) {
                Some(p)
            } else {
                None
            },
            None => None,
        }
    }

    /// Borrows the node with key `key` mutably, if there is one.
    pub fn get_mut(&mut self, key: &TKey) -> (r: Option<&mut Node<TKey, TVal>>)
        ensures
            has_key(old(self)@.bucket.nodes, key.key_view()) ==> {
                let p = key_index(old(self)@.bucket.nodes, key.key_view());
                &&& r is Some
                &&& *r.unwrap() == old(self)@.bucket.nodes[p]
                &&& final(self)@ == (SwampView {
                    bucket: SubBucketView {
                        nodes: old(self)@.bucket.nodes.update(p, *final(r.unwrap())),
                        ..old(self)@.bucket
                    },
                    ..old(self)@
                })
            },
            !has_key(old(self)@.bucket.nodes, key.key_view()) ==> r is None && final(self)@ == old(self)@,
    {
        let pos = self.bucket.key_position(key.key_bytes());
        proof {
            lemma_key_index(old(self)@.bucket.nodes, key.key_view());
        }
        match pos {
            Some(p) => self.bucket.get_mut(p),
            None => None,
        }
    }

    /// Removes the node with key `key`, if there is one, and returns it with
    /// the status and position it had.
    pub fn remove(&mut self, key: &TKey) -> (r: Option<(Node<TKey, TVal>, NodeStatus, Position)>)
        requires
            old(self)@.wf(),
        ensures
            final(self)@.wf(),
            has_key(old(self)@.bucket.nodes, key.key_view()) ==> {
                let p = key_index(old(self)@.bucket.nodes, key.key_view());
                &&& r == Some((old(self)@.bucket.nodes[p], old(self)@.bucket.status_of(p), Position(p as usize)))
                &&& final(self)@ == (SwampView { bucket: old(self)@.bucket.evicted(p), ..old(self)@ })
            },
            !has_key(old(self)@.bucket.nodes, key.key_view()) ==> r is None && final(self)@ == old(self)@,
    {
        let pos = self.bucket.key_position(key.key_bytes());
        proof {
            lemma_key_index(old(self)@.bucket.nodes, key.key_view());
        }
        match pos {
            Some(pos) => {
                let status = self.bucket.status(pos);
                proof {
                    lemma_evicted_entries(old(self)@.bucket, pos.0 as int);
                }
                match self.bucket.evict_node(pos) {
                    Some(node) => Some((node, status, pos)),
                    None => {
                        proof { assert(false); }
                        None
                    },
                }
            },
            None => None,
        }
    }
}

/// `new` is `old` after its pending node was applied, with the result `r`:
/// the least-recently (dis)connected node was evicted if the swamp was
/// full, a copy of the pending node was added with its status, and `r`
/// holds the pending node itself and the evicted node.
pub open spec fn applied<TKey: KadKey, TVal: Clone>(
    old: SwampView<TKey, TVal>,
    new: SwampView<TKey, TVal>,
    r: Option<AppliedPending<TKey, TVal>>,
) -> bool {
    &&& old.pending matches Some(p)
    &&& r matches Some(a)
    &&& a.inserted == p.node
    &&& a.evicted == (if old.full() { Some(old.bucket.nodes[0]) } else { None })
    &&& exists|c: Node<TKey, TVal>| #[trigger] node_cloned(p.node, c) && new == (SwampView {
        bucket: bucket_after_apply(old.bucket, c, p.status),
        pending: None,
        timeout: old.timeout,
    })
}

} // verus!
