//! A single bucket of the routing table: a weighted part and an unweighted
//! part ("swamp"), each with at most one pending node.

use vstd::prelude::*;
use std::time::Duration;
use crate::kbucket::key::{KadKey, same_key};
use crate::kbucket::sub_bucket::{Node, NodeStatus, PendingNode, SubBucketView, has_key, key_index, pending_ready_at, pending_active_at};
use std::time::Instant;
use crate::time::instant_plus;
use crate::addresses::Addresses;
use crate::kbucket::swamp::{Swamp, SwampView};
use crate::kbucket::weighted::{
    Weighted, WeightedView, WeightedNode, has_weighted_key, first_weighted_key, insert_outcome,
    apply_outcome, update_outcome,
};

verus! {

/// The result of inserting an entry into a bucket.
#[derive(Debug, Clone, PartialEq, Eq)]
pub enum InsertResult<TKey> {
    /// The entry has been inserted.
    Inserted,
    /// The entry is pending insertion because the bucket is full. It is
    /// inserted after a timeout, unless the node named here, the
    /// least-recently connected one, is reported connected before.
    Pending {
        /// The key of the node whose peer should be checked for connectivity.
        disconnected: TKey,
    },
    /// The entry was not inserted because the bucket is full.
    Full,
}

impl<TKey> InsertResult<TKey> {
    /// The name of the variant, as it is displayed.
    pub fn description(&self) -> (r: &'static str)
        ensures
            r@ == (match *self {
                InsertResult::Inserted => "InsertResult::Inserted"@,
                InsertResult::Pending { .. } => "InsertResult::Pending"@,
                InsertResult::Full => "InsertResult::Full"@,
            }),
    {
        match self {
            InsertResult::Inserted => "InsertResult::Inserted",
            InsertResult::Pending { .. } => "InsertResult::Pending",
            InsertResult::Full => "InsertResult::Full",
        }
    }
}

/// The result of applying a pending node to a bucket, possibly replacing an
/// existing node.
#[derive(Debug, Clone, PartialEq, Eq)]
pub struct AppliedPending<TKey, TVal> {
    /// The inserted pending node.
    pub inserted: Node<TKey, TVal>,
    /// The node evicted to make room for it, if any.
    pub evicted: Option<Node<TKey, TVal>>,
}

/// `r` is `Pending` and names a copy of `k` for a connectivity check.
pub open spec fn names_for_check<TKey: KadKey>(r: InsertResult<TKey>, k: TKey) -> bool {
    &&& r is Pending
    &&& same_key(r->disconnected, k)
}

/// A bucket of the routing table: nodes of weight zero go to its swamp,
/// the others to its weighted part.
#[derive(Debug)]
pub struct KBucket<TKey, TVal> {
    swamp: Swamp<TKey, TVal>,
    weighted: Weighted<TKey, TVal>,
    pending_timeout: Duration,
}

/// The mathematical model of a `KBucket`.
pub ghost struct KBucketView<TKey, TVal> {
    /// The unweighted part.
    pub swamp: SwampView<TKey, TVal>,
    /// The weighted part.
    pub weighted: WeightedView<TKey, TVal>,
    /// The timeout after which pending nodes become eligible.
    pub timeout: Duration,
}

impl<TKey, TVal> KBucketView<TKey, TVal> {
    /// Both parts are well formed.
    pub open spec fn wf(self) -> bool {
        self.swamp.wf() && self.weighted.wf()
    }

    /// The nodes with their status: the weighted ones first, then those of
    /// the swamp.
    pub open spec fn entries(self) -> Seq<(Node<TKey, TVal>, NodeStatus)> {
        self.weighted.entries() + self.swamp.bucket.entries()
    }

    /// The number of nodes.
    pub open spec fn num_entries(self) -> int {
        (self.weighted.entries().len() + self.swamp.bucket.nodes.len()) as int
    }
}

impl<TKey, TVal> View for KBucket<TKey, TVal> {
    type V = KBucketView<TKey, TVal>;

    closed spec fn view(&self) -> KBucketView<TKey, TVal> {
        KBucketView { swamp: self.swamp@, weighted: self.weighted@, timeout: self.pending_timeout }
    }
}

/// The pending nodes of a bucket: that of the weighted part first.
pub open spec fn pendings<TKey, TVal>(v: KBucketView<TKey, TVal>) -> Seq<PendingNode<TKey, TVal>> {
    (match v.weighted.pending {
        Some(p) => seq![p],
        None => Seq::empty(),
    }) + (match v.swamp.pending {
        Some(p) => seq![p],
        None => Seq::empty(),
    })
}

impl<TKey: KadKey, TVal: Clone> KBucket<TKey, TVal> {
    /// Creates an empty bucket whose pending nodes become eligible after
    /// `pending_timeout`.
    pub fn new(pending_timeout: Duration) -> (r: Self)
        ensures
            r@.wf(),
            r@.swamp.bucket.nodes.len() == 0,
            r@.swamp.bucket.first is None,
            r@.swamp.pending is None,
            r@.weighted.ws.len() == 0,
            r@.weighted.subs.len() == 0,
            r@.weighted.pending is None,
            r@.timeout == pending_timeout,
            r@.swamp.timeout == pending_timeout,
            r@.weighted.timeout == pending_timeout,
            crate::kbucket::placement::partitioned(r@),
    {
        KBucket {
            swamp: Swamp::new(pending_timeout),
            weighted: Weighted::new(pending_timeout),
            pending_timeout,
        }
    }

    /// Whether a part has a pending node whose time of insertion has not
    /// come.
    ///
    /// The answer depends on when the call is made.
    pub fn has_pending(&self) -> (r: bool)
        ensures
            r ==> self@.weighted.pending is Some || self@.swamp.pending is Some,
            has_pending_at(self@, r),
    {
        let a = self.pending_active(true);
        let b = self.pending_active(false);
        proof {
            let nw = choose|now: Instant| a == #[trigger] pending_active_at(part_pending(self@, true), now);
            let ns = choose|now: Instant| b == #[trigger] pending_active_at(part_pending(self@, false), now);
            assert(a == pending_active_at(self@.weighted.pending, nw) && b == pending_active_at(self@.swamp.pending, ns));
        }
        a || b
    }

    /// Whether a part has a pending node.
    pub fn pending_exists(&self) -> (r: bool)
        ensures
            r == (self@.weighted.pending is Some || self@.swamp.pending is Some),
    {
        self.weighted.pending_exists() || self.swamp.pending_exists()
    }

    /// The pending nodes of the bucket: that of the weighted part first.
    pub fn pending(&self) -> (r: Vec<&PendingNode<TKey, TVal>>)
        ensures
            r@.len() == pendings(self@).len(),
            forall|i: int| 0 <= i < r@.len() ==> *(#[trigger] r@[i]) == pendings(self@)[i],
    {
        let mut r: Vec<&PendingNode<TKey, TVal>> = Vec::new();
        match self.weighted.pending() {
            Some(p) => r.push(p),
            None => {},
        }
        match self.swamp.pending() {
            Some(p) => r.push(p),
            None => {},
        }
        r
    }

    /// Borrows the pending node with key `key` mutably, looking in the
    /// weighted part first.
    pub fn pending_mut(&mut self, key: &TKey) -> (r: Option<&mut PendingNode<TKey, TVal>>)
        ensures
            final(self)@.timeout == old(self)@.timeout,
            (old(self)@.weighted.pending matches Some(p) && p.node.key.key_view() == key.key_view()) ==> {
                &&& r is Some
                &&& *r.unwrap() == old(self)@.weighted.pending.unwrap()
                &&& final(self)@.weighted == (WeightedView { pending: Some(*final(r.unwrap())), ..old(self)@.weighted })
                &&& final(self)@.swamp == old(self)@.swamp
            },
            !(old(self)@.weighted.pending matches Some(p) && p.node.key.key_view() == key.key_view())
                && (old(self)@.swamp.pending matches Some(p) && p.node.key.key_view() == key.key_view()) ==> {
                &&& r is Some
                &&& *r.unwrap() == old(self)@.swamp.pending.unwrap()
                &&& final(self)@.swamp == (SwampView { pending: Some(*final(r.unwrap())), ..old(self)@.swamp })
                &&& final(self)@.weighted == old(self)@.weighted
            },
            !(old(self)@.weighted.pending matches Some(p) && p.node.key.key_view() == key.key_view())
                && !(old(self)@.swamp.pending matches Some(p) && p.node.key.key_view() == key.key_view()) ==> {
                &&& r is None
                &&& final(self)@ == old(self)@
            },
    {
        match self.weighted.pending_mut(key) {
            Some(p) => Some(p),
            None => self.swamp.pending_mut(key),
        }
    }

    /// Borrows the pending node with key `key`, looking in the weighted
    /// part first.
    pub fn pending_ref(&self, key: &TKey) -> (r: Option<&PendingNode<TKey, TVal>>)
        ensures
            r is Some == bucket_pending(self@, key.key_view()) is Some,
            r is Some ==> *r.unwrap() == bucket_pending(self@, key.key_view()).unwrap(),

    {
        match self.weighted.pending_ref(key) {
            Some(p) => Some(p),
            None => self.swamp.pending_ref(key),
        }
    }

    /// Sets the status of the pending node with key `key`, looking in the
    /// weighted part first; nothing changes if there is none.
    pub fn update_pending(&mut self, key: &TKey, status: NodeStatus)
        ensures
            final(self)@.timeout == old(self)@.timeout,
            update_pending_post(old(self)@, final(self)@, key.key_view(), status),
            crate::kbucket::placement::partitioned(old(self)@) ==> crate::kbucket::placement::partitioned(final(self)@),
    {
        if !self.weighted.update_pending(key, status) {
            self.swamp.update_pending(key, status);
        }
        proof {
            if crate::kbucket::placement::partitioned(old(self)@) {
                crate::kbucket::placement::lemma_update_pending_parted(old(self)@, self@, key.key_view(), status);
            }
        }
    }

    /// Borrows the node with key `key` mutably, looking in the weighted part
    /// first.
    pub fn get_mut(&mut self, key: &TKey) -> (r: Option<&mut Node<TKey, TVal>>)
        requires
            old(self)@.wf(),
        ensures
            final(self)@.timeout == old(self)@.timeout,
            has_weighted_key(old(self)@.weighted.subs, key.key_view()) ==> {
                let (i, p) = first_weighted_key(old(self)@.weighted.subs, key.key_view());
                &&& r is Some
                &&& *r.unwrap() == old(self)@.weighted.subs[i].nodes[p].inner
                &&& final(self)@.swamp == old(self)@.swamp
                &&& final(self)@.weighted == (WeightedView {
                    subs: old(self)@.weighted.subs.update(i, SubBucketView {
                        nodes: old(self)@.weighted.subs[i].nodes.update(p, WeightedNode {
                            inner: *final(r.unwrap()),
                            ..old(self)@.weighted.subs[i].nodes[p]
                        }),
                        ..old(self)@.weighted.subs[i]
                    }),
                    ..old(self)@.weighted
                })
            },
            !has_weighted_key(old(self)@.weighted.subs, key.key_view()) && has_key(old(self)@.swamp.bucket.nodes, key.key_view()) ==> {
                let p = key_index(old(self)@.swamp.bucket.nodes, key.key_view());
                &&& r is Some
                &&& *r.unwrap() == old(self)@.swamp.bucket.nodes[p]
                &&& final(self)@.weighted == old(self)@.weighted
                &&& final(self)@.swamp.bucket.nodes == old(self)@.swamp.bucket.nodes.update(p, *final(r.unwrap()))
                &&& final(self)@.swamp.bucket.first == old(self)@.swamp.bucket.first
                &&& final(self)@.swamp.bucket.capacity == old(self)@.swamp.bucket.capacity
                &&& final(self)@.swamp.pending == old(self)@.swamp.pending
                &&& final(self)@.swamp.timeout == old(self)@.swamp.timeout
            },
            !has_weighted_key(old(self)@.weighted.subs, key.key_view()) && !has_key(old(self)@.swamp.bucket.nodes, key.key_view())
                ==> r is None && final(self)@ == old(self)@,
    {
        match self.weighted.get_mut(key) {
            Some(n) => Some(n),
            None => self.swamp.get_mut(key),
        }
    }

    /// The nodes of the bucket with their status: the weighted part first,
    /// then the swamp.
    pub fn iter(&self) -> (r: Vec<(&Node<TKey, TVal>, NodeStatus)>)
        requires
            self@.wf(),
        ensures
            r@.len() == self@.entries().len(),
            forall|i: int| 0 <= i < r@.len() ==> *(#[trigger] r@[i]).0 == self@.entries()[i].0
                && r@[i].1 == self@.entries()[i].1,
    {
        let mut r = self.weighted();
        let s = self.swamp();
        let ghost n = r@.len();
        let mut j: usize = 0;
        while j < s.len()
            invariant
                self@.wf(),
                n == self@.weighted.entries().len(),
                s@.len() == self@.swamp.bucket.nodes.len(),
                forall|i: int| 0 <= i < s@.len() ==> *(#[trigger] s@[i]).0 == self@.swamp.bucket.entries()[i].0
                    && s@[i].1 == self@.swamp.bucket.entries()[i].1,
                0 <= j <= s@.len(),
                r@.len() == n + j,
                forall|i: int| 0 <= i < r@.len() ==> *(#[trigger] r@[i]).0 == self@.entries()[i].0
                    && r@[i].1 == self@.entries()[i].1,
            decreases s@.len() - j,
        {
            r.push(s[j]);
            j += 1;
        }
        r
    }

    /// The nodes of the weighted part with their status.
    pub fn weighted(&self) -> (r: Vec<(&Node<TKey, TVal>, NodeStatus)>)
        requires
            self@.wf(),
        ensures
            r@.len() == self@.weighted.entries().len(),
            forall|i: int| 0 <= i < r@.len() ==> *(#[trigger] r@[i]).0 == self@.weighted.entries()[i].0
                && r@[i].1 == self@.weighted.entries()[i].1,
            crate::kbucket::placement::partitioned(self@) ==> forall|i: int| 0 <= i < r@.len() ==> (#[trigger] r@[i]).0.weight > 0,
    {
        proof {
            if crate::kbucket::placement::partitioned(self@) {
                crate::kbucket::placement::lemma_weighted_entries_heavy(self@.weighted.subs);
            }
        }
        self.weighted.iter()
    }

    /// The nodes of the swamp with their status.
    pub fn swamp(&self) -> (r: Vec<(&Node<TKey, TVal>, NodeStatus)>)
        ensures
            r@.len() == self@.swamp.bucket.nodes.len(),
            forall|i: int| 0 <= i < r@.len() ==> *(#[trigger] r@[i]).0 == self@.swamp.bucket.entries()[i].0
                && r@[i].1 == self@.swamp.bucket.entries()[i].1,
            crate::kbucket::placement::partitioned(self@) ==> forall|i: int| 0 <= i < r@.len() ==> (#[trigger] r@[i]).0.weight == 0,
    {
        proof {
            if crate::kbucket::placement::partitioned(self@) {
                assert forall|i: int| 0 <= i < self@.swamp.bucket.nodes.len() implies (#[trigger] self@.swamp.bucket.entries()[i]).0.weight == 0 by {
                    assert(crate::kbucket::placement::light::<TKey, TVal>()(self@.swamp.bucket.nodes[i]));
                }
            }
        }
        self.swamp.iter()
    }

    /// Applies the pending node of each part whose time has come: first the
    /// weighted part, then the swamp.
    ///
    /// Whether the time has come depends on when the call is made.
    pub fn apply_pending(&mut self) -> (r: Vec<AppliedPending<TKey, TVal>>)
        requires
            old(self)@.wf(),
        ensures
            final(self)@.wf(),
            final(self)@.timeout == old(self)@.timeout,
            apply_post(old(self)@, final(self)@, r@),
            applied_parts(old(self)@, final(self)@, r@),
            crate::kbucket::placement::partitioned(old(self)@) ==> crate::kbucket::placement::partitioned(final(self)@),
    {
        let mut r: Vec<AppliedPending<TKey, TVal>> = Vec::new();
        let aw = self.weighted.apply_pending();
        let ghost gw = aw;
        match aw {
            Some(a) => r.push(a),
            None => {},
        }
        let ghost n = r@.len();
        let a_s = self.swamp.apply_pending();
        let ghost gs = a_s;
        match a_s {
            Some(a) => r.push(a),
            None => {},
        }
        proof {
            assert(r@ =~= opt_seq(gw) + opt_seq(gs));
            let ns = choose|now: Instant| if #[trigger] pending_ready_at(old(self)@.swamp.pending, now) {
                crate::kbucket::swamp::applied(old(self)@.swamp, self@.swamp, gs)
            } else {
                gs is None && self@.swamp == old(self)@.swamp
            };
            let nw2 = choose|now: Instant| if #[trigger] pending_ready_at(old(self)@.weighted.pending, now) {
                apply_outcome(old(self)@.weighted, self@.weighted, gw)
            } else {
                gw is None && self@.weighted == old(self)@.weighted
            };
            assert(parts_at(old(self)@, self@, r@, gw, gs, nw2, ns));
        }
        proof {
            if crate::kbucket::placement::partitioned(old(self)@) {
                crate::kbucket::placement::lemma_apply_parted(old(self)@, self@, r@);
            }
        }
        r
    }

    /// Moves the node with key `key` to the end of the group of nodes with
    /// `new_status`: in the weighted part if it is there, in the swamp
    /// otherwise. Nothing changes where it is in neither.
    pub fn update(&mut self, key: &TKey, new_status: NodeStatus)
        requires
            old(self)@.wf(),
        ensures
            final(self)@.wf(),
            final(self)@.timeout == old(self)@.timeout,
            update_post(old(self)@, final(self)@, key.key_view(), new_status),
            crate::kbucket::placement::partitioned(old(self)@) ==> crate::kbucket::placement::partitioned(final(self)@),
    {
        if !self.weighted.update(key, new_status) {
            self.swamp.update(key, new_status);
        }
        proof {
            if crate::kbucket::placement::partitioned(old(self)@) {
                crate::kbucket::placement::lemma_update_parted(old(self)@, self@, key.key_view(), new_status);
            }
        }
    }

    /// Inserts a node with `status`: into the weighted part if its weight is
    /// not zero, into the swamp otherwise.
    pub fn insert(&mut self, node: Node<TKey, TVal>, status: NodeStatus) -> (r: InsertResult<TKey>)
        requires
            old(self)@.wf(),
        ensures
            final(self)@.wf(),
            final(self)@.timeout == old(self)@.timeout,
            exists|now: Instant| #[trigger] insert_post(old(self)@, final(self)@, node, status, r, now),
            crate::kbucket::placement::partitioned(old(self)@) ==> crate::kbucket::placement::partitioned(final(self)@),
    {
        let ghost n = node;
        let r = if node.weight > 0 {
            self.weighted.insert(node, status)
        } else {
            self.swamp.insert(node, status)
        };
        proof {
            if n.weight > 0 {
                let now = choose|now: Instant| #[trigger] insert_outcome(old(self)@.weighted, self@.weighted, n, status, r, now);
                assert(insert_post(old(self)@, self@, n, status, r, now));
            } else {
                let now = choose|now: Instant| #[trigger] swamp_insert_outcome(old(self)@.swamp, self@.swamp, n, status, r, now);
                assert(insert_post(old(self)@, self@, n, status, r, now));
            }
            if crate::kbucket::placement::partitioned(old(self)@) {
                let now = choose|now: Instant| #[trigger] insert_post(old(self)@, self@, n, status, r, now);
                crate::kbucket::placement::lemma_insert_parted(old(self)@, self@, n, status, r, now);
            }
        }
        r
    }

    /// Whether the weighted part (`true`) or the swamp (`false`) is full.
    fn is_full(&self, weighted: bool) -> (r: bool)
        requires
            self@.wf(),
        ensures
            r == (if weighted { self@.weighted.full() } else { self@.swamp.full() }),
    {
        if weighted {
            self.weighted.is_full()
        } else {
            self.swamp.is_full()
        }
    }

    /// Whether the weighted part (`true`) or the swamp (`false`) has a
    /// pending node whose time of insertion has not come.
    ///
    /// The answer depends on when the call is made.
    fn pending_active(&self, weighted: bool) -> (r: bool)
        ensures
            r ==> (if weighted { self@.weighted.pending is Some } else { self@.swamp.pending is Some }),
            exists|now: Instant| r == #[trigger] pending_active_at(part_pending(self@, weighted), now),
    {
        if weighted {
            self.weighted.pending_active()
        } else {
            self.swamp.pending_active()
        }
    }

    /// The number of nodes in the bucket.
    pub fn num_entries(&self) -> (r: usize)
        requires
            self@.wf(),
        ensures
            r == self@.num_entries(),
    {
        proof {
            crate::kbucket::weighted::lemma_weighted_entries_len(self@.weighted.subs);
        }
        self.swamp.num_entries() + self.weighted.num_entries()
    }

    /// The status of the node with key `key`: in the weighted part if it is
    /// there, in the swamp otherwise.
    pub fn status(&self, key: &TKey) -> (r: Option<NodeStatus>)
        requires
            self@.wf(),
        ensures
            r == bucket_status(self@, key.key_view()),

    {
        match self.weighted.status(key) {
            Some(s) => Some(s),
            None => self.swamp.status(key),
        }
    }
}

/// The outcome of inserting `node` with `status` into the swamp `old` at
/// the instant `now`, giving `new` and the result `r`: see `Swamp::insert`.
pub open spec fn swamp_insert_outcome<TKey: KadKey, TVal>(
    old: SwampView<TKey, TVal>,
    new: SwampView<TKey, TVal>,
    node: Node<TKey, TVal>,
    status: NodeStatus,
    r: InsertResult<TKey>,
    now: Instant,
) -> bool {
    if !old.full() {
        &&& r is Inserted
        &&& new == (SwampView { bucket: old.bucket.added(node, status), ..old })
    } else if status == NodeStatus::Connected && old.bucket.first != Some(0int) && old.pending is None {
        match instant_plus(now, old.timeout) {
            Some(x) => {
                &&& names_for_check(r, old.bucket.nodes[0].key)
                &&& new == (SwampView {
                    pending: Some(PendingNode { node, status: NodeStatus::Connected, replace: x }),
                    ..old
                })
            },
            None => {
                &&& r is Full
                &&& new == old
            },
        }
    } else {
        &&& r is Full
        &&& new == old
    }
}

/// The status of the node with key bytes `k` in bucket `v`: in the
/// weighted part if it is there, in the swamp otherwise; `None` where it is
/// in neither.
pub open spec fn bucket_status<TKey: KadKey, TVal>(v: KBucketView<TKey, TVal>, k: Seq<u8>) -> Option<NodeStatus> {
    if has_weighted_key(v.weighted.subs, k) {
        let (i, p) = first_weighted_key(v.weighted.subs, k);
        Some(v.weighted.subs[i].status_of(p))
    } else if has_key(v.swamp.bucket.nodes, k) {
        Some(v.swamp.bucket.status_of(key_index(v.swamp.bucket.nodes, k)))
    } else {
        None
    }
}

/// The pending node with key bytes `k` of bucket `v`: that of the weighted
/// part if it has this key, else that of the swamp if it has it.
pub open spec fn bucket_pending<TKey: KadKey, TVal>(v: KBucketView<TKey, TVal>, k: Seq<u8>) -> Option<PendingNode<TKey, TVal>> {
    if v.weighted.pending matches Some(p) && p.node.key.key_view() == k {
        v.weighted.pending
    } else if v.swamp.pending matches Some(p) && p.node.key.key_view() == k {
        v.swamp.pending
    } else {
        None
    }
}

/// The pending node of the weighted part (`true`) or of the swamp.
pub open spec fn part_pending<TKey, TVal>(v: KBucketView<TKey, TVal>, weighted: bool) -> Option<PendingNode<TKey, TVal>> {
    if weighted { v.weighted.pending } else { v.swamp.pending }
}

/// The sequence of the value of `a`, if any.
pub open spec fn opt_seq<A>(a: Option<A>) -> Seq<A> {
    match a {
        Some(x) => seq![x],
        None => Seq::empty(),
    }
}

/// Whether a part of a bucket has a pending node whose time has not come,
/// read for each part at some instant: `r` is that answer.
pub open spec fn has_pending_at<TKey, TVal>(v: KBucketView<TKey, TVal>, r: bool) -> bool {
    exists|nw: Instant, ns: Instant|
        #![trigger pending_active_at(v.weighted.pending, nw), pending_active_at(v.swamp.pending, ns)]
        r == (pending_active_at(v.weighted.pending, nw) || pending_active_at(v.swamp.pending, ns))
}

/// Applying the pending nodes of `old` at the instants `nw` (weighted part)
/// and `ns` (swamp) gave `aw` and `a_s` and led to `new`; `r` holds what was
/// applied, the weighted part first.
pub open spec fn parts_at<TKey: KadKey, TVal: Clone>(
    old: KBucketView<TKey, TVal>,
    new: KBucketView<TKey, TVal>,
    r: Seq<AppliedPending<TKey, TVal>>,
    aw: Option<AppliedPending<TKey, TVal>>,
    a_s: Option<AppliedPending<TKey, TVal>>,
    nw: Instant,
    ns: Instant,
) -> bool {
    &&& if pending_ready_at(old.weighted.pending, nw) {
        apply_outcome(old.weighted, new.weighted, aw)
    } else {
        aw is None && new.weighted == old.weighted
    }
    &&& if pending_ready_at(old.swamp.pending, ns) {
        crate::kbucket::swamp::applied(old.swamp, new.swamp, a_s)
    } else {
        a_s is None && new.swamp == old.swamp
    }
    &&& r == opt_seq(aw) + opt_seq(a_s)
}

/// Each part of `old` applied its pending node if its time had come, read
/// at some instant, the weighted part first, which led to `new`; `r` holds
/// what was applied, in that order.
pub open spec fn applied_parts<TKey: KadKey, TVal: Clone>(
    old: KBucketView<TKey, TVal>,
    new: KBucketView<TKey, TVal>,
    r: Seq<AppliedPending<TKey, TVal>>,
) -> bool {
    exists|aw: Option<AppliedPending<TKey, TVal>>, a_s: Option<AppliedPending<TKey, TVal>>, nw: Instant, ns: Instant|
        #[trigger] parts_at(old, new, r, aw, a_s, nw, ns)
}

/// `new` is `old` after the pending nodes whose time had come were applied,
/// with the results `r`: see `KBucket::apply_pending`.
pub open spec fn apply_post<TKey: KadKey, TVal: Clone>(
    old: KBucketView<TKey, TVal>,
    new: KBucketView<TKey, TVal>,
    r: Seq<AppliedPending<TKey, TVal>>,
) -> bool {
    &&& r.len() <= 2
    &&& new.weighted == old.weighted || exists|a: Option<AppliedPending<TKey, TVal>>|
        apply_outcome(old.weighted, new.weighted, a) && (a matches Some(x) ==> r.len() >= 1 && r[0] == x)
    &&& new.swamp == old.swamp || (crate::kbucket::swamp::applied(old.swamp, new.swamp, Some(r.last())) && r.len() >= 1)
}

/// `new` is `old` after the node with key bytes `k` was moved to the end of
/// the group of nodes with `status`: see `KBucket::update`.
pub open spec fn update_post<TKey: KadKey, TVal>(
    old: KBucketView<TKey, TVal>,
    new: KBucketView<TKey, TVal>,
    k: Seq<u8>,
    status: NodeStatus,
) -> bool {
    if has_weighted_key(old.weighted.subs, k) {
        &&& update_outcome(old.weighted, new.weighted, k, status)
        &&& new.swamp == old.swamp
    } else {
        &&& new.weighted == old.weighted
        &&& has_key(old.swamp.bucket.nodes, k) ==> {
            let p = key_index(old.swamp.bucket.nodes, k);
            new.swamp == (SwampView {
                bucket: old.swamp.bucket.evicted(p).added(old.swamp.bucket.nodes[p], status),
                pending: if p == 0 && status == NodeStatus::Connected {
                    None
                } else {
                    old.swamp.pending
                },
                timeout: old.swamp.timeout,
            })
        }
        &&& !has_key(old.swamp.bucket.nodes, k) ==> new.swamp == old.swamp
    }
}

/// `new` is `old` after `node` was inserted with `status` at the instant
/// `now`, with the result `r`: see `KBucket::insert`.
pub open spec fn insert_post<TKey: KadKey, TVal>(
    old: KBucketView<TKey, TVal>,
    new: KBucketView<TKey, TVal>,
    node: Node<TKey, TVal>,
    status: NodeStatus,
    r: InsertResult<TKey>,
    now: Instant,
) -> bool {
    if node.weight > 0 {
        &&& insert_outcome(old.weighted, new.weighted, node, status, r, now)
        &&& new.swamp == old.swamp
    } else {
        &&& swamp_insert_outcome(old.swamp, new.swamp, node, status, r, now)
        &&& new.weighted == old.weighted
    }
}

/// `new` is `old` after the status of the pending node with key bytes `k`
/// was set to `status`: see `KBucket::update_pending`.
pub open spec fn update_pending_post<TKey: KadKey, TVal>(
    old: KBucketView<TKey, TVal>,
    new: KBucketView<TKey, TVal>,
    k: Seq<u8>,
    status: NodeStatus,
) -> bool {
    if old.weighted.pending matches Some(p) && p.node.key.key_view() == k {
        &&& new.weighted == (WeightedView {
            pending: Some(PendingNode { status, ..old.weighted.pending.unwrap() }),
            ..old.weighted
        })
        &&& new.swamp == old.swamp
    } else {
        &&& new.weighted == old.weighted
        &&& (old.swamp.pending matches Some(p) && p.node.key.key_view() == k) ==> new.swamp == (SwampView {
            pending: Some(PendingNode { status, ..old.swamp.pending.unwrap() }),
            ..old.swamp
        })
        &&& !(old.swamp.pending matches Some(p) && p.node.key.key_view() == k) ==> new.swamp == old.swamp
    }
}

/// Bucket `v` with the value of the node with key bytes `k` (the node that
/// `bucket_status` reports on) replaced by `val`; `v` itself where there is
/// no such node.
pub open spec fn with_value<TKey: KadKey, TVal>(v: KBucketView<TKey, TVal>, k: Seq<u8>, val: TVal) -> KBucketView<TKey, TVal> {
    if has_weighted_key(v.weighted.subs, k) {
        let (i, p) = first_weighted_key(v.weighted.subs, k);
        let b = v.weighted.subs[i];
        let wn = b.nodes[p];
        KBucketView {
            weighted: WeightedView {
                subs: v.weighted.subs.update(i, SubBucketView {
                    nodes: b.nodes.update(p, WeightedNode { inner: Node { value: val, ..wn.inner }, ..wn }),
                    ..b
                }),
                ..v.weighted
            },
            ..v
        }
    } else if has_key(v.swamp.bucket.nodes, k) {
        let p = key_index(v.swamp.bucket.nodes, k);
        let b = v.swamp.bucket;
        KBucketView {
            swamp: SwampView {
                bucket: SubBucketView { nodes: b.nodes.update(p, Node { value: val, ..b.nodes[p] }), ..b },
                ..v.swamp
            },
            ..v
        }
    } else {
        v
    }
}

/// The value of the node with key bytes `k` of bucket `v`, if there is one.
pub open spec fn bucket_value<TKey: KadKey, TVal>(v: KBucketView<TKey, TVal>, k: Seq<u8>) -> Option<TVal> {
    if has_weighted_key(v.weighted.subs, k) {
        let (i, p) = first_weighted_key(v.weighted.subs, k);
        Some(v.weighted.subs[i].nodes[p].inner.value)
    } else if has_key(v.swamp.bucket.nodes, k) {
        Some(v.swamp.bucket.nodes[key_index(v.swamp.bucket.nodes, k)].value)
    } else {
        None
    }
}

/// Bucket `v` with the value of the pending node with key bytes `k` (the
/// one that `bucket_pending` gives) replaced by `val`; `v` itself where
/// there is no such node.
pub open spec fn with_pending_value<TKey: KadKey, TVal>(v: KBucketView<TKey, TVal>, k: Seq<u8>, val: TVal) -> KBucketView<TKey, TVal> {
    if v.weighted.pending matches Some(p) && p.node.key.key_view() == k {
        let p = v.weighted.pending.unwrap();
        KBucketView {
            weighted: WeightedView { pending: Some(PendingNode { node: Node { value: val, ..p.node }, ..p }), ..v.weighted },
            ..v
        }
    } else if v.swamp.pending matches Some(p) && p.node.key.key_view() == k {
        let p = v.swamp.pending.unwrap();
        KBucketView {
            swamp: SwampView { pending: Some(PendingNode { node: Node { value: val, ..p.node }, ..p }), ..v.swamp },
            ..v
        }
    } else {
        v
    }
}

/// `new` is `old` with `addr` added to the addresses `a` of a node, where
/// it was not among them yet; `r` says whether it was added.
pub open spec fn address_added(a: Addresses, na: Addresses, addr: Seq<u8>, r: bool) -> bool {
    &&& r == !a@.contains(addr)
    &&& na@ == (if r { a@.push(addr) } else { a@ })
}

impl<TKey: KadKey, TVal: Clone> KBucket<TKey, TVal> {
    /// Borrows the value of the node with key `key` mutably, if the bucket
    /// holds one; whatever is written there becomes the node's value.
    pub fn value_mut(&mut self, key: &TKey) -> (r: Option<&mut TVal>)
        requires
            old(self)@.wf(),
        ensures
            match bucket_value(old(self)@, key.key_view()) {
                None => r is None && final(self)@ == old(self)@,
                Some(v) => r is Some && *r.unwrap() == v && final(self)@ == with_value(old(self)@, key.key_view(), *final(r.unwrap())),
            },
    {
        let ghost k = key.key_view();
        match self.get_mut(key) {
            Some(n) => Some(&mut n.value),
            None => None,
        }
    }
}

impl<TKey: KadKey> KBucket<TKey, Addresses> {
    /// Adds `addr` to the addresses of the node with key `key`, if the
    /// bucket holds one. Returns whether it was new, with a copy of the
    /// addresses the node now has; `None` where there is no such node.
    pub fn insert_address(&mut self, key: &TKey, addr: Vec<u8>) -> (r: Option<(bool, Addresses)>)
        requires
            old(self)@.wf(),
        ensures
            final(self)@.wf(),
            match bucket_value(old(self)@, key.key_view()) {
                None => r is None && final(self)@ == old(self)@,
                Some(a) => r matches Some((added, c)) && exists|na: Addresses| #[trigger] address_added(a, na, addr@, added)
                    && c@ == na@ && final(self)@ == with_value(old(self)@, key.key_view(), na),
            },
    {
        let ghost k = key.key_view();
        let ghost mut before: Node<TKey, Addresses> = vstd::pervasive::arbitrary();
        let ghost mut after: Node<TKey, Addresses> = vstd::pervasive::arbitrary();
        let r = match self.get_mut(key) {
            Some(n) => {
                proof {
                    before = *n;
                }
                let added = n.value.insert(addr);
                let c = n.value.duplicate();
                proof {
                    after = *n;
                }
                Some((added, c))
            },
            None => None,
        };
        proof {
            if r is Some {
                assert(after == Node { value: after.value, ..before });
                assert(bucket_value(old(self)@, k) == Some(before.value));
                assert(address_added(before.value, after.value, addr@, r.unwrap().0));
                lemma_with_value_wf(old(self)@, k, after.value);
                if has_weighted_key(old(self)@.weighted.subs, k) {
                    assert(self@.weighted =~= with_value(old(self)@, k, after.value).weighted);
                } else {
                    assert(self@.swamp =~= with_value(old(self)@, k, after.value).swamp);
                }
                assert(self@ == with_value(old(self)@, k, after.value));
                assert(address_added(bucket_value(old(self)@, k).unwrap(), after.value, addr@, r.unwrap().0)
                    && r.unwrap().1@ == after.value@ && self@ == with_value(old(self)@, k, after.value));
            } else {
                assert(bucket_value(old(self)@, k) is None);
            }
        }
        r
    }

    /// A copy of the addresses of the node with key `key`, if the bucket
    /// holds one. Nothing changes.
    pub fn addresses_of(&mut self, key: &TKey) -> (r: Option<Addresses>)
        requires
            old(self)@.wf(),
        ensures
            final(self)@ == old(self)@,
            match bucket_value(old(self)@, key.key_view()) {
                None => r is None,
                Some(a) => r matches Some(c) && c@ == a@,
            },
    {
        let ghost k = key.key_view();
        let ghost mut before: Node<TKey, Addresses> = vstd::pervasive::arbitrary();
        let r = match self.get_mut(key) {
            Some(n) => {
                proof {
                    before = *n;
                }
                Some(n.value.duplicate())
            },
            None => None,
        };
        proof {
            if r is Some {
                assert(bucket_value(old(self)@, k) == Some(before.value));
                if has_weighted_key(old(self)@.weighted.subs, k) {
                    let (i, p) = first_weighted_key(old(self)@.weighted.subs, k);
                    let subs = old(self)@.weighted.subs;
                    let (a, b) = choose|a: int, b: int| 0 <= a < subs.len() && 0 <= b < subs[a].nodes.len() && subs[a].nodes[b].inner.key.key_view() == k;
                    crate::kbucket::placement::lemma_first_weighted_exists(subs, k, a, b);
                    assert(subs[i].nodes.update(p, WeightedNode { inner: before, ..subs[i].nodes[p] }) =~= subs[i].nodes);
                    assert(subs.update(i, SubBucketView { nodes: subs[i].nodes, ..subs[i] }) =~= subs);
                    assert(self@.weighted =~= old(self)@.weighted);
                } else {
                    let p = key_index(old(self)@.swamp.bucket.nodes, k);
                    crate::kbucket::sub_bucket::lemma_key_index(old(self)@.swamp.bucket.nodes, k);
                    assert(old(self)@.swamp.bucket.nodes.update(p, before) =~= old(self)@.swamp.bucket.nodes);
                    assert(self@.swamp =~= old(self)@.swamp);
                }
            }
        }
        r
    }

    /// Adds `addr` to the addresses of the pending node with key `key`, if
    /// the bucket holds one. Returns whether it was new, `None` where there
    /// is no such node.
    pub fn insert_pending_address(&mut self, key: &TKey, addr: Vec<u8>) -> (r: Option<bool>)
        requires
            old(self)@.wf(),
        ensures
            final(self)@.wf(),
            match bucket_pending(old(self)@, key.key_view()) {
                None => r is None && final(self)@ == old(self)@,
                Some(p) => r matches Some(added) && exists|na: Addresses| #[trigger] address_added(p.node.value, na, addr@, added)
                    && final(self)@ == with_pending_value(old(self)@, key.key_view(), na),
            },
    {
        let ghost k = key.key_view();
        let ghost mut before: PendingNode<TKey, Addresses> = vstd::pervasive::arbitrary();
        let ghost mut after: PendingNode<TKey, Addresses> = vstd::pervasive::arbitrary();
        let r = match self.pending_mut(key) {
            Some(p) => {
                proof {
                    before = *p;
                }
                let v = p.value_mut();
                let added = v.insert(addr);
                proof {
                    after = *p;
                }
                Some(added)
            },
            None => None,
        };
        proof {
            if r is Some {
                assert(after == PendingNode { node: Node { value: after.node.value, ..before.node }, ..before });
                assert(address_added(before.node.value, after.node.value, addr@, r.unwrap()));
                assert(self@ == with_pending_value(old(self)@, k, after.node.value));
            }
        }
        r
    }
}

/// Replacing the value of a node keeps a bucket well formed.
pub proof fn lemma_with_value_wf<TKey: KadKey, TVal>(v: KBucketView<TKey, TVal>, k: Seq<u8>, val: TVal)
    requires
        v.wf(),
    ensures
        with_value(v, k, val).wf(),
{
    let n = with_value(v, k, val);
    if has_weighted_key(v.weighted.subs, k) {
        let (i, p) = first_weighted_key(v.weighted.subs, k);
        let subs = v.weighted.subs;
        let (a, b) = choose|a: int, b: int| 0 <= a < subs.len() && 0 <= b < subs[a].nodes.len() && subs[a].nodes[b].inner.key.key_view() == k;
        crate::kbucket::placement::lemma_first_weighted_exists(subs, k, a, b);
        crate::kbucket::weighted::lemma_total_update(v.weighted.subs, i, n.weighted.subs[i]);
        assert forall|j: int, q: int| 0 <= j < n.weighted.subs.len() && 0 <= q < n.weighted.subs[j].nodes.len()
            implies (#[trigger] n.weighted.subs[j].nodes[q]).inner.weight == n.weighted.ws[j] by {
            if j == i && q == p {
            } else {
                assert(n.weighted.subs[j].nodes[q] == v.weighted.subs[j].nodes[q]);
            }
        }
        assert forall|j: int| 0 <= j < n.weighted.subs.len() implies (#[trigger] n.weighted.subs[j]).wf()
            && n.weighted.subs[j].capacity == crate::W_VALUE by {
            if j != i {
                assert(n.weighted.subs[j] == v.weighted.subs[j]);
            }
        }
        assert(n.weighted.wf());
        assert(n.swamp == v.swamp);
    } else if has_key(v.swamp.bucket.nodes, k) {
        crate::kbucket::sub_bucket::lemma_key_index(v.swamp.bucket.nodes, k);
        assert(n.swamp.bucket.nodes.len() == v.swamp.bucket.nodes.len());
        assert(n.weighted == v.weighted);
    }
}

} // verus!
