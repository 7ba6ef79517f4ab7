//! The routing table of a single peer of a Kademlia DHT: `NUM_BUCKETS`
//! buckets, the bucket at index `i` holding the keys whose distance to the
//! local key has its most significant set bit at position `i`.
//!
//! When the bucket of an inserted entry is full but holds disconnected
//! nodes, it accepts a pending entry, which replaces the least-recently
//! (dis)connected node once its timeout has passed. Pending entries are
//! applied whenever the table looks at their bucket; each application is
//! recorded, and the records are consumed with `take_applied_pending`.

use vstd::prelude::*;
use std::collections::VecDeque;
use std::time::{Duration, Instant};
use crate::kbucket::NUM_BUCKETS;
use crate::kbucket::key::{KadKey, KeyBytes, Distance, xor_bytes, spec_ilog2, same_key, lemma_key_bytes_len};
use crate::kbucket::sub_bucket::{Node, NodeStatus, PendingNode, node_cloned};
use crate::kbucket::bucket::{
    KBucket, KBucketView, InsertResult, AppliedPending, bucket_status, bucket_pending, apply_post,
    insert_post, update_post, update_pending_post, applied_parts, bucket_value, with_value, with_pending_value, address_added,
};
use crate::addresses::Addresses;
use crate::kbucket::closest::{BucketIndex, ClosestBucketsIter, visit_order, lemma_visit_order};
use crate::kbucket::ordering::lemma_closest_sorted;
use crate::kbucket::weighted_iter::{WeightedIter, weighted_order};
use crate::kbucket::key::{lex_lt, be_value, bit_at, lemma_distance_len, lemma_lex_lt_value, lemma_lex_total};
use crate::kbucket::closest::lemma_range_contains;
use crate::kbucket::sorting::{sorted_by_distance, distance_views, ints, sort_indices_by_distance, lemma_sorted_by_distance_indices};
use crate::kbucket::placement::{
    in_bucket, bucket_in, lemma_with_value_in, lemma_apply_in, lemma_insert_in, lemma_update_in, lemma_update_pending_in,
};

verus! {

/// A Kademlia routing table.
#[derive(Debug)]
pub struct KBucketsTable<TKey, TVal> {
    /// The key identifying the local peer that owns the routing table.
    local_key: TKey,
    /// The buckets of the table, by index.
    buckets: Vec<KBucket<TKey, TVal>>,
    /// The pending entries applied since the last call to
    /// `take_applied_pending`, oldest first.
    applied_pending: VecDeque<AppliedPending<TKey, TVal>>,
}

/// The mathematical model of a `KBucketsTable`.
pub ghost struct TableView<TKey, TVal> {
    /// The local key.
    pub local_key: TKey,
    /// The buckets, by index.
    pub buckets: Seq<KBucketView<TKey, TVal>>,
    /// The records of applied pending entries, oldest first.
    pub applied: Seq<AppliedPending<TKey, TVal>>,
}

impl<TKey: KadKey, TVal> TableView<TKey, TVal> {
    /// The key bytes of the local key.
    pub open spec fn local(self) -> Seq<u8> {
        self.local_key.key_view()
    }

    /// `NUM_BUCKETS` well-formed buckets, each holding only keys that
    /// belong in it.
    pub open spec fn wf(self) -> bool {
        &&& self.local().len() == 32
        &&& self.buckets.len() == NUM_BUCKETS
        &&& forall|i: int| 0 <= i < NUM_BUCKETS ==> (#[trigger] self.buckets[i]).wf() && bucket_in(self.buckets[i], self.local(), i)
    }

    /// The index of the bucket that key bytes `k` belong in; `None` for the
    /// local key.
    pub open spec fn index_of(self, k: Seq<u8>) -> Option<u32> {
        spec_ilog2(xor_bytes(self.local(), k))
    }
}

impl<TKey, TVal> View for KBucketsTable<TKey, TVal> {
    type V = TableView<TKey, TVal>;

    closed spec fn view(&self) -> TableView<TKey, TVal> {
        TableView {
            local_key: self.local_key,
            buckets: self.buckets@.map_values(|b: KBucket<TKey, TVal>| b@),
            applied: self.applied_pending@,
        }
    }
}

/// `new` is `old` after the pending entries of bucket `i` whose time had
/// come were applied and their records appended: see `KBucket::apply_pending`.
pub open spec fn applied_at<TKey: KadKey, TVal: Clone>(old: TableView<TKey, TVal>, new: TableView<TKey, TVal>, i: int) -> bool {
    &&& new.local_key == old.local_key
    &&& new.buckets.len() == old.buckets.len()
    &&& forall|j: int| 0 <= j < old.buckets.len() && j != i ==> new.buckets[j] == old.buckets[j]
    &&& exists|r: Seq<AppliedPending<TKey, TVal>>| #[trigger] apply_post(old.buckets[i], new.buckets[i], r)
        && applied_parts(old.buckets[i], new.buckets[i], r)
        && new.applied == old.applied + r
        && new.buckets[i].timeout == old.buckets[i].timeout
}

/// No bucket of `t` holds a pending node.
pub open spec fn none_pending<TKey, TVal>(t: TableView<TKey, TVal>) -> bool {
    forall|i: int| 0 <= i < t.buckets.len() ==> (#[trigger] t.buckets[i]).weighted.pending is None
        && t.buckets[i].swamp.pending is None
}

/// Where no bucket holds a pending node, applying pending entries along any
/// buckets changes nothing and records nothing.
pub proof fn lemma_none_pending_unchanged<TKey: KadKey, TVal: Clone>(old: TableView<TKey, TVal>, new: TableView<TKey, TVal>, idxs: Seq<int>)
    requires
        none_pending(old),
        applied_along(old, new, idxs),
    ensures
        new == old,
{
    let states = choose|states: Seq<TableView<TKey, TVal>>| is_apply_chain(states, old, new, idxs);
    lemma_chain_unchanged(states, old, new, idxs, idxs.len() as int);
}

/// Every state of a chain of applications from a table without pending
/// nodes is that table.
proof fn lemma_chain_unchanged<TKey: KadKey, TVal: Clone>(
    states: Seq<TableView<TKey, TVal>>,
    old: TableView<TKey, TVal>,
    new: TableView<TKey, TVal>,
    idxs: Seq<int>,
    k: int,
)
    requires
        none_pending(old),
        is_apply_chain(states, old, new, idxs),
        0 <= k <= idxs.len(),
    ensures
        states[k] == old,
    decreases k,
{
    if k > 0 {
        lemma_chain_unchanged(states, old, new, idxs, k - 1);
        let j = k - 1;
        assert(applied_at(states[j], states[j + 1], idxs[j]));
        let a = states[j];
        let b = states[j + 1];
        let i = idxs[j];
        let r = choose|r: Seq<AppliedPending<TKey, TVal>>| #[trigger] apply_post(a.buckets[i], b.buckets[i], r)
            && applied_parts(a.buckets[i], b.buckets[i], r) && b.applied == a.applied + r
            && b.buckets[i].timeout == a.buckets[i].timeout;
        if 0 <= i < a.buckets.len() {
            assert(a.buckets[i].weighted.pending is None && a.buckets[i].swamp.pending is None);
            let (aw, a_s, nw, ns) = choose|aw: Option<AppliedPending<TKey, TVal>>, a_s: Option<AppliedPending<TKey, TVal>>, nw: Instant, ns: Instant|
                #[trigger] crate::kbucket::bucket::parts_at(a.buckets[i], b.buckets[i], r, aw, a_s, nw, ns);
            assert(r =~= Seq::<AppliedPending<TKey, TVal>>::empty());
            assert(b.buckets[i] == a.buckets[i]);
        }
        assert(b.buckets =~= a.buckets);
        assert(b.applied =~= a.applied);
    }
}

/// An entry of the table for a key that is in a bucket.
#[derive(Debug)]
pub struct PresentEntry<TKey> {
    /// The key of the entry.
    pub key: TKey,
}

/// An entry of the table for a key that is pending insertion in a bucket.
#[derive(Debug)]
pub struct PendingEntry<TKey> {
    /// The key of the entry.
    pub key: TKey,
}

/// An entry of the table for a key that is in no bucket.
#[derive(Debug)]
pub struct AbsentEntry<TKey> {
    /// The key of the entry.
    pub key: TKey,
}

/// The state of the entry of a key in a table.
#[derive(Debug)]
pub enum Entry<TKey> {
    /// The entry is present in a bucket, with this status.
    Present(PresentEntry<TKey>, NodeStatus),
    /// The entry is pending insertion in a bucket, with this status.
    Pending(PendingEntry<TKey>, NodeStatus),
    /// The entry is absent and may be inserted.
    Absent(AbsentEntry<TKey>),
    /// The entry represents the local node.
    SelfEntry,
}

/// A copy of an entry of a bucket: its node and status.
#[derive(Debug)]
pub struct EntryView<TKey, TVal> {
    /// The node of the entry.
    pub node: Node<TKey, TVal>,
    /// The status of the node.
    pub status: NodeStatus,
}

/// `r` is the entry of `key` in bucket `v`: present with its status if it
/// is there, else pending with its status if it is pending there, else
/// absent; each carrying a copy of `key`.
pub open spec fn entry_in<TKey: KadKey, TVal>(r: Entry<TKey>, v: KBucketView<TKey, TVal>, key: TKey) -> bool {
    match bucket_status(v, key.key_view()) {
        Some(s) => r matches Entry::Present(e, s2) && s2 == s && same_key(e.key, key),
        None => match bucket_pending(v, key.key_view()) {
            Some(p) => r matches Entry::Pending(e, s2) && s2 == p.status && same_key(e.key, key),
            None => r matches Entry::Absent(e) && same_key(e.key, key),
        },
    }
}

/// Moves the records of `v` to the back of `q`, in order.
fn push_all<A>(q: &mut VecDeque<A>, v: Vec<A>)
    ensures
        final(q)@ == old(q)@ + v@,
{
    let mut v = v;
    let ghost orig = v@;
    let ghost start = q@;
    while v.len() > 0
        invariant
            q@ + v@ == start + orig,
        decreases v@.len(),
    {
        let ghost before = v@;
        let a = v.remove(0);
        q.push_back(a);
        proof {
            assert(before =~= seq![a] + v@);
            assert(q@ + v@ =~= start + orig);
        }
    }
    assert(q@ =~= q@ + v@);
}

impl<TKey: KadKey, TVal: Clone> KBucketsTable<TKey, TVal> {
    /// Creates an empty routing table for the local key `local_key`, in
    /// which pending entries become eligible for insertion `pending_timeout`
    /// after they were made pending.
    pub fn new(local_key: TKey, pending_timeout: Duration) -> (r: Self)
        ensures
            r@.wf(),
            r@.local_key == local_key,
            r@.applied.len() == 0,
            forall|i: int| 0 <= i < NUM_BUCKETS ==> (#[trigger] r@.buckets[i]).entries().len() == 0
                && r@.buckets[i].swamp.pending is None && r@.buckets[i].weighted.pending is None
                && r@.buckets[i].timeout == pending_timeout,
    {
        let kb = local_key.key_bytes();
        proof {
            lemma_key_bytes_len(*kb);
        }
        let mut buckets: Vec<KBucket<TKey, TVal>> = Vec::new();
        let mut i: usize = 0;
        while i < NUM_BUCKETS
            invariant
                0 <= i <= NUM_BUCKETS,
                buckets@.len() == i,
                forall|j: int| 0 <= j < i ==> {
                    let b = (#[trigger] buckets@[j])@;
                    &&& b.wf()
                    &&& b.entries().len() == 0
                    &&& b.swamp.bucket.nodes.len() == 0
                    &&& b.weighted.subs.len() == 0
                    &&& b.swamp.pending is None
                    &&& b.weighted.pending is None
                    &&& b.timeout == pending_timeout
                },
            decreases NUM_BUCKETS - i,
        {
            let b = KBucket::new(pending_timeout);
            proof {
                assert(b@.entries() =~= Seq::<(Node<TKey, TVal>, NodeStatus)>::empty());
            }
            buckets.push(b);
            i += 1;
        }
        let r = KBucketsTable { local_key, buckets, applied_pending: VecDeque::new() };
        proof {
            assert forall|j: int| 0 <= j < NUM_BUCKETS implies (#[trigger] r@.buckets[j]).wf()
                && bucket_in(r@.buckets[j], r@.local(), j) by {
                assert(r@.buckets[j] == r.buckets@[j]@);
            }
            assert forall|j: int| 0 <= j < NUM_BUCKETS implies (#[trigger] r@.buckets[j]).entries().len() == 0
                && r@.buckets[j].swamp.pending is None && r@.buckets[j].weighted.pending is None
                && r@.buckets[j].timeout == pending_timeout by {
                assert(r@.buckets[j] == r.buckets@[j]@);
            }
        }
        r
    }

    /// The bucket at index `i`.
    pub(crate) fn bucket_at(&self, i: usize) -> (r: &KBucket<TKey, TVal>)
        requires
            self@.wf(),
            i < NUM_BUCKETS,
        ensures
            r@ == self@.buckets[i as int],
    {
        &self.buckets[i]
    }

    /// The local key.
    pub fn local_key(&self) -> (r: &TKey)
        ensures
            *r == self@.local_key,
    {
        &self.local_key
    }

    /// The index of the bucket that `key` belongs in; `None` for the local
    /// key.
    fn index_of<K: KadKey>(&self, key: &K) -> (r: Option<usize>)
        requires
            self@.wf(),
        ensures
            r == (match self@.index_of(key.key_view()) {
                Some(i) => Some(i as usize),
                None => None,
            }),
            r matches Some(i) ==> i < NUM_BUCKETS,
    {
        let d = self.local_key.key_bytes().distance(key);
        match BucketIndex::new(&d) {
            Some(i) => Some(i.get()),
            None => None,
        }
    }

    /// Applies the pending entries of bucket `i` whose time has come and
    /// records them.
    fn apply_pending_at(&mut self, i: usize)
        requires
            old(self)@.wf(),
            i < NUM_BUCKETS,
        ensures
            final(self)@.wf(),
            applied_at(old(self)@, final(self)@, i as int),
    {
        let ghost old_view = self@;
        let ghost mid = self.buckets@;
        proof {
            assert(forall|x: KBucket<TKey, TVal>| #![trigger mid.update(i as int, x)]
                mid.update(i as int, x).map_values(|b: KBucket<TKey, TVal>| b@)
                    =~= old_view.buckets.update(i as int, x@));
            assert(old_view.buckets[i as int] == self.buckets@[i as int]@);
        }
        let applied = self.buckets[i].apply_pending();
        push_all(&mut self.applied_pending, applied);
        proof {
            let nv = self@;
            assert(apply_post(old_view.buckets[i as int], nv.buckets[i as int], applied@));
            lemma_apply_in(old_view.buckets[i as int], nv.buckets[i as int], applied@, old_view.local(), i as int);
            assert forall|j: int| 0 <= j < NUM_BUCKETS implies (#[trigger] nv.buckets[j]).wf()
                && bucket_in(nv.buckets[j], nv.local(), j) by {
                if j != i {
                    assert(nv.buckets[j] == old_view.buckets[j]);
                }
            }
        }
    }

    /// The entry of `key`, after the pending entries of its bucket whose
    /// time has come were applied.
    pub fn entry(&mut self, key: &TKey) -> (r: Entry<TKey>)
        requires
            old(self)@.wf(),
        ensures
            final(self)@.wf(),
            old(self)@.index_of(key.key_view()) is None ==> r is SelfEntry && final(self)@ == old(self)@,
            old(self)@.index_of(key.key_view()) matches Some(i) ==> {
                &&& applied_at(old(self)@, final(self)@, i as int)
                &&& entry_in(r, final(self)@.buckets[i as int], *key)
            },
    {
        match self.index_of(key) {
            None => Entry::SelfEntry,
            Some(i) => {
                self.apply_pending_at(i);
                let b = &self.buckets[i];
                proof {
                    assert(self@.buckets[i as int] == b@);
                }
                match b.status(key) {
                    Some(s) => Entry::Present(PresentEntry { key: key.clone_key() }, s),
                    None => match b.pending_ref(key) {
                        Some(p) => Entry::Pending(PendingEntry { key: key.clone_key() }, p.status()),
                        None => Entry::Absent(AbsentEntry { key: key.clone_key() }),
                    },
                }
            },
        }
    }

    /// Moves the node with key `key` in bucket `i` to the end of the group
    /// of nodes with `status`; every other part of the table stays.
    fn update_at(&mut self, i: usize, key: &TKey, status: NodeStatus)
        requires
            old(self)@.wf(),
            i < NUM_BUCKETS,
        ensures
            final(self)@.wf(),
            final(self)@.local_key == old(self)@.local_key,
            final(self)@.applied == old(self)@.applied,
            final(self)@.buckets == old(self)@.buckets.update(i as int, final(self)@.buckets[i as int]),
            update_post(old(self)@.buckets[i as int], final(self)@.buckets[i as int], key.key_view(), status),
    {
        let ghost old_view = self@;
        let ghost mid = self.buckets@;
        proof {
            assert(forall|x: KBucket<TKey, TVal>| #![trigger mid.update(i as int, x)]
                mid.update(i as int, x).map_values(|b: KBucket<TKey, TVal>| b@)
                    =~= old_view.buckets.update(i as int, x@));
            assert(old_view.buckets[i as int] == self.buckets@[i as int]@);
        }
        self.buckets[i].update(key, status);
        proof {
            let nv = self@;
            lemma_update_in(old_view.buckets[i as int], nv.buckets[i as int], key.key_view(), status, old_view.local(), i as int);
            assert forall|j: int| 0 <= j < NUM_BUCKETS implies (#[trigger] nv.buckets[j]).wf()
                && bucket_in(nv.buckets[j], nv.local(), j) by {
                if j != i {
                    assert(nv.buckets[j] == old_view.buckets[j]);
                }
            }
            assert(nv.buckets =~= old_view.buckets.update(i as int, nv.buckets[i as int]));
        }
    }

    /// Sets the status of the pending entry with key `key` of bucket `i`.
    fn update_pending_at(&mut self, i: usize, key: &TKey, status: NodeStatus)
        requires
            old(self)@.wf(),
            i < NUM_BUCKETS,
        ensures
            final(self)@.wf(),
            final(self)@.local_key == old(self)@.local_key,
            final(self)@.applied == old(self)@.applied,
            final(self)@.buckets == old(self)@.buckets.update(i as int, final(self)@.buckets[i as int]),
            update_pending_post(old(self)@.buckets[i as int], final(self)@.buckets[i as int], key.key_view(), status),
    {
        let ghost old_view = self@;
        let ghost mid = self.buckets@;
        proof {
            assert(forall|x: KBucket<TKey, TVal>| #![trigger mid.update(i as int, x)]
                mid.update(i as int, x).map_values(|b: KBucket<TKey, TVal>| b@)
                    =~= old_view.buckets.update(i as int, x@));
            assert(old_view.buckets[i as int] == self.buckets@[i as int]@);
        }
        self.buckets[i].update_pending(key, status);
        proof {
            let nv = self@;
            lemma_update_pending_in(old_view.buckets[i as int], nv.buckets[i as int], key.key_view(), status, old_view.local(), i as int);
            assert forall|j: int| 0 <= j < NUM_BUCKETS implies (#[trigger] nv.buckets[j]).wf()
                && bucket_in(nv.buckets[j], nv.local(), j) by {
                if j != i {
                    assert(nv.buckets[j] == old_view.buckets[j]);
                }
            }
            assert(nv.buckets =~= old_view.buckets.update(i as int, nv.buckets[i as int]));
        }
    }

    /// Inserts `node` with `status` into bucket `i`, where its key belongs.
    fn insert_at(&mut self, i: usize, node: Node<TKey, TVal>, status: NodeStatus) -> (r: InsertResult<TKey>)
        requires
            old(self)@.wf(),
            i < NUM_BUCKETS,
            in_bucket(old(self)@.local(), i as int, node.key.key_view()),
        ensures
            final(self)@.wf(),
            final(self)@.local_key == old(self)@.local_key,
            final(self)@.applied == old(self)@.applied,
            final(self)@.buckets == old(self)@.buckets.update(i as int, final(self)@.buckets[i as int]),
            exists|now: Instant| #[trigger] insert_post(old(self)@.buckets[i as int], final(self)@.buckets[i as int], node, status, r, now),
    {
        let ghost old_view = self@;
        let ghost mid = self.buckets@;
        let ghost n = node;
        proof {
            assert(forall|x: KBucket<TKey, TVal>| #![trigger mid.update(i as int, x)]
                mid.update(i as int, x).map_values(|b: KBucket<TKey, TVal>| b@)
                    =~= old_view.buckets.update(i as int, x@));
            assert(old_view.buckets[i as int] == self.buckets@[i as int]@);
        }
        let r = self.buckets[i].insert(node, status);
        proof {
            let nv = self@;
            let now = choose|now: Instant| #[trigger] insert_post(old_view.buckets[i as int], nv.buckets[i as int], n, status, r, now);
            lemma_insert_in(old_view.buckets[i as int], nv.buckets[i as int], n, status, r, now, old_view.local(), i as int);
            assert forall|j: int| 0 <= j < NUM_BUCKETS implies (#[trigger] nv.buckets[j]).wf()
                && bucket_in(nv.buckets[j], nv.local(), j) by {
                if j != i {
                    assert(nv.buckets[j] == old_view.buckets[j]);
                }
            }
            assert(nv.buckets =~= old_view.buckets.update(i as int, nv.buckets[i as int]));
        }
        r
    }

    /// Consumes the oldest record of an applied pending entry, if any.
    ///
    /// A pending entry is applied, replacing the least-recently
    /// (dis)connected node of its bucket, once its timeout has passed and
    /// the table looks at its bucket; the record of that must be consumed
    /// with this function.
    pub fn take_applied_pending(&mut self) -> (r: Option<AppliedPending<TKey, TVal>>)
        ensures
            final(self)@.local_key == old(self)@.local_key,
            final(self)@.buckets == old(self)@.buckets,
            old(self)@.applied.len() == 0 ==> r is None && final(self)@.applied == old(self)@.applied,
            old(self)@.applied.len() > 0 ==> r == Some(old(self)@.applied[0])
                && final(self)@.applied == old(self)@.applied.drop_first(),
    {
        let r = self.applied_pending.pop_front();
        proof {
            if old(self)@.applied.len() > 0 {
                assert(self@.applied =~= old(self)@.applied.drop_first());
            }
        }
        r
    }
}

impl<TKey: KadKey> PresentEntry<TKey> {
    /// The key of the entry.
    pub fn key(&self) -> (r: &TKey)
        ensures
            *r == self.key,
    {
        &self.key
    }

    /// Moves the node of the entry to the end of the group of nodes with
    /// `status` in its bucket.
    pub fn update<TVal: Clone>(self, table: &mut KBucketsTable<TKey, TVal>, status: NodeStatus) -> (r: Self)
        requires
            old(table)@.wf(),
        ensures
            final(table)@.wf(),
            r.key == self.key,
            final(table)@.local_key == old(table)@.local_key,
            final(table)@.applied == old(table)@.applied,
            old(table)@.index_of(self.key.key_view()) is None ==> final(table)@ == old(table)@,
            old(table)@.index_of(self.key.key_view()) matches Some(i) ==> {
                &&& final(table)@.buckets == old(table)@.buckets.update(i as int, final(table)@.buckets[i as int])
                &&& update_post(old(table)@.buckets[i as int], final(table)@.buckets[i as int], self.key.key_view(), status)
            },
    {
        match table.index_of(&self.key) {
            Some(i) => table.update_at(i, &self.key, status),
            None => {},
        }
        self
    }
}

impl<TKey: KadKey> PresentEntry<TKey> {
    /// Borrows the value of the node of the entry in `table` mutably, if
    /// the table still holds it (see `KBucketsTable::value_mut`).
    pub fn value<'a, TVal: Clone>(&self, table: &'a mut KBucketsTable<TKey, TVal>) -> (r: Option<&'a mut TVal>)
        requires
            old(table)@.wf(),
        ensures
            final(table)@.wf(),
            match old(table)@.index_of(self.key.key_view()) {
                None => r is None && final(table)@ == old(table)@,
                Some(i) => match bucket_value(old(table)@.buckets[i as int], self.key.key_view()) {
                    None => r is None && final(table)@ == old(table)@,
                    Some(v) => r is Some && *r.unwrap() == v && final(table)@ == (TableView {
                        buckets: old(table)@.buckets.update(i as int, with_value(old(table)@.buckets[i as int], self.key.key_view(), *final(r.unwrap()))),
                        ..old(table)@
                    }),
                },
            },
    {
        table.value_mut(&self.key)
    }
}

impl<TKey: KadKey> PendingEntry<TKey> {
    /// The key of the entry.
    pub fn key(&self) -> (r: &TKey)
        ensures
            *r == self.key,
    {
        &self.key
    }

    /// Sets the status of the pending node of the entry.
    pub fn update<TVal: Clone>(self, table: &mut KBucketsTable<TKey, TVal>, status: NodeStatus) -> (r: Self)
        requires
            old(table)@.wf(),
        ensures
            final(table)@.wf(),
            r.key == self.key,
            final(table)@.local_key == old(table)@.local_key,
            final(table)@.applied == old(table)@.applied,
            old(table)@.index_of(self.key.key_view()) is None ==> final(table)@ == old(table)@,
            old(table)@.index_of(self.key.key_view()) matches Some(i) ==> {
                &&& final(table)@.buckets == old(table)@.buckets.update(i as int, final(table)@.buckets[i as int])
                &&& update_pending_post(old(table)@.buckets[i as int], final(table)@.buckets[i as int], self.key.key_view(), status)
            },
    {
        match table.index_of(&self.key) {
            Some(i) => table.update_pending_at(i, &self.key, status),
            None => {},
        }
        self
    }
}

impl<TKey: KadKey> AbsentEntry<TKey> {
    /// The key of the entry.
    pub fn key(&self) -> (r: &TKey)
        ensures
            *r == self.key,
    {
        &self.key
    }

    /// Attempts to insert a node with the key of the entry, `value` and
    /// `weight` into its bucket with `status`.
    pub fn insert<TVal: Clone>(self, table: &mut KBucketsTable<TKey, TVal>, value: TVal, status: NodeStatus, weight: u32) -> (r: InsertResult<TKey>)
        requires
            old(table)@.wf(),
            old(table)@.index_of(self.key.key_view()) is Some,
        ensures
            final(table)@.wf(),
            final(table)@.local_key == old(table)@.local_key,
            final(table)@.applied == old(table)@.applied,
            ({
                let i = old(table)@.index_of(self.key.key_view()).unwrap() as int;
                &&& final(table)@.buckets == old(table)@.buckets.update(i, final(table)@.buckets[i])
                &&& exists|now: Instant| #[trigger] insert_post(old(table)@.buckets[i], final(table)@.buckets[i], Node { key: self.key, value, weight }, status, r, now)
            }),
    {
        let i = match table.index_of(&self.key) {
            Some(i) => i,
            None => {
                proof {
                    assert(false);
                }
                0
            },
        };
        let kb = self.key.key_bytes();
        proof {
            lemma_key_bytes_len(*kb);
        }
        table.insert_at(i, Node { key: self.key, value, weight }, status)
    }
}

/// The distances of the keys of the entries `es` to the target with key
/// bytes `t`.
pub open spec fn dists_of<TKey: KadKey, TVal>(es: Seq<(Node<TKey, TVal>, NodeStatus)>, t: Seq<u8>) -> Seq<Seq<u8>> {
    Seq::new(es.len(), |j: int| xor_bytes(t, es[j].0.key.key_view()))
}

/// The entries `es` ordered by the distance of their keys to the target
/// `t`, entries at equal distance in their order in `es`.
pub open spec fn sort_by_target<TKey: KadKey, TVal>(es: Seq<(Node<TKey, TVal>, NodeStatus)>, t: Seq<u8>) -> Seq<(Node<TKey, TVal>, NodeStatus)> {
    sorted_by_distance(es.len(), dists_of(es, t)).map_values(|j: int| es[j])
}

/// The distances of the keys of the entries of bucket `v` to the target
/// with key bytes `t`.
pub open spec fn entry_distances<TKey: KadKey, TVal>(v: KBucketView<TKey, TVal>, t: Seq<u8>) -> Seq<Seq<u8>> {
    dists_of(v.entries(), t)
}

/// The entries of bucket `v` ordered by the distance of their keys to the
/// target `t`, entries at equal distance in the order of the bucket.
pub open spec fn chunk_entries<TKey: KadKey, TVal>(v: KBucketView<TKey, TVal>, t: Seq<u8>) -> Seq<(Node<TKey, TVal>, NodeStatus)> {
    sort_by_target(v.entries(), t)
}

/// The entries that the borrowed entries `v` stand for.
pub open spec fn entries_model<'a, TKey, TVal>(v: Seq<(&'a Node<TKey, TVal>, NodeStatus)>) -> Seq<(Node<TKey, TVal>, NodeStatus)> {
    v.map_values(|x: (&'a Node<TKey, TVal>, NodeStatus)| (*x.0, x.1))
}

/// The entries of the buckets with the indices `idxs` of table `tv`, each
/// bucket ordered by distance to `t`, one bucket after the other.
pub open spec fn entries_along<TKey: KadKey, TVal>(tv: TableView<TKey, TVal>, t: Seq<u8>, idxs: Seq<int>) -> Seq<(Node<TKey, TVal>, NodeStatus)>
    decreases idxs.len(),
{
    if idxs.len() == 0 {
        Seq::empty()
    } else {
        entries_along(tv, t, idxs.drop_last()) + chunk_entries(tv.buckets[idxs.last()], t)
    }
}

/// The entries of table `tv` closest to the target `t`: the buckets in the
/// order of `visit_order` for the distance of the target to the local key,
/// each ordered by distance to the target.
pub open spec fn closest_entries<TKey: KadKey, TVal>(tv: TableView<TKey, TVal>, t: Seq<u8>) -> Seq<(Node<TKey, TVal>, NodeStatus)> {
    entries_along(tv, t, visit_order(xor_bytes(tv.local(), t)))
}

/// The model of a key: its own model and its key bytes.
pub open spec fn key_model<TKey: KadKey>(k: TKey) -> (TKey::V, Seq<u8>) {
    (k@, k.key_view())
}

/// `states` runs from `old` to `new`, each state following the one before
/// by applying the pending entries of the bucket with the next index of
/// `idxs`.
pub open spec fn is_apply_chain<TKey: KadKey, TVal: Clone>(
    states: Seq<TableView<TKey, TVal>>,
    old: TableView<TKey, TVal>,
    new: TableView<TKey, TVal>,
    idxs: Seq<int>,
) -> bool {
    &&& states.len() == idxs.len() + 1
    &&& states[0] == old
    &&& states.last() == new
    &&& forall|k: int| #![trigger states[k + 1]] 0 <= k < idxs.len() ==> applied_at(states[k], states[k + 1], idxs[k])
}

/// Applying pending entries along a chain keeps the local key.
pub proof fn lemma_along_local<TKey: KadKey, TVal: Clone>(old: TableView<TKey, TVal>, new: TableView<TKey, TVal>, idxs: Seq<int>)
    requires
        applied_along(old, new, idxs),
    ensures
        new.local_key == old.local_key,
{
    let states = choose|states: Seq<TableView<TKey, TVal>>| is_apply_chain(states, old, new, idxs);
    lemma_chain_local(states, old, new, idxs, idxs.len() as int);
}

/// Every state of a chain of applications has the local key of the first.
proof fn lemma_chain_local<TKey: KadKey, TVal: Clone>(
    states: Seq<TableView<TKey, TVal>>,
    old: TableView<TKey, TVal>,
    new: TableView<TKey, TVal>,
    idxs: Seq<int>,
    k: int,
)
    requires
        is_apply_chain(states, old, new, idxs),
        0 <= k <= idxs.len(),
    ensures
        states[k].local_key == old.local_key,
    decreases k,
{
    if k > 0 {
        lemma_chain_local(states, old, new, idxs, k - 1);
        let j = k - 1;
        assert(applied_at(states[j], states[j + 1], idxs[j]));
    }
}

/// A chain of applications extended by one more.
proof fn lemma_chain_push<TKey: KadKey, TVal: Clone>(
    states: Seq<TableView<TKey, TVal>>,
    old: TableView<TKey, TVal>,
    cur: TableView<TKey, TVal>,
    new: TableView<TKey, TVal>,
    idxs: Seq<int>,
    i: int,
)
    requires
        is_apply_chain(states, old, cur, idxs),
        applied_at(cur, new, i),
    ensures
        is_apply_chain(states.push(new), old, new, idxs.push(i)),
{
    let ns = states.push(new);
    let nd = idxs.push(i);
    assert forall|k: int| 0 <= k < nd.len() implies applied_at(#[trigger] ns[k], ns[k + 1], nd[k]) by {
        if k < idxs.len() {
            assert(ns[k] == states[k] && ns[k + 1] == states[k + 1] && nd[k] == idxs[k]);
        }
    }
}

/// `new` is `old` after the pending entries of the buckets with the
/// indices `idxs` were applied, in that order, where their time had come.
pub open spec fn applied_along<TKey: KadKey, TVal: Clone>(old: TableView<TKey, TVal>, new: TableView<TKey, TVal>, idxs: Seq<int>) -> bool {
    exists|states: Seq<TableView<TKey, TVal>>| is_apply_chain(states, old, new, idxs)
}

/// The entries `es` ordered by the distance of their keys to `t`, entries
/// at equal distance in their order in `es`.
pub fn sort_entries<'a, TKey: KadKey, TVal>(es: &Vec<(&'a Node<TKey, TVal>, NodeStatus)>, t: &KeyBytes) -> (r: Vec<(&'a Node<TKey, TVal>, NodeStatus)>)
    ensures
        entries_model(r@) == sort_by_target(entries_model(es@), t@),
{
    let ghost em = entries_model(es@);
    let ghost ed = dists_of(em, t@);
    let mut ds: Vec<Distance> = Vec::new();
    let mut j: usize = 0;
    while j < es.len()
        invariant
            em == entries_model(es@),
            ed == dists_of(em, t@),
            0 <= j <= es@.len(),
            ds@.len() == j,
            forall|q: int| 0 <= q < j ==> (#[trigger] ds@[q])@ == ed[q],
        decreases es@.len() - j,
    {
        let d = t.distance(&es[j].0.key);
        proof {
            assert(em[j as int] == (*es@[j as int].0, es@[j as int].1));
        }
        ds.push(d);
        j += 1;
    }
    proof {
        assert(distance_views(ds@) =~= ed);
    }
    let order = sort_indices_by_distance(&ds);
    let ghost n = es@.len();
    proof {
        lemma_sorted_by_distance_indices(n as nat, ed);
    }
    let ghost so = sorted_by_distance(n as nat, ed);
    let ghost target = sort_by_target(em, t@);
    let mut r: Vec<(&'a Node<TKey, TVal>, NodeStatus)> = Vec::new();
    let mut p: usize = 0;
    while p < order.len()
        invariant
            em == entries_model(es@),
            ed == dists_of(em, t@),
            n == es@.len(),
            so == sorted_by_distance(n as nat, ed),
            target == sort_by_target(em, t@),
            ints(order@) == so,
            so.len() == n,
            forall|q: int| 0 <= q < n ==> 0 <= #[trigger] so[q] < n,
            0 <= p <= order@.len(),
            r@.len() == p,
            forall|q: int| 0 <= q < p ==> (*(#[trigger] r@[q]).0, r@[q].1) == target[q],
        decreases order@.len() - p,
    {
        let k = order[p];
        proof {
            assert(ints(order@)[p as int] == k as int);
            assert(so[p as int] == k as int);
            assert(em[k as int] == (*es@[k as int].0, es@[k as int].1));
        }
        r.push(es[k]);
        p += 1;
    }
    proof {
        assert(entries_model(r@) =~= target);
    }
    r
}

/// The entries of bucket `b` ordered by the distance of their keys to `t`.
fn bucket_closest<'a, TKey: KadKey, TVal: Clone>(b: &'a KBucket<TKey, TVal>, t: &KeyBytes) -> (r: Vec<(&'a Node<TKey, TVal>, NodeStatus)>)
    requires
        b@.wf(),
    ensures
        r@.len() == chunk_entries(b@, t@).len(),
        forall|j: int| 0 <= j < r@.len() ==> *(#[trigger] r@[j]).0 == chunk_entries(b@, t@)[j].0
            && r@[j].1 == chunk_entries(b@, t@)[j].1,
{
    let es = b.iter();
    proof {
        assert(entries_model(es@) =~= b@.entries());
    }
    let r = sort_entries(&es, t);
    proof {
        assert forall|j: int| 0 <= j < r@.len() implies *(#[trigger] r@[j]).0 == chunk_entries(b@, t@)[j].0
            && r@[j].1 == chunk_entries(b@, t@)[j].1 by {
            assert(entries_model(r@)[j] == (*r@[j].0, r@[j].1));
        }
    }
    r
}

impl<TKey: KadKey, TVal: Clone> KBucketsTable<TKey, TVal> {
    /// Applies the pending entries of the buckets in the order in which
    /// they are visited for a target at distance `d` from the local key.
    fn apply_along(&mut self, d: Distance)
        requires
            old(self)@.wf(),
        ensures
            final(self)@.wf(),
            final(self)@.local_key == old(self)@.local_key,
            applied_along(old(self)@, final(self)@, visit_order(d@)),
    {
        let mut it = ClosestBucketsIter::new(d);
        let ghost vo = visit_order(d@);
        let ghost mut done: Seq<int> = Seq::empty();
        let ghost mut states: Seq<TableView<TKey, TVal>> = seq![self@];
        proof {
            assert(done + it.remaining() =~= vo);
        }
        loop
            invariant
                self@.wf(),
                self@.local_key == old(self)@.local_key,
                it.wf(),
                it.spec_distance() == d@,
                done + it.remaining() == vo,
                vo == visit_order(d@),
                is_apply_chain(states, old(self)@, self@, done),
            ensures
                self@.wf(),
                self@.local_key == old(self)@.local_key,
                done == vo,
                is_apply_chain(states, old(self)@, self@, done),
            decreases it.remaining().len(),
        {
            let ghost before = self@;
            let ghost rem = it.remaining();
            match it.next() {
                Some(i) => {
                    self.apply_pending_at(i.get());
                    proof {
                        lemma_chain_push(states, old(self)@, before, self@, done, i.0 as int);
                        let nd = done.push(i.0 as int);
                        states = states.push(self@);
                        assert(nd + it.remaining() =~= vo) by {
                            assert(rem == seq![i.0 as int] + rem.drop_first());
                            assert(done + rem == vo);
                        }
                        done = nd;
                    }
                },
                None => {
                    proof {
                        assert(done =~= vo);
                    }
                    break;
                },
            }
        }
        assert(is_apply_chain(states, old(self)@, self@, vo));
    }

    /// The keys of the table for `target`, weighted nodes first: see
    /// `weighted_order`.
    ///
    /// The pending entries of every bucket whose time has come are applied
    /// first, bucket by bucket in the order in which they are visited.
    pub fn closest_keys<T: KadKey>(&mut self, target: &T) -> (r: Vec<TKey>)
        requires
            old(self)@.wf(),
        ensures
            final(self)@.wf(),
            applied_along(old(self)@, final(self)@, visit_order(xor_bytes(old(self)@.local(), target.key_view()))),
            r@.map_values(|k: TKey| key_model(k)) == weighted_order(final(self)@, target.key_view()).map_values(
                |e: (Node<TKey, TVal>, NodeStatus)| key_model(e.0.key)),
    {
        let d = self.local_key.key_bytes().distance(target);
        self.apply_along(d);
        let tk = target.key_bytes();
        assert(d@ == xor_bytes(self@.local(), target.key_view()));
        let ghost t = target.key_view();
        let ghost all = weighted_order(self@, t);
        let mut it = WeightedIter::new(&*self, d, tk);
        let mut out: Vec<TKey> = Vec::new();
        proof {
            assert(out@.map_values(|k: TKey| key_model(k)) + it.remaining().map_values(|e: (Node<TKey, TVal>, NodeStatus)| key_model(e.0.key))
                =~= all.map_values(|e: (Node<TKey, TVal>, NodeStatus)| key_model(e.0.key)));
        }
        loop
            invariant
                it.wf(),
                it.spec_table() == self@,
                it.spec_target() == t,
                out@.map_values(|k: TKey| key_model(k)) + it.remaining().map_values(|e: (Node<TKey, TVal>, NodeStatus)| key_model(e.0.key))
                    == all.map_values(|e: (Node<TKey, TVal>, NodeStatus)| key_model(e.0.key)),
            ensures
                out@.map_values(|k: TKey| key_model(k)) == all.map_values(|e: (Node<TKey, TVal>, NodeStatus)| key_model(e.0.key)),
            decreases it.remaining().len(),
        {
            let ghost rem = it.remaining();
            match it.next() {
                Some(e) => {
                    let k = e.0.key.clone_key();
                    let ghost om = out@;
                    out.push(k);
                    proof {
                        let f = |e: (Node<TKey, TVal>, NodeStatus)| key_model(e.0.key);
                        let g = |k: TKey| key_model(k);
                        assert(key_model(k) == f(rem[0]));
                        assert(out@.map_values(g) =~= om.map_values(g).push(key_model(k)));
                        assert(rem.map_values(f) =~= seq![f(rem[0])] + rem.drop_first().map_values(f));
                        assert(out@.map_values(g) + it.remaining().map_values(f) =~= om.map_values(g) + rem.map_values(f));
                    }
                },
                None => {
                    proof {
                        assert(it.remaining().map_values(|e: (Node<TKey, TVal>, NodeStatus)| key_model(e.0.key)) =~= Seq::<(TKey::V, Seq<u8>)>::empty());
                        assert(out@.map_values(|k: TKey| key_model(k)) + Seq::<(TKey::V, Seq<u8>)>::empty() =~= out@.map_values(|k: TKey| key_model(k)));
                    }
                    break;
                },
            }
        }
        out
    }

    /// Copies of the entries of the table, closest to `target` first.
    ///
    /// The pending entries of every bucket whose time has come are applied
    /// first, bucket by bucket in the order in which they are visited.
    pub fn closest<T: KadKey>(&mut self, target: &T) -> (r: Vec<EntryView<TKey, TVal>>)
        requires
            old(self)@.wf(),
        ensures
            final(self)@.wf(),
            applied_along(old(self)@, final(self)@, visit_order(xor_bytes(old(self)@.local(), target.key_view()))),
            r@.len() == closest_entries(final(self)@, target.key_view()).len(),
            forall|p: int| 0 <= p < r@.len() ==> node_cloned(closest_entries(final(self)@, target.key_view())[p].0, (#[trigger] r@[p]).node)
                && r@[p].status == closest_entries(final(self)@, target.key_view())[p].1,
            forall|p: int, q: int| 0 <= p < q < r@.len() ==> !lex_lt(
                xor_bytes(target.key_view(), (#[trigger] r@[q]).node.key.key_view()),
                xor_bytes(target.key_view(), (#[trigger] r@[p]).node.key.key_view()),
            ),
    {
        let d = self.local_key.key_bytes().distance(target);
        self.apply_along(d);
        let tk = target.key_bytes();
        assert(d@ == xor_bytes(self@.local(), target.key_view()));
        let ghost t = target.key_view();
        let ghost vo = visit_order(d@);
        let mut out: Vec<EntryView<TKey, TVal>> = Vec::new();
        let mut it = ClosestBucketsIter::new(d);
        let ghost mut done: Seq<int> = Seq::empty();
        proof {
            assert(done + it.remaining() =~= vo);
        }
        loop
            invariant
                self@.wf(),
                tk@ == t,
                it.wf(),
                it.spec_distance() == d@,
                done + it.remaining() == vo,
                out@.len() == entries_along(self@, t, done).len(),
                forall|p: int| 0 <= p < out@.len() ==> node_cloned(entries_along(self@, t, done)[p].0, (#[trigger] out@[p]).node)
                    && out@[p].status == entries_along(self@, t, done)[p].1,
            ensures
                done == vo,
                out@.len() == entries_along(self@, t, done).len(),
                forall|p: int| 0 <= p < out@.len() ==> node_cloned(entries_along(self@, t, done)[p].0, (#[trigger] out@[p]).node)
                    && out@[p].status == entries_along(self@, t, done)[p].1,
            decreases it.remaining().len(),
        {
            let ghost rem = it.remaining();
            match it.next() {
                Some(i) => {
                    let b = &self.buckets[i.get()];
                    proof {
                        assert(self@.buckets[i.0 as int] == b@);
                    }
                    let chunk = bucket_closest(b, tk);
                    let ghost ce = chunk_entries(b@, t);
                    let ghost prefix = entries_along(self@, t, done);
                    let mut j: usize = 0;
                    while j < chunk.len()
                        invariant
                            chunk@.len() == ce.len(),
                            forall|q: int| 0 <= q < chunk@.len() ==> *(#[trigger] chunk@[q]).0 == ce[q].0 && chunk@[q].1 == ce[q].1,
                            0 <= j <= chunk@.len(),
                            out@.len() == prefix.len() + j,
                            forall|p: int| 0 <= p < out@.len() ==> node_cloned((prefix + ce)[p].0, (#[trigger] out@[p]).node)
                                && out@[p].status == (prefix + ce)[p].1,
                        decreases chunk@.len() - j,
                    {
                        let node = chunk[j].0.clone_node();
                        out.push(EntryView { node, status: chunk[j].1 });
                        j += 1;
                    }
                    proof {
                        let nd = done.push(i.0 as int);
                        assert(nd.drop_last() =~= done);
                        assert(entries_along(self@, t, nd) == prefix + ce);
                        assert(nd + it.remaining() =~= vo) by {
                            assert(rem == seq![i.0 as int] + rem.drop_first());
                        }
                        done = nd;
                    }
                },
                None => {
                    proof {
                        assert(done =~= vo);
                    }
                    break;
                },
            }
        }
        proof {
            let tv = self@;
            let ce = closest_entries(tv, t);
            lemma_key_bytes_len(*tk);
            lemma_closest_sorted(tv, t);
            assert forall|p: int, q: int| 0 <= p < q < out@.len() implies !lex_lt(
                xor_bytes(t, (#[trigger] out@[q]).node.key.key_view()),
                xor_bytes(t, (#[trigger] out@[p]).node.key.key_view()),
            ) by {
                assert(node_cloned(ce[p].0, out@[p].node));
                assert(node_cloned(ce[q].0, out@[q].node));
            }
        }
        out
    }

    /// The number of nodes between the local node and the target: those of
    /// the bucket of the target at least as close to the local key as the
    /// target, and all those of the buckets visited after it while zooming
    /// in towards the local key, up to bucket `0` (excluded).
    pub fn count_nodes_between<T: KadKey>(&self, target: &T) -> (r: usize)
        requires
            self@.wf(),
        ensures
            r == count_between(self@, target.key_view()),
    {
        let tk = target.key_bytes();
        let distance = tk.distance(&self.local_key);
        let ghost dd = distance@;
        let ghost tv = self@;
        let ghost vo = visit_order(dd);
        proof {
            lemma_visit_order(dd);
        }
        let mut it = ClosestBucketsIter::new(distance);
        let ghost rem0 = it.remaining();
        let first = match it.next() {
            Some(i) => i,
            None => {
                proof {
                    assert(vo.len() > 0);
                }
                return 0;
            },
        };
        if first.get() == 0 {
            return 0;
        }
        let i = first.get();
        let b = &self.buckets[i];
        proof {
            assert(tv.buckets[i as int] == b@);
            crate::kbucket::weighted::lemma_weighted_entries_len(b@.weighted.subs);
        }
        let es = b.iter();
        let ghost ents = b@.entries();
        let mut num_first: usize = 0;
        let mut k: usize = 0;
        while k < es.len()
            invariant
                es@.len() == ents.len(),
                forall|q: int| 0 <= q < es@.len() ==> *(#[trigger] es@[q]).0 == ents[q].0 && es@[q].1 == ents[q].1,
                0 <= k <= es@.len(),
                num_first <= k,
                num_first == count_le(ents.take(k as int), tv.local(), dd),
                distance@ == dd,
                self@ == tv,
            decreases es@.len() - k,
        {
            let nd = es[k].0.key.key_bytes().distance(&self.local_key);
            proof {
                assert(ents.take(k + 1).drop_last() =~= ents.take(k as int));
                assert(ents.take(k + 1).last() == ents[k as int]);
            }
            if !distance.lt(&nd) {
                num_first += 1;
            }
            k += 1;
        }
        proof {
            assert(ents.take(es@.len() as int) =~= ents);
        }
        let mut rest: usize = 0;
        let ghost mut mid: Seq<int> = Seq::empty();
        let ghost mut done: Seq<int> = seq![i as int];
        proof {
            assert(rem0 == vo);
            assert(vo[0] == i as int);
            assert(done + it.remaining() =~= vo);
            assert(prefix_before_zero(vo) == seq![vo[0]] + prefix_before_zero(vo.drop_first()));
            assert(it.remaining() == vo.drop_first());
            assert(seq![i as int] + mid + prefix_before_zero(it.remaining()) =~= prefix_before_zero(vo));
        }
        loop
            invariant_except_break
                done + it.remaining() == vo,
                seq![i as int] + mid + prefix_before_zero(it.remaining()) == prefix_before_zero(vo),
                done.len() >= 1,
                mid.len() < done.len(),
            invariant
                self@ == tv,
                tv.wf(),
                it.wf(),
                it.spec_distance() == dd,
                vo.len() <= 512,
                forall|a: int| 0 <= a < vo.len() ==> 0 <= #[trigger] vo[a] < 256,
                forall|a: int| 0 <= a < mid.len() ==> 0 <= #[trigger] mid[a] < 256,
                rest == sum_entries(tv, mid),
                rest <= 40 * mid.len(),
            ensures
                seq![i as int] + mid == prefix_before_zero(vo),
                rest == sum_entries(tv, mid),
                rest <= 40 * 512,
            decreases it.remaining().len(),
        {
            let ghost rem = it.remaining();
            match it.next() {
                Some(j) => {
                    if j.get() == 0 {
                        proof {
                            assert(rem[0] == 0);
                            assert(prefix_before_zero(rem) == Seq::<int>::empty());
                            assert(seq![i as int] + mid =~= prefix_before_zero(vo));
                        }
                        break;
                    }
                    let bj = &self.buckets[j.get()];
                    proof {
                        assert(done.len() + rem.len() == vo.len());
                        assert(vo[done.len() as int] == rem[0]);
                        assert(tv.buckets[j.0 as int] == bj@);
                        crate::kbucket::weighted::lemma_weighted_entries_len(bj@.weighted.subs);
                    }
                    let n = bj.num_entries();
                    rest = rest + n;
                    proof {
                        let nm = mid.push(j.0 as int);
                        assert(nm.drop_last() =~= mid);
                        assert(prefix_before_zero(rem) == seq![rem[0]] + prefix_before_zero(rem.drop_first()));
                        assert(seq![i as int] + nm + prefix_before_zero(it.remaining()) =~= seq![i as int] + mid + prefix_before_zero(rem));
                        let ndone = done.push(j.0 as int);
                        assert(ndone + it.remaining() =~= vo) by {
                            assert(rem == seq![j.0 as int] + rem.drop_first());
                        }
                        mid = nm;
                        done = ndone;
                    }
                },
                None => {
                    proof {
                        assert(rem.len() == 0);
                        assert(seq![i as int] + mid =~= prefix_before_zero(vo));
                    }
                    break;
                },
            }
        }
        proof {
            let pre = prefix_before_zero(vo);
            assert(pre[0] == i as int);
            assert(pre.drop_first() =~= mid);
            assert(dd == xor_bytes(target.key_view(), tv.local()));
        }
        num_first + rest
    }
}

/// The indices of `idxs` before the first `0`.
pub open spec fn prefix_before_zero(idxs: Seq<int>) -> Seq<int>
    decreases idxs.len(),
{
    if idxs.len() == 0 || idxs[0] == 0 {
        Seq::empty()
    } else {
        seq![idxs[0]] + prefix_before_zero(idxs.drop_first())
    }
}

/// The number of entries of the buckets with the indices `idxs`.
pub open spec fn sum_entries<TKey: KadKey, TVal>(tv: TableView<TKey, TVal>, idxs: Seq<int>) -> int
    decreases idxs.len(),
{
    if idxs.len() == 0 {
        0
    } else {
        sum_entries(tv, idxs.drop_last()) + tv.buckets[idxs.last()].num_entries()
    }
}

/// The number of entries of `es` whose keys are at most at distance `d`
/// from `local`.
pub open spec fn count_le<TKey: KadKey, TVal>(es: Seq<(Node<TKey, TVal>, NodeStatus)>, local: Seq<u8>, d: Seq<u8>) -> int
    decreases es.len(),
{
    if es.len() == 0 {
        0
    } else {
        count_le(es.drop_last(), local, d) + if !lex_lt(d, xor_bytes(es.last().0.key.key_view(), local)) { 1int } else { 0int }
    }
}

/// The number of nodes between the local node and the target `t` in table
/// `tv`: with `d` the distance of the target to the local key, the nodes
/// of the bucket of the target at most at distance `d` from the local key,
/// and all nodes of the buckets visited after it up to bucket `0`
/// (excluded); none where the target falls into bucket `0`.
pub open spec fn count_between<TKey: KadKey, TVal>(tv: TableView<TKey, TVal>, t: Seq<u8>) -> int {
    let d = xor_bytes(t, tv.local());
    let pre = prefix_before_zero(visit_order(d));
    if pre.len() == 0 {
        0
    } else {
        count_le(tv.buckets[pre[0]].entries(), tv.local(), d) + sum_entries(tv, pre.drop_first())
    }
}

/// A bucket of a `KBucketsTable`, with its index.
#[derive(Debug)]
pub struct KBucketRef<'a, TKey, TVal> {
    /// The index of the bucket.
    pub index: BucketIndex,
    /// The bucket.
    pub bucket: &'a KBucket<TKey, TVal>,
}

impl<'a, TKey: KadKey, TVal: Clone> KBucketRef<'a, TKey, TVal> {
    /// The smallest and the largest distance to the local key that fall
    /// into this bucket.
    pub fn range(&self) -> (r: (Distance, Distance))
        requires
            self.index.0 < NUM_BUCKETS,
        ensures
            forall|j: int| 0 <= j < 256 ==> (crate::kbucket::key::bit_at(r.0@, j) <==> j == self.index.0),
            forall|j: int| 0 <= j < 256 ==> (crate::kbucket::key::bit_at(r.1@, j) <==> j <= self.index.0),
            spec_ilog2(r.0@) == Some(self.index.0 as u32),
            spec_ilog2(r.1@) == Some(self.index.0 as u32),
    {
        self.index.range()
    }

    /// Whether the bucket has no entries.
    pub fn is_empty(&self) -> (r: bool)
        requires
            self.bucket@.wf(),
        ensures
            r == (self.bucket@.num_entries() == 0),
    {
        self.num_entries() == 0
    }

    /// The number of entries in the bucket.
    pub fn num_entries(&self) -> (r: usize)
        requires
            self.bucket@.wf(),
        ensures
            r == self.bucket@.num_entries(),
    {
        self.bucket.num_entries()
    }

    /// Whether the bucket has a pending node.
    pub fn has_pending(&self) -> (r: bool)
        ensures
            r == (self.bucket@.weighted.pending is Some || self.bucket@.swamp.pending is Some),
    {
        self.bucket.pending_exists()
    }

    /// Whether the distance `d` to the local key falls into this bucket.
    pub fn contains(&self, d: &Distance) -> (r: bool)
        ensures
            r == (spec_ilog2(d@) == Some(self.index.0 as u32) && self.index.0 < NUM_BUCKETS),
    {
        match BucketIndex::new(d) {
            Some(i) => i.0 == self.index.0,
            None => false,
        }
    }

    /// A random distance to the local key that falls into this bucket.
    pub fn rand_distance(&self) -> (r: Distance)
        requires
            self.index.0 < NUM_BUCKETS,
        ensures
            spec_ilog2(r@) == Some(self.index.0 as u32),
    {
        self.index.rand_distance()
    }

    /// The entries of the bucket.
    pub fn iter(&self) -> (r: Vec<(&'a Node<TKey, TVal>, NodeStatus)>)
        requires
            self.bucket@.wf(),
        ensures
            r@.len() == self.bucket@.entries().len(),
            forall|i: int| 0 <= i < r@.len() ==> *(#[trigger] r@[i]).0 == self.bucket@.entries()[i].0
                && r@[i].1 == self.bucket@.entries()[i].1,
    {
        self.bucket.iter()
    }
}

impl<TKey: KadKey, TVal: Clone> KBucketsTable<TKey, TVal> {
    /// Borrows the value of the node with key `key` mutably, if the table
    /// holds one; whatever is written there becomes the node's value.
    pub fn value_mut(&mut self, key: &TKey) -> (r: Option<&mut TVal>)
        requires
            old(self)@.wf(),
        ensures
            final(self)@.wf(),
            match old(self)@.index_of(key.key_view()) {
                None => r is None && final(self)@ == old(self)@,
                Some(i) => match bucket_value(old(self)@.buckets[i as int], key.key_view()) {
                    None => r is None && final(self)@ == old(self)@,
                    Some(v) => r is Some && *r.unwrap() == v && final(self)@ == (TableView {
                        buckets: old(self)@.buckets.update(i as int, with_value(old(self)@.buckets[i as int], key.key_view(), *final(r.unwrap()))),
                        ..old(self)@
                    }),
                },
            },
    {
        let i = match self.index_of(key) {
            Some(i) => i,
            None => return None,
        };
        let ghost old_view = self@;
        let ghost mid = self.buckets@;
        let ghost k = key.key_view();
        proof {
            assert(forall|x: KBucket<TKey, TVal>| #![trigger mid.update(i as int, x)]
                mid.update(i as int, x).map_values(|b: KBucket<TKey, TVal>| b@)
                    =~= old_view.buckets.update(i as int, x@));
            assert(old_view.buckets[i as int] == self.buckets@[i as int]@);
            assert(old_view.buckets.update(i as int, old_view.buckets[i as int]) =~= old_view.buckets);
            lemma_with_value_all(old_view.buckets[i as int], k, old_view.local(), i as int);
            assert forall|val: TVal| #[trigger] with_value(old_view.buckets[i as int], k, val) == with_value(old_view.buckets[i as int], k, val) implies
                (TableView { buckets: old_view.buckets.update(i as int, with_value(old_view.buckets[i as int], k, val)), ..old_view }).wf() by {
                let nv = TableView { buckets: old_view.buckets.update(i as int, with_value(old_view.buckets[i as int], k, val)), ..old_view };
                assert forall|j: int| 0 <= j < NUM_BUCKETS implies (#[trigger] nv.buckets[j]).wf() && bucket_in(nv.buckets[j], nv.local(), j) by {
                    if j != i {
                        assert(nv.buckets[j] == old_view.buckets[j]);
                    }
                }
            }
        }
        self.buckets[i].value_mut(key)
    }
}

impl<TKey: KadKey> KBucketsTable<TKey, Addresses> {
    /// Adds `addr` to the addresses of the node with key `key`, if the
    /// table holds one. Returns whether it was new, with a copy of the
    /// addresses the node now has; `None` where there is no such node.
    pub fn insert_address(&mut self, key: &TKey, addr: Vec<u8>) -> (r: Option<(bool, Addresses)>)
        requires
            old(self)@.wf(),
        ensures
            final(self)@.wf(),
            match old(self)@.index_of(key.key_view()) {
                None => r is None && final(self)@ == old(self)@,
                Some(i) => match bucket_value(old(self)@.buckets[i as int], key.key_view()) {
                    None => r is None && final(self)@ == old(self)@,
                    Some(a) => r matches Some((added, c)) && exists|na: Addresses| #[trigger] address_added(a, na, addr@, added)
                        && c@ == na@ && final(self)@ == (TableView {
                            buckets: old(self)@.buckets.update(i as int, with_value(old(self)@.buckets[i as int], key.key_view(), na)),
                            ..old(self)@
                        }),
                },
            },
    {
        let i = match self.index_of(key) {
            Some(i) => i,
            None => return None,
        };
        let ghost old_view = self@;
        let ghost mid = self.buckets@;
        proof {
            assert(forall|x: KBucket<TKey, Addresses>| #![trigger mid.update(i as int, x)]
                mid.update(i as int, x).map_values(|b: KBucket<TKey, Addresses>| b@)
                    =~= old_view.buckets.update(i as int, x@));
            assert(old_view.buckets[i as int] == self.buckets@[i as int]@);
        }
        let r = self.buckets[i].insert_address(key, addr);
        proof {
            let nv = self@;
            let k = key.key_view();
            if r is Some {
                let a = bucket_value(old_view.buckets[i as int], k).unwrap();
                let na = choose|na: Addresses| #[trigger] address_added(a, na, addr@, r.unwrap().0)
                    && r.unwrap().1@ == na@ && nv.buckets[i as int] == with_value(old_view.buckets[i as int], k, na);
                lemma_with_value_in(old_view.buckets[i as int], k, na, old_view.local(), i as int);
                assert forall|j: int| 0 <= j < NUM_BUCKETS implies (#[trigger] nv.buckets[j]).wf()
                    && bucket_in(nv.buckets[j], nv.local(), j) by {
                    if j != i {
                        assert(nv.buckets[j] == old_view.buckets[j]);
                    }
                }
                assert(nv.buckets =~= old_view.buckets.update(i as int, with_value(old_view.buckets[i as int], k, na)));
            } else {
                assert(nv.buckets =~= old_view.buckets);
            }
        }
        r
    }

    /// A copy of the addresses of the node with key `key`, if the table
    /// holds one. Nothing changes.
    pub fn addresses_of(&mut self, key: &TKey) -> (r: Option<Addresses>)
        requires
            old(self)@.wf(),
        ensures
            final(self)@ == old(self)@,
            match old(self)@.index_of(key.key_view()) {
                None => r is None,
                Some(i) => match bucket_value(old(self)@.buckets[i as int], key.key_view()) {
                    None => r is None,
                    Some(a) => r matches Some(c) && c@ == a@,
                },
            },
    {
        let i = match self.index_of(key) {
            Some(i) => i,
            None => return None,
        };
        let ghost old_view = self@;
        let ghost mid = self.buckets@;
        proof {
            assert(forall|x: KBucket<TKey, Addresses>| #![trigger mid.update(i as int, x)]
                mid.update(i as int, x).map_values(|b: KBucket<TKey, Addresses>| b@)
                    =~= old_view.buckets.update(i as int, x@));
            assert(old_view.buckets[i as int] == self.buckets@[i as int]@);
        }
        let r = self.buckets[i].addresses_of(key);
        proof {
            assert(self@.buckets =~= old_view.buckets);
        }
        r
    }

    /// Adds `addr` to the addresses of the pending node with key `key`, if
    /// the table holds one. Returns whether it was new, `None` where there
    /// is no such node.
    pub fn insert_pending_address(&mut self, key: &TKey, addr: Vec<u8>) -> (r: Option<bool>)
        requires
            old(self)@.wf(),
        ensures
            final(self)@.wf(),
            match old(self)@.index_of(key.key_view()) {
                None => r is None && final(self)@ == old(self)@,
                Some(i) => match bucket_pending(old(self)@.buckets[i as int], key.key_view()) {
                    None => r is None && final(self)@ == old(self)@,
                    Some(p) => r matches Some(added) && exists|na: Addresses| #[trigger] address_added(p.node.value, na, addr@, added)
                        && final(self)@ == (TableView {
                            buckets: old(self)@.buckets.update(i as int, with_pending_value(old(self)@.buckets[i as int], key.key_view(), na)),
                            ..old(self)@
                        }),
                },
            },
    {
        let i = match self.index_of(key) {
            Some(i) => i,
            None => return None,
        };
        let ghost old_view = self@;
        let ghost mid = self.buckets@;
        proof {
            assert(forall|x: KBucket<TKey, Addresses>| #![trigger mid.update(i as int, x)]
                mid.update(i as int, x).map_values(|b: KBucket<TKey, Addresses>| b@)
                    =~= old_view.buckets.update(i as int, x@));
            assert(old_view.buckets[i as int] == self.buckets@[i as int]@);
        }
        let r = self.buckets[i].insert_pending_address(key, addr);
        proof {
            let nv = self@;
            let k = key.key_view();
            if r is Some {
                let p = bucket_pending(old_view.buckets[i as int], k).unwrap();
                let na = choose|na: Addresses| #[trigger] address_added(p.node.value, na, addr@, r.unwrap())
                    && nv.buckets[i as int] == with_pending_value(old_view.buckets[i as int], k, na);
                assert forall|j: int| 0 <= j < NUM_BUCKETS implies (#[trigger] nv.buckets[j]).wf()
                    && bucket_in(nv.buckets[j], nv.local(), j) by {
                    if j != i {
                        assert(nv.buckets[j] == old_view.buckets[j]);
                    }
                }
                assert(nv.buckets =~= old_view.buckets.update(i as int, with_pending_value(old_view.buckets[i as int], k, na)));
            } else {
                assert(nv.buckets =~= old_view.buckets);
            }
        }
        r
    }
}

/// Replacing the value of a node, whatever the new value, keeps a bucket
/// well formed and every key where it belongs.
proof fn lemma_with_value_all<TKey: KadKey, TVal>(v: KBucketView<TKey, TVal>, k: Seq<u8>, local: Seq<u8>, i: int)
    requires
        v.wf(),
        bucket_in(v, local, i),
    ensures
        forall|val: TVal| #[trigger] with_value(v, k, val).wf() && bucket_in(with_value(v, k, val), local, i),
{
    assert forall|val: TVal| #[trigger] with_value(v, k, val).wf() && bucket_in(with_value(v, k, val), local, i) by {
        crate::kbucket::bucket::lemma_with_value_wf(v, k, val);
        lemma_with_value_in(v, k, val, local, i);
    }
}

/// A distance falls into bucket `i` (what `KBucketRef::contains` tests)
/// exactly when, read as an integer, it lies between the two ends of the
/// bucket's range (what `KBucketRef::range` gives), both included; the
/// smaller end is at most the larger one.
pub proof fn lemma_contains_range(i: int, min: Distance, max: Distance, d: Distance)
    requires
        0 <= i < NUM_BUCKETS,
        forall|j: int| 0 <= j < 256 ==> (bit_at(min@, j) <==> j == i),
        forall|j: int| 0 <= j < 256 ==> (bit_at(max@, j) <==> j <= i),
        spec_ilog2(min@) == Some(i as u32),
    ensures
        be_value(min@) <= be_value(max@),
        spec_ilog2(d@) == Some(i as u32) <==> be_value(min@) <= be_value(d@) && be_value(d@) <= be_value(max@),
{
    lemma_distance_len(min);
    lemma_distance_len(max);
    lemma_distance_len(d);
    lemma_range_contains(i, min@, max@, min@);
    lemma_range_contains(i, min@, max@, d@);
    lemma_lex_le_value(min@, max@);
    lemma_lex_le_value(min@, d@);
    lemma_lex_le_value(d@, max@);
}

/// The buckets counted after the target's are those visited before bucket
/// 0: `prefix_before_zero(idxs)` is the longest prefix of `idxs` without 0.
pub proof fn lemma_prefix_before_zero(idxs: Seq<int>)
    ensures
        prefix_before_zero(idxs) == idxs.take(prefix_before_zero(idxs).len() as int),
        prefix_before_zero(idxs).len() <= idxs.len(),
        forall|j: int| 0 <= j < prefix_before_zero(idxs).len() ==> #[trigger] prefix_before_zero(idxs)[j] != 0,
        prefix_before_zero(idxs).len() < idxs.len() ==> idxs[prefix_before_zero(idxs).len() as int] == 0,
    decreases idxs.len(),
{
    if idxs.len() > 0 && idxs[0] != 0 {
        let rest = idxs.drop_first();
        lemma_prefix_before_zero(rest);
        let p = prefix_before_zero(idxs);
        let pr = prefix_before_zero(rest);
        assert(p == seq![idxs[0]] + pr);
        assert(p =~= idxs.take(p.len() as int));
        assert forall|j: int| 0 <= j < p.len() implies #[trigger] p[j] != 0 by {
            if j > 0 {
                assert(p[j] == pr[j - 1]);
            }
        }
        if p.len() < idxs.len() {
            assert(idxs[p.len() as int] == rest[pr.len() as int]);
        }
    } else {
        assert(prefix_before_zero(idxs) =~= idxs.take(0));
    }
}

/// An entry whose key is no farther from the local key bytes `local` than
/// the distance `d`, distances read as integers.
pub open spec fn no_farther<TKey: KadKey, TVal>(local: Seq<u8>, d: Seq<u8>) -> spec_fn((Node<TKey, TVal>, NodeStatus)) -> bool {
    |e: (Node<TKey, TVal>, NodeStatus)| be_value(xor_bytes(e.0.key.key_view(), local)) <= be_value(d)
}

/// Counting the entries `es` within the distance `d` of the local key counts
/// exactly those no farther than `d`: a farther entry never counts.
pub proof fn lemma_count_le_no_farther<TKey: KadKey, TVal>(es: Seq<(Node<TKey, TVal>, NodeStatus)>, local: Seq<u8>, d: Seq<u8>)
    requires
        d.len() == 32,
        forall|j: int| 0 <= j < es.len() ==> (#[trigger] es[j]).0.key.key_view().len() == 32,
    ensures
        count_le(es, local, d) == es.filter(no_farther::<TKey, TVal>(local, d)).len(),
    decreases es.len(),
{
    if es.len() > 0 {
        let init = es.drop_last();
        let x = es.last();
        assert forall|j: int| 0 <= j < init.len() implies (#[trigger] init[j]).0.key.key_view().len() == 32 by {
            assert(init[j] == es[j]);
        }
        lemma_count_le_no_farther(init, local, d);
        assert(init.push(x) =~= es);
        init.lemma_filter_push(x, no_farther::<TKey, TVal>(local, d));
        lemma_lex_le_value(xor_bytes(x.0.key.key_view(), local), d);
    }
}

/// The nodes counted between the local node and a target: in the target's
/// bucket, exactly the entries no farther from the local key than the
/// target; then every entry of the buckets visited after it and before
/// bucket 0. Nothing is counted for the local key itself or a target in
/// bucket 0.
pub proof fn lemma_count_between_no_farther<TKey: KadKey, TVal>(tv: TableView<TKey, TVal>, t: Seq<u8>)
    requires
        tv.wf(),
        t.len() == 32,
    ensures
        ({
            let d = xor_bytes(t, tv.local());
            let pre = prefix_before_zero(visit_order(d));
            &&& pre.len() == 0 ==> count_between(tv, t) == 0
            &&& pre.len() > 0 ==> count_between(tv, t) == tv.buckets[pre[0]].entries().filter(no_farther::<TKey, TVal>(tv.local(), d)).len()
                + sum_entries(tv, pre.drop_first())
        }),
{
    let d = xor_bytes(t, tv.local());
    let vo = visit_order(d);
    let pre = prefix_before_zero(vo);
    lemma_visit_order(d);
    if pre.len() > 0 {
        assert(vo.len() > 0 && vo[0] != 0);
        assert(pre == seq![vo[0]] + prefix_before_zero(vo.drop_first()));
        let i = pre[0];
        assert(0 <= i < NUM_BUCKETS);
        let es = tv.buckets[i].entries();
        crate::kbucket::placement::lemma_entries_in(tv.buckets[i], tv.local(), i);
        lemma_count_le_no_farther(es, tv.local(), d);
    }
}

/// For bytes of equal length, `a` does not come after `b` exactly when the
/// value of `a` is at most that of `b`.
proof fn lemma_lex_le_value(a: Seq<u8>, b: Seq<u8>)
    requires
        a.len() == b.len(),
    ensures
        !lex_lt(b, a) <==> be_value(a) <= be_value(b),
{
    if lex_lt(b, a) {
        lemma_lex_lt_value(b, a);
    } else if lex_lt(a, b) {
        lemma_lex_lt_value(a, b);
    } else {
        lemma_lex_total(a, b);
    }
}

/// The indices `0..n`.
pub open spec fn all_indices(n: int) -> Seq<int> {
    Seq::new(n as nat, |i: int| i)
}

impl<TKey: KadKey, TVal: Clone> KBucketsTable<TKey, TVal> {
    /// The buckets of the table, the closest to the local key first, after
    /// the pending entries whose time has come were applied, bucket by
    /// bucket.
    pub fn iter(&mut self) -> (r: Vec<KBucketRef<'_, TKey, TVal>>)
        requires
            old(self)@.wf(),
        ensures
            final(self)@.wf(),
            applied_along(old(self)@, final(self)@, all_indices(NUM_BUCKETS as int)),
            r@.len() == NUM_BUCKETS,
            forall|i: int| 0 <= i < NUM_BUCKETS ==> (#[trigger] r@[i]).index.0 == i && r@[i].bucket@ == final(self)@.buckets[i],
    {
        let ghost mut states: Seq<TableView<TKey, TVal>> = seq![self@];
        let mut i: usize = 0;
        while i < NUM_BUCKETS
            invariant
                0 <= i <= NUM_BUCKETS,
                self@.wf(),
                is_apply_chain(states, old(self)@, self@, all_indices(i as int)),
            decreases NUM_BUCKETS - i,
        {
            let ghost before = self@;
            self.apply_pending_at(i);
            proof {
                lemma_chain_push(states, old(self)@, before, self@, all_indices(i as int), i as int);
                assert(all_indices(i as int).push(i as int) =~= all_indices(i + 1));
                states = states.push(self@);
            }
            i += 1;
        }
        let mut r: Vec<KBucketRef<'_, TKey, TVal>> = Vec::new();
        let mut j: usize = 0;
        while j < NUM_BUCKETS
            invariant
                0 <= j <= NUM_BUCKETS,
                self@.wf(),
                r@.len() == j,
                forall|k: int| 0 <= k < j ==> (#[trigger] r@[k]).index.0 == k && r@[k].bucket@ == self@.buckets[k],
            decreases NUM_BUCKETS - j,
        {
            proof {
                assert(self@.buckets[j as int] == self.buckets@[j as int]@);
            }
            r.push(KBucketRef { index: BucketIndex(j), bucket: &self.buckets[j] });
            j += 1;
        }
        r
    }

    /// The bucket that `key` belongs in, after its pending entries whose
    /// time has come were applied; `None` for the local key.
    pub fn bucket<K: KadKey>(&mut self, key: &K) -> (r: Option<KBucketRef<'_, TKey, TVal>>)
        requires
            old(self)@.wf(),
        ensures
            final(self)@.wf(),
            old(self)@.index_of(key.key_view()) is None ==> r is None && final(self)@ == old(self)@,
            old(self)@.index_of(key.key_view()) matches Some(i) ==> {
                &&& applied_at(old(self)@, final(self)@, i as int)
                &&& r matches Some(b)
                &&& b.index.0 == i
                &&& b.bucket@ == final(self)@.buckets[i as int]
            },
    {
        match self.index_of(key) {
            None => None,
            Some(i) => {
                self.apply_pending_at(i);
                proof {
                    assert(self@.buckets[i as int] == self.buckets@[i as int]@);
                }
                Some(KBucketRef { index: BucketIndex(i), bucket: &self.buckets[i] })
            },
        }
    }
}

} // verus!
