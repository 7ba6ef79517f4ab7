//! The order in which a routing table gives its keys for a target when
//! weighted nodes come first: the weighted nodes bucket by bucket, closest
//! bucket first, in groups whose size shrinks with the distance of the
//! bucket to the bucket of the target, each full group followed by one node
//! of the swamps; then the remaining swamp nodes.

use vstd::prelude::*;
use crate::kbucket::NUM_BUCKETS;
use crate::kbucket::key::{KadKey, KeyBytes, Distance, xor_bytes};
use crate::kbucket::sub_bucket::{Node, NodeStatus};
use crate::kbucket::closest::{BucketIndex, ClosestBucketsIter, visit_order, start_index, lemma_visit_order};
use crate::kbucket::sorting::lemma_sorted_by_distance_indices;
use crate::kbucket::table::dists_of;
use crate::kbucket::table::{KBucketsTable, TableView, sort_by_target, entries_model, sort_entries, applied_along, none_pending,
    lemma_none_pending_unchanged};
use crate::kbucket::bucket::{InsertResult, insert_post, bucket_status, bucket_pending};
use crate::kbucket::sub_bucket::{has_key, lemma_added_entries};
use crate::kbucket::weighted::has_weighted_key;

verus! {

/// How far an iterator has come in a group of weighted nodes.
#[derive(Copy, Clone, Debug)]
pub struct Progress {
    /// The size of the group.
    pub need: usize,
    /// The number of nodes of the group already given.
    pub got: usize,
}

/// The states of a `WeightedIter`.
#[derive(Copy, Clone, Debug)]
pub enum IterState {
    /// Not started, or a weighted bucket just ran out: the next weighted
    /// bucket decides.
    Nowhere,
    /// Within a group of weighted nodes.
    Weighted(Progress),
    /// Taking a swamp node: one, then back to the saved group; or, with
    /// nothing saved, all that are left.
    Swamp {
        /// The group to go back to.
        saved: Option<Progress>,
    },
    /// Everything has been given.
    Empty,
}

/// A cursor over borrowed entries.
#[derive(Debug)]
pub struct EntryCursor<'a, TKey, TVal> {
    items: Vec<(&'a Node<TKey, TVal>, NodeStatus)>,
    pos: usize,
}

impl<'a, TKey, TVal> EntryCursor<'a, TKey, TVal> {
    /// The entries not yet given.
    pub closed spec fn rest(&self) -> Seq<(Node<TKey, TVal>, NodeStatus)> {
        entries_model(self.items@).skip(self.pos as int)
    }

    /// The position is within the entries.
    pub closed spec fn wf(&self) -> bool {
        self.pos <= self.items@.len()
    }

    /// A cursor at the start of `items`.
    pub fn new(items: Vec<(&'a Node<TKey, TVal>, NodeStatus)>) -> (r: Self)
        ensures
            r.wf(),
            r.rest() == entries_model(items@),
    {
        let r = EntryCursor { items, pos: 0 };
        proof {
            assert(entries_model(r.items@).skip(0) =~= entries_model(r.items@));
        }
        r
    }

    /// The next entry, if any.
    pub fn next(&mut self) -> (r: Option<(&'a Node<TKey, TVal>, NodeStatus)>)
        requires
            old(self).wf(),
        ensures
            final(self).wf(),
            old(self).rest().len() == 0 ==> r is None && final(self).rest() == old(self).rest(),
            old(self).rest().len() > 0 ==> (r matches Some(x) && (*x.0, x.1) == old(self).rest()[0]
                && final(self).rest() == old(self).rest().drop_first()),
    {
        if self.pos < self.items.len() {
            let x = self.items[self.pos];
            proof {
                assert(entries_model(self.items@)[self.pos as int] == (*x.0, x.1));
            }
            self.pos = self.pos + 1;
            proof {
                assert(self.rest() =~= old(self).rest().drop_first());
            }
            Some(x)
        } else {
            None
        }
    }
}

/// The weighted entries of bucket `i` of `tv`, ordered by distance to `t`.
pub open spec fn wchunk<TKey: KadKey, TVal>(tv: TableView<TKey, TVal>, t: Seq<u8>, i: int) -> Seq<(Node<TKey, TVal>, NodeStatus)> {
    sort_by_target(tv.buckets[i].weighted.entries(), t)
}

/// The swamp entries of bucket `i` of `tv`, ordered by distance to `t`.
pub open spec fn schunk<TKey: KadKey, TVal>(tv: TableView<TKey, TVal>, t: Seq<u8>, i: int) -> Seq<(Node<TKey, TVal>, NodeStatus)> {
    sort_by_target(tv.buckets[i].swamp.bucket.entries(), t)
}

/// The swamp entries of the buckets `idxs`, one bucket after the other.
pub open spec fn swamp_stream<TKey: KadKey, TVal>(tv: TableView<TKey, TVal>, t: Seq<u8>, idxs: Seq<int>) -> Seq<(Node<TKey, TVal>, NodeStatus)>
    decreases idxs.len(),
{
    if idxs.len() == 0 {
        Seq::empty()
    } else {
        schunk(tv, t, idxs[0]) + swamp_stream(tv, t, idxs.drop_first())
    }
}

/// The size of the groups of weighted nodes of bucket `idx` for a target
/// in bucket `start`: four in the bucket of the target, two in the buckets
/// next to it, one in the others.
pub open spec fn num_weighted_spec(start: int, idx: int) -> int {
    let d = if start >= idx { start - idx } else { idx - start };
    if d == 0 { 4 } else if d == 1 { 2 } else { 1 }
}

/// What comes of the weighted entries `cw` of a bucket, in groups of
/// `need`, with `k` entries still to go in the current group, and the swamp
/// entries `sw`: the entries given, and the swamp entries left. A full group
/// is followed by the next swamp entry; a bucket that runs out in the middle
/// of a group ends there.
pub open spec fn rem_w<E>(cw: Seq<E>, k: int, need: int, sw: Seq<E>) -> (Seq<E>, Seq<E>)
    decreases cw.len(), (if k == 0 { 1int } else { 0int }),
{
    if need <= 0 || k < 0 || cw.len() < k {
        (cw, sw)
    } else if k == 0 {
        if sw.len() > 0 {
            let (o, s2) = rem_w(cw, need, need, sw.drop_first());
            (seq![sw[0]] + o, s2)
        } else {
            rem_w(cw, need, need, sw)
        }
    } else {
        let (o, s2) = rem_w(cw.skip(k), 0, need, sw);
        (cw.take(k) + o, s2)
    }
}

/// What comes of the weighted buckets `idxs` and the swamp entries `sw`:
/// each weighted bucket in groups, then the swamp entries left.
pub open spec fn emit_buckets<TKey: KadKey, TVal>(
    tv: TableView<TKey, TVal>,
    t: Seq<u8>,
    start: int,
    idxs: Seq<int>,
    sw: Seq<(Node<TKey, TVal>, NodeStatus)>,
) -> Seq<(Node<TKey, TVal>, NodeStatus)>
    decreases idxs.len(),
{
    if idxs.len() == 0 {
        sw
    } else {
        let need = num_weighted_spec(start, idxs[0]);
        let (o, s2) = rem_w(wchunk(tv, t, idxs[0]), need, need, sw);
        o + emit_buckets(tv, t, start, idxs.drop_first(), s2)
    }
}

/// The entries of table `tv` in the order in which they are given for the
/// target `t` with weighted nodes first.
pub open spec fn weighted_order<TKey: KadKey, TVal>(tv: TableView<TKey, TVal>, t: Seq<u8>) -> Seq<(Node<TKey, TVal>, NodeStatus)> {
    let d = xor_bytes(tv.local(), t);
    let vo = visit_order(d);
    emit_buckets(tv, t, start_index(d), vo, swamp_stream(tv, t, vo))
}

/// Taking the first entry of a group leaves the rest of the group.
pub proof fn lemma_rem_w_peel<E>(cw: Seq<E>, k: int, need: int, sw: Seq<E>)
    requires
        1 <= k <= need,
        cw.len() >= 1,
    ensures
        rem_w(cw, k, need, sw).0 == seq![cw[0]] + rem_w(cw.drop_first(), k - 1, need, sw).0,
        rem_w(cw, k, need, sw).1 == rem_w(cw.drop_first(), k - 1, need, sw).1,
{
    let c1 = cw.drop_first();
    if cw.len() < k {
        assert(seq![cw[0]] + c1 =~= cw);
    } else {
        let (o, s2) = rem_w(cw.skip(k), 0, need, sw);
        if k == 1 {
            assert(c1 =~= cw.skip(1));
            assert(cw.take(1) =~= seq![cw[0]]);
        } else {
            assert(c1.skip(k - 1) =~= cw.skip(k));
            assert(seq![cw[0]] + c1.take(k - 1) =~= cw.take(k));
            assert(rem_w(c1, k - 1, need, sw) == (c1.take(k - 1) + o, s2));
        }
    }
}

/// An iterator over the entries of a routing table for a target, with
/// weighted nodes first.
pub struct WeightedIter<'a, TKey, TVal> {
    target: KeyBytes,
    start: BucketIndex,
    weighted_buckets: ClosestBucketsIter,
    weighted_iter: Option<EntryCursor<'a, TKey, TVal>>,
    swamp_buckets: ClosestBucketsIter,
    swamp_iter: Option<EntryCursor<'a, TKey, TVal>>,
    table: &'a KBucketsTable<TKey, TVal>,
    state: IterState,
}

impl<'a, TKey: KadKey, TVal: Clone> WeightedIter<'a, TKey, TVal> {
    /// The table.
    pub closed spec fn spec_table(&self) -> TableView<TKey, TVal> {
        self.table@
    }

    /// The bucket of the target.
    pub closed spec fn spec_start(&self) -> int {
        self.start.0 as int
    }

    /// The key bytes of the target.
    pub closed spec fn spec_target(&self) -> Seq<u8> {
        self.target@
    }

    /// The weighted entries left in the current weighted bucket.
    pub closed spec fn cw(&self) -> Seq<(Node<TKey, TVal>, NodeStatus)> {
        match self.weighted_iter {
            Some(c) => c.rest(),
            None => Seq::empty(),
        }
    }

    /// The swamp entries left: in the current swamp bucket, then in the
    /// swamp buckets still to visit.
    pub closed spec fn sw(&self) -> Seq<(Node<TKey, TVal>, NodeStatus)> {
        (match self.swamp_iter {
            Some(c) => c.rest(),
            None => Seq::empty(),
        }) + swamp_stream(self.table@, self.target@, self.swamp_buckets.remaining())
    }

    /// The entries still to be given.
    pub closed spec fn remaining(&self) -> Seq<(Node<TKey, TVal>, NodeStatus)> {
        let tv = self.table@;
        let t = self.target@;
        let s = self.start.0 as int;
        let wrem = self.weighted_buckets.remaining();
        match self.state {
            IterState::Nowhere => emit_buckets(tv, t, s, wrem, self.sw()),
            IterState::Weighted(p) => {
                let (o, s2) = rem_w(self.cw(), p.need - p.got, p.need as int, self.sw());
                o + emit_buckets(tv, t, s, wrem, s2)
            },
            IterState::Swamp { saved: Some(p) } => {
                let (o, s2) = rem_w(self.cw(), 0, p.need as int, self.sw());
                o + emit_buckets(tv, t, s, wrem, s2)
            },
            IterState::Swamp { saved: None } => self.sw(),
            IterState::Empty => Seq::empty(),
        }
    }

    /// The invariant of the iterator.
    pub closed spec fn wf(&self) -> bool {
        &&& self.table@.wf()
        &&& self.start.0 < NUM_BUCKETS
        &&& self.weighted_buckets.wf()
        &&& self.swamp_buckets.wf()
        &&& (self.weighted_iter matches Some(c) ==> c.wf())
        &&& (self.swamp_iter matches Some(c) ==> c.wf())
        &&& match self.state {
            IterState::Nowhere => true,
            IterState::Weighted(p) => 1 <= p.need <= 4 && p.got <= p.need && self.weighted_iter is Some,
            IterState::Swamp { saved: Some(p) } => 1 <= p.need <= 4 && p.got == 0 && self.weighted_iter is Some,
            IterState::Swamp { saved: None } => self.weighted_buckets.remaining().len() == 0,
            IterState::Empty => self.remaining().len() == 0,
        }
    }

    /// A measure that the steps giving no entry decrease.
    pub closed spec fn measure(&self) -> int {
        4 * self.weighted_buckets.remaining().len() + 4 * self.swamp_buckets.remaining().len() + match self.state {
            IterState::Nowhere => 3int,
            IterState::Weighted(p) => if p.got < p.need { 4int } else { 6int },
            IterState::Swamp { saved: Some(_) } => 5int,
            IterState::Swamp { saved: None } => 1int,
            IterState::Empty => 0int,
        }
    }

    /// An iterator over the entries of `table` for the target with key
    /// bytes `target` at distance `distance` from the local key.
    pub fn new(table: &'a KBucketsTable<TKey, TVal>, distance: Distance, target: &KeyBytes) -> (r: Self)
        requires
            table@.wf(),
        ensures
            r.wf(),
            r.spec_table() == table@,
            r.spec_target() == target@,
            r.remaining() == emit_buckets(table@, target@, start_index(distance@), visit_order(distance@),
                swamp_stream(table@, target@, visit_order(distance@))),
    {
        let start = match BucketIndex::new(&distance) {
            Some(i) => i,
            None => BucketIndex(0),
        };
        let r = WeightedIter {
            target: *target,
            start,
            weighted_buckets: ClosestBucketsIter::new(distance),
            weighted_iter: None,
            swamp_buckets: ClosestBucketsIter::new(distance),
            swamp_iter: None,
            table,
            state: IterState::Nowhere,
        };
        proof {
            assert(r.sw() =~= swamp_stream(table@, target@, visit_order(distance@)));
        }
        r
    }

    /// The entries `bucket` ordered by the distance of their keys to the
    /// target, entries at equal distance in their given order.
    pub fn sort_bucket(&self, bucket: &Vec<(&'a Node<TKey, TVal>, NodeStatus)>) -> (r: Vec<(&'a Node<TKey, TVal>, NodeStatus)>)
        ensures
            entries_model(r@) == sort_by_target(entries_model(bucket@), self.spec_target()),
    {
        sort_entries(bucket, &self.target)
    }

    /// The size of the groups of weighted nodes of bucket `idx`:
    /// `16 / 2^min(|start - idx| + 2, 4)`.
    pub fn num_weighted(&self, idx: BucketIndex) -> (r: usize)
        ensures
            r == num_weighted_spec(self.spec_start(), idx.0 as int),
    {
        let s = self.start.get();
        let i = idx.get();
        let distance = if s >= i { s - i } else { i - s };
        let pow: usize = if distance < 2 { distance + 2 } else { 4 };
        let denominator: usize = if pow == 2 { 4 } else if pow == 3 { 8 } else { 16 };
        16 / denominator
    }

    /// Moves to the next weighted bucket, if any, and sorts its weighted
    /// entries by distance to the target.
    fn next_weighted_bucket(&mut self) -> (r: Option<BucketIndex>)
        requires
            old(self).table@.wf(),
            old(self).weighted_buckets.wf(),
        ensures
            final(self).table == old(self).table,
            final(self).target == old(self).target,
            final(self).start == old(self).start,
            final(self).state == old(self).state,
            final(self).swamp_iter == old(self).swamp_iter,
            final(self).swamp_buckets == old(self).swamp_buckets,
            final(self).weighted_buckets.wf(),
            final(self).weighted_buckets.spec_distance() == old(self).weighted_buckets.spec_distance(),
            old(self).weighted_buckets.remaining().len() == 0 ==> r is None
                && final(self).weighted_buckets.remaining() == old(self).weighted_buckets.remaining()
                && final(self).weighted_iter == old(self).weighted_iter,
            old(self).weighted_buckets.remaining().len() > 0 ==> {
                &&& r matches Some(i)
                &&& i.0 == old(self).weighted_buckets.remaining()[0]
                &&& i.0 < NUM_BUCKETS
                &&& final(self).weighted_buckets.remaining() == old(self).weighted_buckets.remaining().drop_first()
                &&& final(self).weighted_iter matches Some(c)
                &&& c.wf()
                &&& c.rest() == wchunk(old(self).table@, old(self).target@, i.0 as int)
            },
    {
        let idx = match self.weighted_buckets.next() {
            Some(i) => i,
            None => return None,
        };
        let b = self.table.bucket_at(idx.get());
        let es = b.weighted();
        proof {
            assert(entries_model(es@) =~= b@.weighted.entries());
        }
        let items = sort_entries(&es, &self.target);
        self.weighted_iter = Some(EntryCursor::new(items));
        Some(idx)
    }

    /// Moves to the next swamp bucket, if any, and sorts its swamp entries
    /// by distance to the target. Returns whether there was one.
    fn next_swamp_bucket(&mut self) -> (r: bool)
        requires
            old(self).table@.wf(),
            old(self).swamp_buckets.wf(),
        ensures
            final(self).table == old(self).table,
            final(self).target == old(self).target,
            final(self).start == old(self).start,
            final(self).state == old(self).state,
            final(self).weighted_iter == old(self).weighted_iter,
            final(self).weighted_buckets == old(self).weighted_buckets,
            final(self).swamp_buckets.wf(),
            final(self).swamp_buckets.spec_distance() == old(self).swamp_buckets.spec_distance(),
            old(self).swamp_buckets.remaining().len() == 0 ==> !r
                && final(self).swamp_buckets.remaining() == old(self).swamp_buckets.remaining()
                && final(self).swamp_iter == old(self).swamp_iter,
            old(self).swamp_buckets.remaining().len() > 0 ==> {
                &&& r
                &&& final(self).swamp_buckets.remaining() == old(self).swamp_buckets.remaining().drop_first()
                &&& final(self).swamp_iter matches Some(c)
                &&& c.wf()
                &&& c.rest() == schunk(old(self).table@, old(self).target@, old(self).swamp_buckets.remaining()[0])
            },
    {
        let idx = match self.swamp_buckets.next() {
            Some(i) => i,
            None => return false,
        };
        let b = self.table.bucket_at(idx.get());
        let es = b.swamp();
        proof {
            assert(entries_model(es@) =~= b@.swamp.bucket.entries());
        }
        let items = sort_entries(&es, &self.target);
        self.swamp_iter = Some(EntryCursor::new(items));
        true
    }

    /// The next entry of the current weighted bucket; where there is no
    /// current bucket, of the next one.
    fn next_weighted(&mut self) -> (r: Option<(&'a Node<TKey, TVal>, NodeStatus)>)
        requires
            old(self).table@.wf(),
            old(self).weighted_buckets.wf(),
            old(self).weighted_iter matches Some(c) && c.wf(),
        ensures
            final(self).table == old(self).table,
            final(self).target == old(self).target,
            final(self).start == old(self).start,
            final(self).state == old(self).state,
            final(self).swamp_iter == old(self).swamp_iter,
            final(self).swamp_buckets == old(self).swamp_buckets,
            final(self).weighted_buckets == old(self).weighted_buckets,
            final(self).weighted_iter matches Some(c) && c.wf(),
            old(self).cw().len() == 0 ==> r is None && final(self).cw() == old(self).cw(),
            old(self).cw().len() > 0 ==> (r matches Some(e) && (*e.0, e.1) == old(self).cw()[0]
                && final(self).cw() == old(self).cw().drop_first()),
    {
        if self.weighted_iter.is_some() {
            cursor_next(&mut self.weighted_iter)
        } else {
            match self.next_weighted_bucket() {
                Some(_) => cursor_next(&mut self.weighted_iter),
                None => None,
            }
        }
    }

    /// The next entry of the current swamp bucket; where there is no
    /// current bucket, of the next one.
    fn next_swamp(&mut self) -> (r: Option<(&'a Node<TKey, TVal>, NodeStatus)>)
        requires
            old(self).table@.wf(),
            old(self).swamp_buckets.wf(),
            old(self).swamp_iter matches Some(c) ==> c.wf(),
        ensures
            final(self).table == old(self).table,
            final(self).target == old(self).target,
            final(self).start == old(self).start,
            final(self).state == old(self).state,
            final(self).weighted_iter == old(self).weighted_iter,
            final(self).weighted_buckets == old(self).weighted_buckets,
            final(self).swamp_buckets.wf(),
            final(self).swamp_buckets.spec_distance() == old(self).swamp_buckets.spec_distance(),
            final(self).swamp_buckets.remaining().len() <= old(self).swamp_buckets.remaining().len(),
            final(self).swamp_iter matches Some(c) ==> c.wf(),
            r matches Some(e) ==> old(self).sw().len() > 0 && (*e.0, e.1) == old(self).sw()[0]
                && final(self).sw() == old(self).sw().drop_first(),
            r is None ==> final(self).sw() == old(self).sw() && (
                (final(self).swamp_iter matches Some(c) && c.rest().len() == 0)
                || (final(self).swamp_iter is None && final(self).swamp_buckets.remaining().len() == 0)),
    {
        let ghost tv = self.table@;
        let ghost t = self.target@;
        if self.swamp_iter.is_some() {
            let ghost c0 = self.swamp_iter.unwrap().rest();
            let ghost st = swamp_stream(tv, t, self.swamp_buckets.remaining());
            let r = cursor_next(&mut self.swamp_iter);
            proof {
                if c0.len() > 0 {
                    assert((c0 + st).drop_first() =~= c0.drop_first() + st);
                }
            }
            r
        } else {
            let ghost srem = self.swamp_buckets.remaining();
            if self.next_swamp_bucket() {
                let ghost c0 = self.swamp_iter.unwrap().rest();
                let ghost st = swamp_stream(tv, t, self.swamp_buckets.remaining());
                proof {
                    assert(srem == seq![srem[0]] + srem.drop_first());
                    assert(old(self).sw() =~= c0 + st);
                }
                let r = cursor_next(&mut self.swamp_iter);
                proof {
                    if c0.len() > 0 {
                        assert((c0 + st).drop_first() =~= c0.drop_first() + st);
                    }
                }
                r
            } else {
                None
            }
        }
    }


    /// The next entry, weighted nodes first.
    #[verifier::rlimit(40)]
    pub fn next(&mut self) -> (r: Option<(&'a Node<TKey, TVal>, NodeStatus)>)
        requires
            old(self).wf(),
        ensures
            final(self).wf(),
            final(self).spec_table() == old(self).spec_table(),
            final(self).spec_target() == old(self).spec_target(),
            old(self).remaining().len() == 0 ==> r is None && final(self).remaining().len() == 0,
            old(self).remaining().len() > 0 ==> (r matches Some(e) && (*e.0, e.1) == old(self).remaining()[0]
                && final(self).remaining() == old(self).remaining().drop_first()),
    {
        loop
            invariant
                self.wf(),
                self.table == old(self).table,
                self.target == old(self).target,
                self.remaining() == old(self).remaining(),
            decreases self.measure(),
        {
            let ghost pre = *self;
            let ghost tv = self.table@;
            let ghost t = self.target@;
            let ghost s0 = self.start.0 as int;
            let (state, result) = match self.state {
                IterState::Nowhere => {
                    match self.next_weighted_bucket() {
                        Some(idx) => {
                            let ghost w = self.cw();
                            match cursor_next(&mut self.weighted_iter) {
                                Some(elem) => {
                                    let need = self.num_weighted(idx);
                                    proof {
                                        lemma_rem_w_peel(w, need as int, need as int, pre.sw());
                                    }
                                    (IterState::Weighted(Progress { got: 1, need }), Some(elem))
                                },
                                None => (IterState::Nowhere, None),
                            }
                        },
                        None => (IterState::Swamp { saved: None }, None),
                    }
                },
                IterState::Weighted(Progress { got, need }) if got < need => {
                    let ghost w = self.cw();
                    match self.next_weighted() {
                        Some(elem) => {
                            proof {
                                lemma_rem_w_peel(w, need - got, need as int, pre.sw());
                            }
                            (IterState::Weighted(Progress { got: got + 1, need }), Some(elem))
                        },
                        None => (IterState::Nowhere, None),
                    }
                },
                IterState::Weighted(Progress { need, .. }) => {
                    (IterState::Swamp { saved: Some(Progress { need, got: 0 }) }, None)
                },
                IterState::Swamp { saved: Some(saved) } => {
                    match self.next_swamp() {
                        Some(elem) => (IterState::Weighted(saved), Some(elem)),
                        None => {
                            let ghost mid = *self;
                            if self.next_swamp_bucket() {
                                proof {
                                    let srem = mid.swamp_buckets.remaining();
                                    assert(srem == seq![srem[0]] + srem.drop_first());
                                    assert(mid.sw() =~= self.sw());
                                }
                                (IterState::Swamp { saved: Some(saved) }, None)
                            } else {
                                proof {
                                    assert(mid.sw() =~= Seq::<(Node<TKey, TVal>, NodeStatus)>::empty());
                                }
                                (IterState::Weighted(saved), None)
                            }
                        },
                    }
                },
                IterState::Swamp { saved: None } => {
                    match self.next_swamp() {
                        Some(elem) => (IterState::Swamp { saved: None }, Some(elem)),
                        None => {
                            let ghost mid = *self;
                            if self.next_swamp_bucket() {
                                proof {
                                    let srem = mid.swamp_buckets.remaining();
                                    assert(srem == seq![srem[0]] + srem.drop_first());
                                    assert(mid.sw() =~= self.sw());
                                }
                                (IterState::Swamp { saved: None }, None)
                            } else {
                                proof {
                                    assert(mid.sw() =~= Seq::<(Node<TKey, TVal>, NodeStatus)>::empty());
                                }
                                (IterState::Empty, None)
                            }
                        },
                    }
                },
                IterState::Empty => (IterState::Empty, None),
            };
            self.state = state;
            if result.is_some() {
                return result;
            }
            if let IterState::Empty = self.state {
                return None;
            }
        }
    }

}

/// The next entry of the cursor `c`, if there is a cursor.
fn cursor_next<'a, TKey, TVal>(c: &mut Option<EntryCursor<'a, TKey, TVal>>) -> (r: Option<(&'a Node<TKey, TVal>, NodeStatus)>)
    requires
        *old(c) matches Some(x) ==> x.wf(),
    ensures
        *old(c) is None ==> r is None && *final(c) == *old(c),
        *old(c) matches Some(x) ==> {
            &&& *final(c) matches Some(y)
            &&& y.wf()
            &&& x.rest().len() == 0 ==> r is None && y.rest() == x.rest()
            &&& x.rest().len() > 0 ==> (r matches Some(e) && (*e.0, e.1) == x.rest()[0] && y.rest() == x.rest().drop_first())
        },
{
    match c {
        Some(x) => x.next(),
        None => None,
    }
}

/// What comes of a weighted bucket and the swamp entries is made of them:
/// every entry given or left over is one of them, and each of them is
/// given or left over.
pub proof fn lemma_rem_w_members<E>(cw: Seq<E>, k: int, need: int, sw: Seq<E>)
    ensures
        forall|x: E| #[trigger] rem_w(cw, k, need, sw).0.contains(x) ==> cw.contains(x) || sw.contains(x),
        forall|x: E| #[trigger] rem_w(cw, k, need, sw).1.contains(x) ==> sw.contains(x),
        forall|x: E| #[trigger] cw.contains(x) ==> rem_w(cw, k, need, sw).0.contains(x),
        forall|x: E| #[trigger] sw.contains(x) ==> rem_w(cw, k, need, sw).0.contains(x) || rem_w(cw, k, need, sw).1.contains(x),
    decreases cw.len(), (if k == 0 { 1int } else { 0int }),
{
    if need <= 0 || k < 0 || cw.len() < k {
    } else if k == 0 {
        if sw.len() > 0 {
            let sw1 = sw.drop_first();
            lemma_rem_w_members(cw, need, need, sw1);
            let (o, s2) = rem_w(cw, need, need, sw1);
            let out = seq![sw[0]] + o;
            assert(rem_w(cw, k, need, sw) == (out, s2));
            assert forall|x: E| out.contains(x) implies cw.contains(x) || sw.contains(x) by {
                let p = choose|p: int| 0 <= p < out.len() && out[p] == x;
                if p == 0 {
                    assert(sw[0] == x);
                } else {
                    assert(o[p - 1] == x);
                    assert(o.contains(x));
                    if sw1.contains(x) {
                        let q = choose|q: int| 0 <= q < sw1.len() && sw1[q] == x;
                        assert(sw[q + 1] == x);
                    }
                }
            }
            assert forall|x: E| s2.contains(x) implies sw.contains(x) by {
                assert(sw1.contains(x));
                let q = choose|q: int| 0 <= q < sw1.len() && sw1[q] == x;
                assert(sw1[q] == sw[q + 1]);
            }
            assert forall|x: E| cw.contains(x) implies out.contains(x) by {
                let q = choose|q: int| 0 <= q < o.len() && o[q] == x;
                assert(out[q + 1] == x);
            }
            assert forall|x: E| sw.contains(x) implies out.contains(x) || s2.contains(x) by {
                let q = choose|q: int| 0 <= q < sw.len() && sw[q] == x;
                if q == 0 {
                    assert(out[0] == x);
                } else {
                    assert(sw1[q - 1] == x);
                    assert(sw1.contains(x));
                    if o.contains(x) {
                        let r = choose|r: int| 0 <= r < o.len() && o[r] == x;
                        assert(out[r + 1] == x);
                    }
                }
            }
        } else {
            lemma_rem_w_members(cw, need, need, sw);
            assert(rem_w(cw, k, need, sw) == rem_w(cw, need, need, sw));
        }
    } else {
        let rest = cw.skip(k);
        let g = cw.take(k);
        lemma_rem_w_members(rest, 0, need, sw);
        let (o, s2) = rem_w(rest, 0, need, sw);
        let out = g + o;
        assert(rem_w(cw, k, need, sw) == (out, s2));
        assert forall|x: E| out.contains(x) implies cw.contains(x) || sw.contains(x) by {
            let p = choose|p: int| 0 <= p < out.len() && out[p] == x;
            if p < k {
                assert(cw[p] == x);
            } else {
                assert(o[p - k] == x);
                assert(o.contains(x));
                if rest.contains(x) {
                    let q = choose|q: int| 0 <= q < rest.len() && rest[q] == x;
                    assert(cw[q + k] == x);
                }
            }
        }
        assert forall|x: E| cw.contains(x) implies out.contains(x) by {
            let q = choose|q: int| 0 <= q < cw.len() && cw[q] == x;
            if q < k {
                assert(out[q] == x);
            } else {
                assert(rest[q - k] == x);
                assert(rest.contains(x));
                let r = choose|r: int| 0 <= r < o.len() && o[r] == x;
                assert(out[r + k] == x);
            }
        }
        assert forall|x: E| sw.contains(x) implies out.contains(x) || s2.contains(x) by {
            if o.contains(x) {
                let r = choose|r: int| 0 <= r < o.len() && o[r] == x;
                assert(out[r + k] == x);
            }
        }
    }
}

/// The stable sort of entries keeps exactly the entries.
pub proof fn lemma_sort_members<TKey: KadKey, TVal>(es: Seq<(Node<TKey, TVal>, NodeStatus)>, t: Seq<u8>)
    ensures
        forall|x: (Node<TKey, TVal>, NodeStatus)| sort_by_target(es, t).contains(x) <==> es.contains(x),
{
    let n = es.len();
    lemma_sorted_by_distance_indices(n, dists_of(es, t));
    let so = crate::kbucket::sorting::sorted_by_distance(n, dists_of(es, t));
    let r = sort_by_target(es, t);
    assert forall|x: (Node<TKey, TVal>, NodeStatus)| r.contains(x) <==> es.contains(x) by {
        if r.contains(x) {
            let p = choose|p: int| 0 <= p < r.len() && r[p] == x;
            assert(es[so[p]] == x);
        }
        if es.contains(x) {
            let j = choose|j: int| 0 <= j < es.len() && es[j] == x;
            assert(so.contains(j));
            let p = choose|p: int| 0 <= p < so.len() && so[p] == j;
            assert(r[p] == x);
        }
    }
}

/// The swamp entries of the buckets `idxs` are exactly those of the swamps
/// of these buckets.
pub proof fn lemma_swamp_stream_members<TKey: KadKey, TVal>(tv: TableView<TKey, TVal>, t: Seq<u8>, idxs: Seq<int>)
    ensures
        forall|x: (Node<TKey, TVal>, NodeStatus)| swamp_stream(tv, t, idxs).contains(x) <==> exists|a: int|
            0 <= a < idxs.len() && #[trigger] tv.buckets[idxs[a]].swamp.bucket.entries().contains(x),
    decreases idxs.len(),
{
    if idxs.len() > 0 {
        let rest = idxs.drop_first();
        lemma_swamp_stream_members(tv, t, rest);
        lemma_sort_members(tv.buckets[idxs[0]].swamp.bucket.entries(), t);
        let c = schunk(tv, t, idxs[0]);
        let st = swamp_stream(tv, t, rest);
        assert forall|x: (Node<TKey, TVal>, NodeStatus)| swamp_stream(tv, t, idxs).contains(x) <==> exists|a: int|
            0 <= a < idxs.len() && #[trigger] tv.buckets[idxs[a]].swamp.bucket.entries().contains(x) by {
            let all = c + st;
            if all.contains(x) {
                let p = choose|p: int| 0 <= p < all.len() && all[p] == x;
                if p < c.len() {
                    assert(c.contains(x));
                    assert(tv.buckets[idxs[0]].swamp.bucket.entries().contains(x));
                } else {
                    assert(st[p - c.len()] == x);
                    assert(st.contains(x));
                    let a = choose|a: int| 0 <= a < rest.len() && #[trigger] tv.buckets[rest[a]].swamp.bucket.entries().contains(x);
                    assert(rest[a] == idxs[a + 1]);
                }
            }
            if exists|a: int| 0 <= a < idxs.len() && #[trigger] tv.buckets[idxs[a]].swamp.bucket.entries().contains(x) {
                let a = choose|a: int| 0 <= a < idxs.len() && #[trigger] tv.buckets[idxs[a]].swamp.bucket.entries().contains(x);
                if a == 0 {
                    let p = choose|p: int| 0 <= p < c.len() && c[p] == x;
                    assert(all[p] == x);
                } else {
                    assert(rest[a - 1] == idxs[a]);
                    assert(st.contains(x));
                    let p = choose|p: int| 0 <= p < st.len() && st[p] == x;
                    assert(all[p + c.len()] == x);
                }
            }
        }
    }
}

/// What comes of the weighted buckets `idxs` and the swamp entries `sw` is
/// exactly their entries.
pub proof fn lemma_emit_members<TKey: KadKey, TVal>(
    tv: TableView<TKey, TVal>,
    t: Seq<u8>,
    s: int,
    idxs: Seq<int>,
    sw: Seq<(Node<TKey, TVal>, NodeStatus)>,
)
    ensures
        forall|x: (Node<TKey, TVal>, NodeStatus)| #![trigger emit_buckets(tv, t, s, idxs, sw).contains(x)] #![trigger sw.contains(x)]
            emit_buckets(tv, t, s, idxs, sw).contains(x) <==> (sw.contains(x) || exists|a: int|
            0 <= a < idxs.len() && #[trigger] tv.buckets[idxs[a]].weighted.entries().contains(x)),
    decreases idxs.len(),
{
    if idxs.len() > 0 {
        let rest = idxs.drop_first();
        let need = num_weighted_spec(s, idxs[0]);
        let w = wchunk(tv, t, idxs[0]);
        lemma_sort_members(tv.buckets[idxs[0]].weighted.entries(), t);
        lemma_rem_w_members(w, need, need, sw);
        let (o, s2) = rem_w(w, need, need, sw);
        lemma_emit_members(tv, t, s, rest, s2);
        let e2 = emit_buckets(tv, t, s, rest, s2);
        let all = o + e2;
        assert(emit_buckets(tv, t, s, idxs, sw) == all);
        assert forall|x: (Node<TKey, TVal>, NodeStatus)| all.contains(x) <==> (sw.contains(x) || exists|a: int|
            0 <= a < idxs.len() && #[trigger] tv.buckets[idxs[a]].weighted.entries().contains(x)) by {
            if all.contains(x) {
                let p = choose|p: int| 0 <= p < all.len() && all[p] == x;
                if p < o.len() {
                    assert(o.contains(x));
                    if w.contains(x) {
                        assert(tv.buckets[idxs[0]].weighted.entries().contains(x));
                    }
                } else {
                    assert(e2[p - o.len()] == x);
                    assert(e2.contains(x));
                    if !s2.contains(x) {
                        let a = choose|a: int| 0 <= a < rest.len() && #[trigger] tv.buckets[rest[a]].weighted.entries().contains(x);
                        assert(rest[a] == idxs[a + 1]);
                    }
                }
            }
            if sw.contains(x) {
                if o.contains(x) {
                    let p = choose|p: int| 0 <= p < o.len() && o[p] == x;
                    assert(all[p] == x);
                } else {
                    assert(s2.contains(x));
                    assert(e2.contains(x));
                    let p = choose|p: int| 0 <= p < e2.len() && e2[p] == x;
                    assert(all[p + o.len()] == x);
                }
            }
            if exists|a: int| 0 <= a < idxs.len() && #[trigger] tv.buckets[idxs[a]].weighted.entries().contains(x) {
                let a = choose|a: int| 0 <= a < idxs.len() && #[trigger] tv.buckets[idxs[a]].weighted.entries().contains(x);
                if a == 0 {
                    assert(w.contains(x));
                    let p = choose|p: int| 0 <= p < o.len() && o[p] == x;
                    assert(all[p] == x);
                } else {
                    assert(rest[a - 1] == idxs[a]);
                    assert(e2.contains(x));
                    let p = choose|p: int| 0 <= p < e2.len() && e2[p] == x;
                    assert(all[p + o.len()] == x);
                }
            }
        }
    }
}

/// With weighted nodes first, the table still gives exactly its entries:
/// an entry is given for a target exactly when it is an entry of one of
/// the buckets.
pub proof fn lemma_weighted_order_members<TKey: KadKey, TVal>(tv: TableView<TKey, TVal>, t: Seq<u8>, x: (Node<TKey, TVal>, NodeStatus))
    ensures
        weighted_order(tv, t).contains(x) <==> exists|i: int| 0 <= i < NUM_BUCKETS && #[trigger] tv.buckets[i].entries().contains(x),
{
    let d = xor_bytes(tv.local(), t);
    let vo = visit_order(d);
    lemma_visit_order(d);
    lemma_swamp_stream_members(tv, t, vo);
    lemma_emit_members(tv, t, start_index(d), vo, swamp_stream(tv, t, vo));
    assert(weighted_order(tv, t) == emit_buckets(tv, t, start_index(d), vo, swamp_stream(tv, t, vo)));
    if weighted_order(tv, t).contains(x) {
        if swamp_stream(tv, t, vo).contains(x) {
            let a = choose|a: int| 0 <= a < vo.len() && #[trigger] tv.buckets[vo[a]].swamp.bucket.entries().contains(x);
            let i = vo[a];
            assert(0 <= i < 256);
            let we = tv.buckets[i].weighted.entries();
            let se = tv.buckets[i].swamp.bucket.entries();
            let p = choose|p: int| 0 <= p < se.len() && se[p] == x;
            assert(tv.buckets[i].entries()[we.len() + p] == x);
            assert(tv.buckets[i].entries().contains(x));
        } else {
            let a = choose|a: int| 0 <= a < vo.len() && #[trigger] tv.buckets[vo[a]].weighted.entries().contains(x);
            let i = vo[a];
            assert(0 <= i < 256);
            let we = tv.buckets[i].weighted.entries();
            let p = choose|p: int| 0 <= p < we.len() && we[p] == x;
            assert(tv.buckets[i].entries()[p] == x);
            assert(tv.buckets[i].entries().contains(x));
        }
    }
    if exists|i: int| 0 <= i < NUM_BUCKETS && #[trigger] tv.buckets[i].entries().contains(x) {
        let i = choose|i: int| 0 <= i < NUM_BUCKETS && #[trigger] tv.buckets[i].entries().contains(x);
        assert(vo.contains(i));
        let a = choose|a: int| 0 <= a < vo.len() && vo[a] == i;
        let we = tv.buckets[i].weighted.entries();
        let se = tv.buckets[i].swamp.bucket.entries();
        let p = choose|p: int| 0 <= p < tv.buckets[i].entries().len() && tv.buckets[i].entries()[p] == x;
        if p < we.len() {
            assert(we[p] == x);
            assert(tv.buckets[vo[a]].weighted.entries().contains(x));
            assert(weighted_order(tv, t).contains(x));
        } else {
            assert(se[p - we.len()] == x);
            assert(tv.buckets[vo[a]].swamp.bucket.entries().contains(x));
            assert(swamp_stream(tv, t, vo).contains(x));
            assert(weighted_order(tv, t).contains(x));
        }
    }
}

/// In a table fresh from `KBucketsTable::new` (no entries, no pending
/// nodes), a key other than the local one is in no bucket and pending in
/// none, so its entry is absent; inserting it with weight zero, connected,
/// succeeds; and the keys that the table then gives for any target are
/// that entry and nothing else.
pub proof fn lemma_insert_into_fresh_table<TKey: KadKey, TVal: Clone>(
    t0: TableView<TKey, TVal>,
    t1: TableView<TKey, TVal>,
    t2: TableView<TKey, TVal>,
    key: TKey,
    value: TVal,
    r: InsertResult<TKey>,
    now: std::time::Instant,
    target: Seq<u8>,
)
    requires
        t0.wf(),
        forall|i: int| 0 <= i < NUM_BUCKETS ==> (#[trigger] t0.buckets[i]).entries().len() == 0
            && t0.buckets[i].swamp.pending is None && t0.buckets[i].weighted.pending is None,
        t0.index_of(key.key_view()) is Some,
        t1.local_key == t0.local_key,
        t1.buckets == t0.buckets.update(t0.index_of(key.key_view()).unwrap() as int, t1.buckets[t0.index_of(key.key_view()).unwrap() as int]),
        insert_post(t0.buckets[t0.index_of(key.key_view()).unwrap() as int], t1.buckets[t0.index_of(key.key_view()).unwrap() as int],
            Node { key, value, weight: 0 }, NodeStatus::Connected, r, now),
        applied_along(t1, t2, visit_order(xor_bytes(t1.local(), target))),
    ensures
        bucket_status(t0.buckets[t0.index_of(key.key_view()).unwrap() as int], key.key_view()) is None,
        bucket_pending(t0.buckets[t0.index_of(key.key_view()).unwrap() as int], key.key_view()) is None,
        r is Inserted,
        weighted_order(t2, target).contains((Node { key, value, weight: 0 }, NodeStatus::Connected)),
        forall|x: (Node<TKey, TVal>, NodeStatus)| weighted_order(t2, target).contains(x)
            ==> x == (Node { key, value, weight: 0 }, NodeStatus::Connected),
{
    let i = t0.index_of(key.key_view()).unwrap() as int;
    let n = Node { key, value, weight: 0 };
    let b0 = t0.buckets[i];
    crate::kbucket::weighted::lemma_weighted_entries_len(b0.weighted.subs);
    assert(b0.swamp.bucket.entries().len() == b0.swamp.bucket.nodes.len());
    assert(b0.swamp.bucket.nodes.len() == 0);
    assert(!has_key(b0.swamp.bucket.nodes, key.key_view()));
    if has_weighted_key(b0.weighted.subs, key.key_view()) {
        let (a, q) = choose|a: int, q: int| 0 <= a < b0.weighted.subs.len() && 0 <= q < b0.weighted.subs[a].nodes.len()
            && b0.weighted.subs[a].nodes[q].inner.key.key_view() == key.key_view();
        crate::kbucket::weighted::lemma_total_positive(b0.weighted.subs, a);
        crate::kbucket::weighted::lemma_weighted_entries_len(b0.weighted.subs);
    }
    lemma_added_entries(b0.swamp.bucket, n, NodeStatus::Connected);
    let b1 = t1.buckets[i];
    assert(b1.swamp.bucket.entries() =~= seq![(n, NodeStatus::Connected)]);
    assert(b1.weighted == b0.weighted);
    assert(none_pending(t1)) by {
        assert forall|j: int| 0 <= j < t1.buckets.len() implies (#[trigger] t1.buckets[j]).weighted.pending is None
            && t1.buckets[j].swamp.pending is None by {
            if j != i {
                assert(t1.buckets[j] == t0.buckets[j]);
            }
        }
    }
    lemma_none_pending_unchanged(t1, t2, visit_order(xor_bytes(t1.local(), target)));
    assert(t2.buckets[i].entries() =~= seq![(n, NodeStatus::Connected)]);
    assert(t2.buckets[i].entries()[0] == (n, NodeStatus::Connected));
    assert(t2.buckets[i].entries().contains((n, NodeStatus::Connected)));
    lemma_weighted_order_members(t2, target, (n, NodeStatus::Connected));
    assert forall|x: (Node<TKey, TVal>, NodeStatus)| weighted_order(t2, target).contains(x) implies x == (n, NodeStatus::Connected) by {
        lemma_weighted_order_members(t2, target, x);
        let j = choose|j: int| 0 <= j < NUM_BUCKETS && #[trigger] t2.buckets[j].entries().contains(x);
        if j != i {
            assert(t2.buckets[j] == t0.buckets[j]);
        }
    }
}

} // verus!
