//! Identifiers, configuration and statistics of Kademlia queries.

use vstd::prelude::*;
use std::time::{Duration, Instant};
use crate::K_VALUE;
use crate::time::{duration_from_secs, instant_plus, elapsed_between, duration_at_least, instant_elapsed, duration_ge};
use crate::kbucket::key::{Key, KeyBytes};
use crate::query::peers::closest::{ClosestPeersIter, ClosestPeersIterConfig, ClosestPeersIterView, reported_pairs, expired_at, lemma_step_state,
    waiting_ids, key_pairs, initial_peers};
use crate::query::peers::fixed::{FixedPeersIter, FixedPeersIterView, PeerState as FixedPeerState, succeeded,
    was_emitted, emitted_index};
use crate::query::peers::disjoint_closest::result_of;
use crate::query::peers::{PeersIterState, IterStep};
use crate::addresses::byte_views;

pub mod peers;

verus! {

/// The identifier of a query.
#[derive(Debug, Copy, Clone, Hash, PartialEq, Eq, Structural)]
pub struct QueryId(pub usize);

/// The configuration of queries.
#[derive(Clone, Debug)]
pub struct QueryConfig {
    /// The timeout of a single query.
    pub timeout: Duration,
    /// The replication factor: the number of closest peers that a query
    /// looks for.
    pub replication_factor: usize,
}

impl Default for QueryConfig {
    /// A timeout of 60 seconds and a replication factor of `K_VALUE`.
    fn default() -> (r: Self)
        ensures
            r.replication_factor == K_VALUE,
    {
        QueryConfig { timeout: duration_from_secs(60), replication_factor: K_VALUE }
    }
}

/// Statistics of a query: the number of requests, successes and failures.
#[derive(Debug, Copy, Clone, PartialEq, Eq, Structural)]
pub struct QueryStats {
    requests: u32,
    success: u32,
    failure: u32,
}

impl QueryStats {
    /// The number of successful requests.
    pub closed spec fn spec_successes(&self) -> u32 {
        self.success
    }

    /// The number of requests.
    pub closed spec fn spec_requests(&self) -> u32 {
        self.requests
    }

    /// The number of failed requests.
    pub closed spec fn spec_failures(&self) -> u32 {
        self.failure
    }

    /// Statistics of a query that made no request.
    pub fn empty() -> (r: Self)
        ensures
            r.spec_requests() == 0,
            r.spec_successes() == 0,
            r.spec_failures() == 0,
    {
        QueryStats { requests: 0, success: 0, failure: 0 }
    }

    /// The same statistics with `n` successful requests.
    pub fn with_successes(self, n: u32) -> (r: Self)
        ensures
            r.spec_requests() == self.spec_requests(),
            r.spec_successes() == n,
            r.spec_failures() == self.spec_failures(),
    {
        QueryStats { success: n, ..self }
    }

    /// The number of requests.
    pub fn num_requests(&self) -> (r: u32)
        ensures
            r == self.spec_requests(),
    {
        self.requests
    }

    /// The number of successful requests.
    pub fn num_successes(&self) -> (r: u32)
        ensures
            r == self.spec_successes(),
    {
        self.success
    }

    /// The number of failed requests.
    pub fn num_failures(&self) -> (r: u32)
        ensures
            r == self.spec_failures(),
    {
        self.failure
    }
}

/// The result of a query initiated by the user, with the query's
/// identifier and statistics.
#[derive(Debug)]
pub struct AsyncQueryResult<T> {
    /// The identifier of the query.
    pub id: QueryId,
    /// The result.
    pub result: T,
    /// The statistics of the query.
    pub stats: QueryStats,
}

impl<T> AsyncQueryResult<T> {
    /// The same query result with `f` applied to its result.
    pub fn map<Out, F: Fn(T) -> Out>(self, f: F) -> (r: AsyncQueryResult<Out>)
        requires
            f.requires((self.result,)),
        ensures
            r.id == self.id,
            r.stats == self.stats,
            f.ensures((self.result,), r.result),
    {
        AsyncQueryResult { id: self.id, stats: self.stats, result: f(self.result) }
    }
}

/// What polling makes of one query.
pub enum PollOutcome {
    /// The query finished.
    Finished,
    /// The query asks for a request to this peer.
    Peer(Seq<u8>),
    /// The query waits and has run at least the timeout.
    TimedOut,
    /// The query waits; polling goes on to the next one.
    Continue,
}

/// The instant the clock of `q` started, or `now` where it had not.
pub open spec fn start_of<TInner>(q: QueryView<TInner>, now: Instant) -> Instant {
    match q.started {
        Some(t) => t,
        None => now,
    }
}

/// The query `q` advanced at `now`: its clock started if it had not, and
/// its strategy stepped.
pub open spec fn advanced<TInner>(q: QueryView<TInner>, now: Instant) -> QueryView<TInner> {
    QueryView { started: Some(start_of(q, now)), iter: q.iter.step_at(now).0, ..q }
}

/// What polling at `now` makes of the query `q`, with the timeout
/// `timeout`.
pub open spec fn outcome<TInner>(q: QueryView<TInner>, now: Instant, timeout: Duration) -> PollOutcome {
    match q.iter.step_at(now).1 {
        IterStep::Finished => PollOutcome::Finished,
        IterStep::Waiting(Some(p)) => PollOutcome::Peer(p),
        _ => if duration_ge(instant_elapsed(now, start_of(q, now)), timeout) {
            PollOutcome::TimedOut
        } else {
            PollOutcome::Continue
        },
    }
}

/// The queries `qs` with those up to position `k` advanced at `now`.
pub open spec fn advanced_up_to<TInner>(qs: Seq<QueryView<TInner>>, k: int, now: Instant) -> Seq<QueryView<TInner>> {
    Seq::new(qs.len(), |j: int| if j <= k { advanced(qs[j], now) } else { qs[j] })
}

/// Polling the queries `qs` at `now` stops at position `k`: every query
/// before it goes on, and the one at `k`, if there is one, does not.
pub open spec fn stops_at<TInner>(qs: Seq<QueryView<TInner>>, now: Instant, timeout: Duration, k: int) -> bool {
    &&& 0 <= k <= qs.len()
    &&& forall|j: int| 0 <= j < k ==> (#[trigger] outcome(qs[j], now, timeout)) is Continue
    &&& k < qs.len() ==> !(outcome(qs[k], now, timeout) is Continue)
}

/// Polling stops at one position only.
pub proof fn lemma_stops_at_unique<TInner>(qs: Seq<QueryView<TInner>>, now: Instant, timeout: Duration, k: int)
    requires
        stops_at(qs, now, timeout, k),
    ensures
        forall|k2: int| #[trigger] stops_at(qs, now, timeout, k2) ==> k2 == k,
{
    assert forall|k2: int| #[trigger] stops_at(qs, now, timeout, k2) implies k2 == k by {
        if k2 < k {
            assert(outcome(qs[k2], now, timeout) is Continue);
        } else if k < k2 {
            assert(outcome(qs[k], now, timeout) is Continue);
        }
    }
}

impl QueryPeerIterView {
    /// The strategy after a step at the instant `now`, and what the step
    /// asks: for a lookup, peers whose deadline is not after `now` time out
    /// and a peer contacted now is waited for until `now` plus the peer
    /// timeout.
    pub open spec fn step_at(self, now: Instant) -> (QueryPeerIterView, IterStep) {
        match self {
            QueryPeerIterView::Closest(v) => {
                let st = v.next_step(expired_at(v.peers, now), instant_plus(now, v.config.peer_timeout));
                (QueryPeerIterView::Closest(st.0), st.1)
            },
            QueryPeerIterView::Fixed(v) => (QueryPeerIterView::Fixed(v.next_step().0), v.next_step().1),
        }
    }
}

/// The peer selection strategies that queries use.
pub enum QueryPeerIter {
    Closest(ClosestPeersIter),
    Fixed(FixedPeersIter),
}

/// What a peer selection strategy holds.
pub enum QueryPeerIterView {
    Closest(ClosestPeersIterView),
    Fixed(FixedPeersIterView),
}

impl View for QueryPeerIter {
    type V = QueryPeerIterView;

    open spec fn view(&self) -> QueryPeerIterView {
        match self {
            QueryPeerIter::Closest(it) => QueryPeerIterView::Closest(it@),
            QueryPeerIter::Fixed(it) => QueryPeerIterView::Fixed(it@),
        }
    }
}

impl QueryPeerIter {
    /// The strategy keeps its invariant.
    pub open spec fn wf(&self) -> bool {
        match self {
            QueryPeerIter::Closest(it) => it.wf(),
            QueryPeerIter::Fixed(it) => it.wf(),
        }
    }
}

impl QueryPeerIterView {
    /// Whether the strategy is finished.
    pub open spec fn is_finished(self) -> bool {
        match self {
            QueryPeerIterView::Closest(v) => v.state == crate::query::peers::closest::State::Finished,
            QueryPeerIterView::Fixed(v) => v.state == crate::query::peers::fixed::State::Finished,
        }
    }

    /// The peers that answered successfully, as the result reports them.
    pub open spec fn result(self) -> Seq<Seq<u8>> {
        match self {
            QueryPeerIterView::Closest(v) => result_of(v),
            QueryPeerIterView::Fixed(v) => succeeded(v.peers),
        }
    }
}

/// A query in a `QueryPool`.
pub struct Query<TInner> {
    id: QueryId,
    peer_iter: QueryPeerIter,
    started: Option<Instant>,
    /// The opaque inner query state.
    pub inner: TInner,
}

/// What a query holds.
pub struct QueryView<TInner> {
    pub id: QueryId,
    pub iter: QueryPeerIterView,
    pub started: Option<Instant>,
    pub inner: TInner,
}

impl<TInner> View for Query<TInner> {
    type V = QueryView<TInner>;

    closed spec fn view(&self) -> QueryView<TInner> {
        QueryView { id: self.id, iter: self.peer_iter@, started: self.started, inner: self.inner }
    }
}

/// The result of a query: its inner state and the peers that answered
/// successfully.
pub struct QueryResult<TInner> {
    /// The opaque inner query state.
    pub inner: TInner,
    /// The successfully contacted peers.
    pub peers: Vec<Vec<u8>>,
}

impl<TInner> Query<TInner> {
    /// The strategy of the query keeps its invariant.
    pub closed spec fn wf(&self) -> bool {
        self.peer_iter.wf()
    }

    /// Gets the unique ID of the query.
    pub fn id(&self) -> (r: QueryId)
        ensures
            r == self@.id,
    {
        self.id
    }

    /// The inner state of the query.
    pub fn inner(&self) -> (r: &TInner)
        ensures
            *r == self@.inner,
    {
        &self.inner
    }

    /// Informs the query that the attempt to contact `peer` failed.
    pub fn on_failure(&mut self, peer: &Vec<u8>)
        requires
            old(self).wf(),
        ensures
            final(self).wf(),
            final(self)@ == (QueryView {
                iter: match old(self)@.iter {
                    QueryPeerIterView::Closest(v) => QueryPeerIterView::Closest(v.after_failure(peer@)),
                    QueryPeerIterView::Fixed(v) => QueryPeerIterView::Fixed(v.after_result(peer@, FixedPeerState::Failed)),
                },
                ..old(self)@
            }),
    {
        match &mut self.peer_iter {
            QueryPeerIter::Closest(iter) => iter.on_failure(peer),
            QueryPeerIter::Fixed(iter) => iter.on_failure(peer),
        }
    }

    /// Informs the query that the attempt to contact `peer` succeeded,
    /// with new peers that a closest-peers strategy incorporates.
    pub fn on_success(&mut self, peer: &Vec<u8>, new_peers: Vec<Vec<u8>>)
        requires
            old(self).wf(),
        ensures
            final(self).wf(),
            final(self)@ == (QueryView {
                iter: match old(self)@.iter {
                    QueryPeerIterView::Closest(v) => QueryPeerIterView::Closest(v.after_success(peer@, reported_pairs(new_peers@))),
                    QueryPeerIterView::Fixed(v) => QueryPeerIterView::Fixed(v.after_result(peer@, FixedPeerState::Succeeded)),
                },
                ..old(self)@
            }),
    {
        match &mut self.peer_iter {
            QueryPeerIter::Closest(iter) => iter.on_success(peer, new_peers),
            QueryPeerIter::Fixed(iter) => iter.on_success(peer),
        }
    }

    /// Checks whether the query is currently waiting for a result from
    /// `peer`.
    pub fn is_waiting(&self, peer: &Vec<u8>) -> (r: bool)
        requires
            self.wf(),
        ensures
            r == match self@.iter {
                QueryPeerIterView::Closest(v) => waiting_ids(v.peers).contains(peer@),
                QueryPeerIterView::Fixed(v) => was_emitted(v.peers, peer@) && v.peers[emitted_index(v.peers, peer@)].1
                    == FixedPeerState::Waiting,
            },
    {
        match &self.peer_iter {
            QueryPeerIter::Closest(iter) => iter.is_waiting(peer),
            QueryPeerIter::Fixed(iter) => iter.is_waiting(peer),
        }
    }

    /// Advances the strategy of the query at the instant `now`, as
    /// `QueryPeerIterView::step_at` says.
    pub fn next(&mut self, now: Instant) -> (r: PeersIterState)
        requires
            old(self).wf(),
        ensures
            final(self).wf(),
            final(self)@.id == old(self)@.id,
            final(self)@.started == old(self)@.started,
            final(self)@.inner == old(self)@.inner,
            (final(self)@.iter, r@) == old(self)@.iter.step_at(now),
            r is Finished ==> final(self)@.iter.is_finished(),
    {
        match &mut self.peer_iter {
            QueryPeerIter::Closest(iter) => {
                let ghost v = iter@;
                let r = iter.next(now);
                proof {
                    lemma_step_state(v, expired_at(v.peers, now), instant_plus(now, v.config.peer_timeout));
                }
                r
            },
            QueryPeerIter::Fixed(iter) => iter.next(),
        }
    }

    /// Finishes the query prematurely: it stops yielding new peers to
    /// contact.
    pub fn finish(&mut self)
        requires
            old(self).wf(),
        ensures
            final(self).wf(),
            final(self)@.id == old(self)@.id,
            final(self)@.started == old(self)@.started,
            final(self)@.inner == old(self)@.inner,
            final(self)@.iter.is_finished(),
    {
        match &mut self.peer_iter {
            QueryPeerIter::Closest(iter) => iter.finish(),
            QueryPeerIter::Fixed(iter) => iter.finish(),
        }
    }

    /// Consumes the query, producing its result.
    pub fn into_result(self) -> (r: QueryResult<TInner>)
        requires
            self.wf(),
        ensures
            r.inner == self@.inner,
            byte_views(r.peers@) == self@.iter.result(),
    {
        let peers = match self.peer_iter {
            QueryPeerIter::Closest(iter) => {
                let ghost v = iter@;
                let p = iter.into_result();
                assert(byte_views(p@) =~= result_of(v));
                p
            },
            QueryPeerIter::Fixed(iter) => iter.into_result(),
        };
        QueryResult { inner: self.inner, peers }
    }
}

/// The observable states emitted by `QueryPool::poll`.
pub enum QueryPoolState<'a, TInner> {
    /// The pool is idle, i.e. there are no queries to process.
    Idle,
    /// At least one query is waiting for results. `Some(request)` indicates
    /// that a new request is now being waited on.
    Waiting(Option<(&'a Query<TInner>, Vec<u8>)>),
    /// A query has finished.
    Finished(Query<TInner>),
    /// A query has timed out.
    Timeout(Query<TInner>),
}

/// The identifiers of queries, in order.
pub open spec fn query_ids<TInner>(s: Seq<Query<TInner>>) -> Seq<QueryId> {
    s.map_values(|q: Query<TInner>| q@.id)
}

/// The identifiers of queries, in order.
pub open spec fn view_ids<TInner>(s: Seq<QueryView<TInner>>) -> Seq<QueryId> {
    s.map_values(|q: QueryView<TInner>| q.id)
}

/// A `QueryPool` drives queries to completion.
pub struct QueryPool<TInner> {
    next_id: usize,
    config: QueryConfig,
    queries: Vec<Query<TInner>>,
}

/// What a pool holds: the next identifier, the configuration and the
/// queries.
pub struct QueryPoolView<TInner> {
    pub next_id: usize,
    pub config: QueryConfig,
    pub queries: Seq<QueryView<TInner>>,
}

impl<TInner> View for QueryPool<TInner> {
    type V = QueryPoolView<TInner>;

    closed spec fn view(&self) -> QueryPoolView<TInner> {
        QueryPoolView { next_id: self.next_id, config: self.config, queries: self.queries@.map_values(|q: Query<TInner>| q@) }
    }
}

impl<TInner> QueryPool<TInner> {
    /// Every query keeps its invariant; no two have the same identifier.
    pub closed spec fn wf(&self) -> bool {
        &&& forall|i: int| 0 <= i < self.queries@.len() ==> (#[trigger] self.queries@[i]).wf()
        &&& forall|i: int, j: int|
            0 <= i < j < self.queries@.len() ==> (#[trigger] self.queries@[i])@.id != (#[trigger] self.queries@[j])@.id
    }

    /// Creates a new pool with the given configuration.
    pub fn new(config: QueryConfig) -> (r: Self)
        ensures
            r.wf(),
            r@.next_id == 0,
            r@.config == config,
            r@.queries == Seq::<QueryView<TInner>>::empty(),
    {
        let r = QueryPool { next_id: 0, config, queries: Vec::new() };
        assert(r@.queries =~= Seq::<QueryView<TInner>>::empty());
        r
    }

    /// Gets a reference to the configuration used by the pool.
    pub fn config(&self) -> (r: &QueryConfig)
        ensures
            *r == self@.config,
    {
        &self.config
    }

    /// The queries in the pool.
    pub fn iter(&self) -> (r: &[Query<TInner>])
        ensures
            r@.map_values(|q: Query<TInner>| q@) == self@.queries,
    {
        self.queries.as_slice()
    }

    /// The position of the query `id`, if it is in the pool.
    fn position(&self, id: &QueryId) -> (r: Option<usize>)
        requires
            self.wf(),
        ensures
            match r {
                Some(i) => i < self@.queries.len() && self@.queries[i as int].id == *id,
                None => forall|i: int| 0 <= i < self@.queries.len() ==> self@.queries[i].id != *id,
            },
    {
        let mut i: usize = 0;
        while i < self.queries.len()
            invariant
                i <= self@.queries.len(),
                forall|j: int| 0 <= j < i ==> self@.queries[j].id != *id,
            decreases self@.queries.len() - i,
        {
            assert(self@.queries[i as int] == self.queries@[i as int]@);
            if self.queries[i].id.0 == id.0 {
                return Some(i);
            }
            i += 1;
        }
        None
    }

    /// Returns the query with the given ID, if it is in the pool.
    pub fn get(&self, id: &QueryId) -> (r: Option<&Query<TInner>>)
        requires
            self.wf(),
        ensures
            match r {
                Some(q) => q@.id == *id && self@.queries.contains(q@),
                None => forall|i: int| 0 <= i < self@.queries.len() ==> self@.queries[i].id != *id,
            },
    {
        match self.position(id) {
            Some(i) => {
                assert(self@.queries[i as int] == self.queries@[i as int]@);
                Some(&self.queries[i])
            },
            None => None,
        }
    }

    /// Adds a query, replacing a query of the same identifier.
    fn add(&mut self, peer_iter: QueryPeerIter, inner: TInner) -> (r: QueryId)
        requires
            old(self).wf(),
            peer_iter.wf(),
        ensures
            final(self).wf(),
            r.0 == old(self)@.next_id,
            final(self)@.next_id == old(self)@.next_id.wrapping_add(1),
            final(self)@.config == old(self)@.config,
            final(self)@.queries.len() >= 1,
            final(self)@.queries.last() == (QueryView { id: r, iter: peer_iter@, started: None, inner }),
            (forall|i: int| 0 <= i < old(self)@.queries.len() ==> old(self)@.queries[i].id != r) ==> final(self)@.queries.drop_last()
                == old(self)@.queries,
            forall|i: int|
                0 <= i < old(self)@.queries.len() && old(self)@.queries[i].id == r ==> final(self)@.queries.drop_last()
                    == old(self)@.queries.remove(i),
    {
        let id = QueryId(self.next_id);
        self.next_id = self.next_id.wrapping_add(1);
        let ghost before = self@.queries;
        let ghost before_vec = self.queries@;
        let pos = self.position(&id);
        let q = Query { id, peer_iter, started: None, inner };
        match pos {
            Some(i) => {
                self.queries.remove(i);
                proof {
                    assert forall|j: int| 0 <= j < before.len() && before[j].id == id implies j == i by {
                        assert(before[j] == before_vec[j]@);
                        assert(before[i as int] == before_vec[i as int]@);
                        if j < i {
                            assert(before_vec[j]@.id != before_vec[i as int]@.id);
                        } else if j > i {
                            assert(before_vec[i as int]@.id != before_vec[j]@.id);
                        }
                    }
                }
            },
            None => {},
        }
        let ghost mid = self.queries@;
        self.queries.push(q);
        proof {
            assert(self.queries@ =~= mid.push(q));
            assert(self@.queries.drop_last() =~= mid.map_values(|x: Query<TInner>| x@));
            match pos {
                Some(i) => {
                    assert(mid =~= before_vec.remove(i as int));
                    assert(mid.map_values(|x: Query<TInner>| x@) =~= before.remove(i as int));
                },
                None => {
                    assert(mid.map_values(|x: Query<TInner>| x@) =~= before);
                },
            }
            assert forall|a: int| 0 <= a < self.queries@.len() implies (#[trigger] self.queries@[a]).wf() by {
                if a < mid.len() {
                    match pos {
                        Some(i) => {
                            if a < i {
                                assert(self.queries@[a] == before_vec[a]);
                            } else {
                                assert(self.queries@[a] == before_vec[a + 1]);
                            }
                        },
                        None => {
                            assert(self.queries@[a] == before_vec[a]);
                        },
                    }
                }
            }
            assert forall|a: int, b: int| 0 <= a < b < self.queries@.len() implies (#[trigger] self.queries@[a])@.id
                != (#[trigger] self.queries@[b])@.id by {
                let ia = match pos { Some(i) => if a < i { a } else { a + 1 }, None => a };
                if b < mid.len() {
                    let ib = match pos { Some(i) => if b < i { b } else { b + 1 }, None => b };
                    assert(self.queries@[a] == before_vec[ia]);
                    assert(self.queries@[b] == before_vec[ib]);
                } else {
                    assert(self.queries@[a] == before_vec[ia]);
                    assert(before[ia] == before_vec[ia]@);
                    match pos {
                        Some(i) => {
                            assert(ia != i);
                        },
                        None => {},
                    }
                }
            }
        }
        id
    }

    /// Adds a query that contacts a fixed set of peers, with the
    /// replication factor as parallelism.
    pub fn add_fixed(&mut self, peers: Vec<Key>, inner: TInner) -> (r: QueryId)
        requires
            old(self).wf(),
        ensures
            final(self).wf(),
            r.0 == old(self)@.next_id,
            final(self)@.next_id == old(self)@.next_id.wrapping_add(1),
            final(self)@.queries.len() >= 1,
            final(self)@.config == old(self)@.config,
            (forall|i: int| 0 <= i < old(self)@.queries.len() ==> old(self)@.queries[i].id != r) ==> final(self)@.queries.drop_last()
                == old(self)@.queries,
            forall|i: int|
                0 <= i < old(self)@.queries.len() && old(self)@.queries[i].id == r ==> final(self)@.queries.drop_last()
                    == old(self)@.queries.remove(i),
            final(self)@.queries.last().id == r,
            final(self)@.queries.last().started is None,
            final(self)@.queries.last().inner == inner,
            final(self)@.queries.last().iter == QueryPeerIterView::Fixed(FixedPeersIterView {
                parallelism: old(self)@.config.replication_factor,
                peers: Seq::empty(),
                backlog: peers@.map_values(|k: Key| k.spec_preimage()),
                state: crate::query::peers::fixed::State::Waiting { num_waiting: 0 },
            }),
    {
        let mut ids: Vec<Vec<u8>> = Vec::new();
        let mut peers = peers;
        let ghost orig = peers@;
        while peers.len() > 0
            invariant
                ids@.len() + peers@.len() == orig.len(),
                peers@ == orig.subrange(ids@.len() as int, orig.len() as int),
                forall|j: int| 0 <= j < ids@.len() ==> (#[trigger] ids@[j])@ == orig[j].spec_preimage(),
            decreases peers@.len(),
        {
            let k = peers.remove(0);
            assert(k == orig[ids@.len() as int]);
            ids.push(k.into_preimage());
        }
        assert(byte_views(ids@) =~= orig.map_values(|k: Key| k.spec_preimage()));
        let iter = FixedPeersIter::new(ids, self.config.replication_factor);
        self.add(QueryPeerIter::Fixed(iter), inner)
    }

    /// Adds a query that iterates towards the peers closest to `target`,
    /// looking for as many as the replication factor.
    pub fn add_iter_closest(&mut self, target: KeyBytes, peers: Vec<Key>, inner: TInner) -> (r: QueryId)
        requires
            old(self).wf(),
        ensures
            final(self).wf(),
            r.0 == old(self)@.next_id,
            final(self)@.next_id == old(self)@.next_id.wrapping_add(1),
            final(self)@.queries.len() >= 1,
            final(self)@.config == old(self)@.config,
            (forall|i: int| 0 <= i < old(self)@.queries.len() ==> old(self)@.queries[i].id != r) ==> final(self)@.queries.drop_last()
                == old(self)@.queries,
            forall|i: int|
                0 <= i < old(self)@.queries.len() && old(self)@.queries[i].id == r ==> final(self)@.queries.drop_last()
                    == old(self)@.queries.remove(i),
            final(self)@.queries.last().id == r,
            final(self)@.queries.last().started is None,
            final(self)@.queries.last().inner == inner,
            final(self)@.queries.last().iter matches QueryPeerIterView::Closest(v) && {
                &&& v.config.num_results == old(self)@.config.replication_factor
                &&& v.config.parallelism == crate::ALPHA_VALUE
                &&& v.config.disjoint_paths == 1
                &&& v.target == target@
                &&& v.num_waiting == 0
                &&& v.peers == initial_peers(target@, key_pairs(peers@).take(
                    if peers@.len() < v.config.num_results { peers@.len() as int } else { v.config.num_results as int },
                ))
            },
    {
        let mut cfg = ClosestPeersIterConfig::default();
        cfg.num_results = self.config.replication_factor;
        let iter = ClosestPeersIter::with_config(cfg, target, peers);
        self.add(QueryPeerIter::Closest(iter), inner)
    }

    /// Polls the pool at the instant `now`: the queries are advanced in
    /// turn (each one's clock started if it had not), until one finishes,
    /// asks for a request to a peer, or has run at least the timeout
    /// without either; that query is reported, and a finished or timed-out
    /// one leaves the pool. The queries after it are left as they were.
    pub fn poll(&mut self, now: Instant) -> (r: QueryPoolState<TInner>)
        requires
            old(self).wf(),
        ensures
            final(self).wf(),
            final(self)@.next_id == old(self)@.next_id,
            final(self)@.config == old(self)@.config,
            r is Idle <==> old(self)@.queries.len() == 0,
            r is Idle ==> final(self)@ == old(self)@,
            old(self)@.queries.len() > 0 ==> exists|k: int| #[trigger] stops_at(old(self)@.queries, now, old(self)@.config.timeout, k) && {
                let a = advanced_up_to(old(self)@.queries, k, now);
                if k == old(self)@.queries.len() {
                    r matches QueryPoolState::Waiting(None) && final(self)@.queries == a
                } else {
                    match outcome(old(self)@.queries[k], now, old(self)@.config.timeout) {
                        PollOutcome::Peer(p) => match r {
                            QueryPoolState::Waiting(Some((q, p2))) => p2@ == p && q@ == a[k] && final(self)@.queries == a,
                            _ => false,
                        },
                        PollOutcome::Finished => match r {
                            QueryPoolState::Finished(q) => q.wf() && q@ == a[k] && final(self)@.queries == a.remove(k),
                            _ => false,
                        },
                        PollOutcome::TimedOut => match r {
                            QueryPoolState::Timeout(q) => q.wf() && q@ == a[k] && final(self)@.queries == a.remove(k),
                            _ => false,
                        },
                        PollOutcome::Continue => false,
                    }
                }
            },
    {
        let ghost before = self@.queries;
        let n = self.queries.len();
        if n == 0 {
            proof {
                assert(self@.queries =~= before);
            }
            return QueryPoolState::Idle;
        }
        let ghost timeout = self.config.timeout;
        proof {
            self.lemma_unique_ids();
            assert(self@.queries =~= advanced_up_to(before, -1, now));
        }
        let mut i: usize = 0;
        let mut stop: Option<(usize, Option<Vec<u8>>, bool)> = None;
        while i < n
            invariant_except_break
                stop is None,
            invariant
                self.wf(),
                n == self.queries@.len(),
                n == before.len(),
                n > 0,
                i <= n,
                self.next_id == old(self).next_id,
                self.config == old(self).config,
                timeout == self.config.timeout,
                before == old(self)@.queries,
                forall|a: int, b: int| 0 <= a < n && 0 <= b < n && a != b ==> (#[trigger] before[a]).id != (#[trigger] before[b]).id,
                forall|j: int| 0 <= j < i ==> (#[trigger] outcome(before[j], now, timeout)) is Continue,
                stop is None ==> self@.queries == advanced_up_to(before, i - 1, now),
                match stop {
                    None => true,
                    Some((k, peer, to)) => {
                        &&& k == i
                        &&& i < n
                        &&& self@.queries == advanced_up_to(before, i as int, now)
                        &&& match peer {
                            Some(p) => !to && outcome(before[i as int], now, timeout) == PollOutcome::Peer(p@),
                            None => outcome(before[i as int], now, timeout) == (if to { PollOutcome::TimedOut } else { PollOutcome::Finished }),
                        }
                    },
                },
            ensures
                stop is None ==> i == n,
            decreases n - i,
        {
            let ghost cur = self.queries@;
            let ghost curv = self@.queries;
            assert(cur[i as int].wf());
            assert(self@.queries[i as int] == cur[i as int]@);
            assert(cur[i as int]@ == before[i as int]);
            let mut q = self.queries.remove(i);
            if q.started.is_none() {
                q.started = Some(now);
            }
            let state = q.next(now);
            let started = match q.started {
                Some(t) => t,
                None => now,
            };
            self.queries.insert(i, q);
            proof {
                assert(self.queries@ =~= cur.update(i as int, q));
                assert(q@ == advanced(before[i as int], now));
                assert forall|j: int| 0 <= j < n implies (#[trigger] self.queries@[j]).wf() by {
                    if j != i {
                        assert(self.queries@[j] == cur[j]);
                    }
                }
                assert forall|j: int| 0 <= j < n implies self@.queries[j] == advanced_up_to(before, i as int, now)[j] by {
                    assert(self@.queries[j] == self.queries@[j]@);
                    if j != i {
                        assert(self.queries@[j] == cur[j]);
                        assert(curv[j] == cur[j]@);
                    }
                }
                assert(self@.queries =~= advanced_up_to(before, i as int, now));
                assert forall|a: int, b: int| 0 <= a < b < n implies (#[trigger] self.queries@[a])@.id
                    != (#[trigger] self.queries@[b])@.id by {
                    assert(self@.queries[a] == self.queries@[a]@);
                    assert(self@.queries[b] == self.queries@[b]@);
                    assert(self@.queries[a].id == before[a].id);
                    assert(self@.queries[b].id == before[b].id);
                }
            }
            match state {
                PeersIterState::Finished => {
                    stop = Some((i, None, false));
                },
                PeersIterState::Waiting(Some(peer)) => {
                    stop = Some((i, Some(peer), false));
                },
                _ => {
                    if duration_at_least(elapsed_between(now, started), self.config.timeout) {
                        stop = Some((i, None, true));
                    }
                },
            }
            match stop {
                Some(_) => {
                    break;
                },
                None => {
                    assert(outcome(before[i as int], now, timeout) is Continue);
                },
            }
            i += 1;
        }
        match stop {
            Some((k, peer, timed_out)) => {
                proof {
                    assert(stops_at(before, now, timeout, k as int));
                }
                match peer {
                    Some(p) => {
                        let q = &self.queries[k];
                        assert(self@.queries[k as int] == q@);
                        return QueryPoolState::Waiting(Some((q, p)));
                    },
                    None => {
                        let ghost cur = self.queries@;
                        assert(cur[k as int].wf());
                        let q = self.queries.remove(k);
                        proof {
                            self.lemma_removed_wf(cur, k as int);
                            assert(self@.queries =~= advanced_up_to(before, k as int, now).remove(k as int));
                        }
                        if timed_out {
                            return QueryPoolState::Timeout(q);
                        } else {
                            return QueryPoolState::Finished(q);
                        }
                    },
                }
            },
            None => {
                proof {
                    assert(stops_at(before, now, timeout, n as int));
                    assert(advanced_up_to(before, n - 1, now) =~= advanced_up_to(before, n as int, now));
                }
                QueryPoolState::Waiting(None)
            },
        }
    }

    /// Replaces the query at `i` by `q`, of the same identifier.
    fn put_back(&mut self, i: usize, q: Query<TInner>, Ghost(cur): Ghost<Seq<Query<TInner>>>)
        requires
            old(self).queries@ == cur.remove(i as int),
            i < cur.len(),
            q.wf(),
            q@.id == cur[i as int]@.id,
            forall|a: int| 0 <= a < cur.len() ==> (#[trigger] cur[a]).wf(),
            forall|a: int, b: int| 0 <= a < b < cur.len() ==> (#[trigger] cur[a])@.id != (#[trigger] cur[b])@.id,
        ensures
            final(self).wf(),
            final(self).queries@ == cur.update(i as int, q),
            final(self)@.next_id == old(self)@.next_id,
            final(self)@.config == old(self)@.config,
    {
        self.queries.insert(i, q);
        assert(self.queries@ =~= cur.update(i as int, q));
        assert forall|a: int| 0 <= a < self.queries@.len() implies (#[trigger] self.queries@[a]).wf() by {
            if a != i {
                assert(self.queries@[a] == cur[a]);
            }
        }
        assert forall|a: int, b: int| 0 <= a < b < self.queries@.len() implies (#[trigger] self.queries@[a])@.id
            != (#[trigger] self.queries@[b])@.id by {
            assert(self.queries@[a]@.id == cur[a]@.id);
            assert(self.queries@[b]@.id == cur[b]@.id);
        }
    }

    /// Informs the query `id` that the attempt to contact `peer` succeeded,
    /// with new peers; nothing happens if the query is not in the pool.
    pub fn on_success(&mut self, id: &QueryId, peer: &Vec<u8>, new_peers: Vec<Vec<u8>>)
        requires
            old(self).wf(),
        ensures
            final(self).wf(),
            final(self)@.next_id == old(self)@.next_id,
            final(self)@.config == old(self)@.config,
            final(self)@.queries.len() == old(self)@.queries.len(),
            forall|i: int| 0 <= i < old(self)@.queries.len() ==> #[trigger] final(self)@.queries[i] == if old(self)@.queries[i].id
                == *id {
                QueryView {
                    iter: match old(self)@.queries[i].iter {
                        QueryPeerIterView::Closest(v) => QueryPeerIterView::Closest(v.after_success(peer@, reported_pairs(new_peers@))),
                        QueryPeerIterView::Fixed(v) => QueryPeerIterView::Fixed(v.after_result(peer@, FixedPeerState::Succeeded)),
                    },
                    ..old(self)@.queries[i]
                }
            } else {
                old(self)@.queries[i]
            },
    {
        let ghost before = self@.queries;
        match self.position(id) {
            Some(i) => {
                let ghost cur = self.queries@;
                assert(cur[i as int].wf());
                let mut q = self.queries.remove(i);
                q.on_success(peer, new_peers);
                self.put_back(i, q, Ghost(cur));
                proof {
                    assert forall|a: int| 0 <= a < before.len() && a != i implies before[a].id != *id by {
                        assert(before[a] == cur[a]@);
                        assert(before[i as int] == cur[i as int]@);
                        if a < i {
                            assert(cur[a]@.id != cur[i as int]@.id);
                        } else {
                            assert(cur[i as int]@.id != cur[a]@.id);
                        }
                    }
                    assert forall|a: int| 0 <= a < before.len() && a != i implies #[trigger] self@.queries[a] == before[a] by {
                        assert(self.queries@[a] == cur[a]);
                    }
                }
            },
            None => {},
        }
    }

    /// Informs the query `id` that the attempt to contact `peer` failed;
    /// nothing happens if the query is not in the pool.
    pub fn on_failure(&mut self, id: &QueryId, peer: &Vec<u8>)
        requires
            old(self).wf(),
        ensures
            final(self).wf(),
            final(self)@.next_id == old(self)@.next_id,
            final(self)@.config == old(self)@.config,
            final(self)@.queries.len() == old(self)@.queries.len(),
            forall|i: int| 0 <= i < old(self)@.queries.len() ==> #[trigger] final(self)@.queries[i] == if old(self)@.queries[i].id
                == *id {
                QueryView {
                    iter: match old(self)@.queries[i].iter {
                        QueryPeerIterView::Closest(v) => QueryPeerIterView::Closest(v.after_failure(peer@)),
                        QueryPeerIterView::Fixed(v) => QueryPeerIterView::Fixed(v.after_result(peer@, FixedPeerState::Failed)),
                    },
                    ..old(self)@.queries[i]
                }
            } else {
                old(self)@.queries[i]
            },
    {
        let ghost before = self@.queries;
        match self.position(id) {
            Some(i) => {
                let ghost cur = self.queries@;
                assert(cur[i as int].wf());
                let mut q = self.queries.remove(i);
                q.on_failure(peer);
                self.put_back(i, q, Ghost(cur));
                proof {
                    assert forall|a: int| 0 <= a < before.len() && a != i implies before[a].id != *id by {
                        assert(before[a] == cur[a]@);
                        assert(before[i as int] == cur[i as int]@);
                        if a < i {
                            assert(cur[a]@.id != cur[i as int]@.id);
                        } else {
                            assert(cur[i as int]@.id != cur[a]@.id);
                        }
                    }
                    assert forall|a: int| 0 <= a < before.len() && a != i implies #[trigger] self@.queries[a] == before[a] by {
                        assert(self.queries@[a] == cur[a]);
                    }
                }
            },
            None => {},
        }
    }

    /// No two queries of a pool have the same identifier.
    pub proof fn lemma_unique_ids(&self)
        requires
            self.wf(),
        ensures
            forall|i: int, j: int| 0 <= i < self@.queries.len() && 0 <= j < self@.queries.len() && i != j
                ==> (#[trigger] self@.queries[i]).id != (#[trigger] self@.queries[j]).id,
    {
        assert forall|i: int, j: int| 0 <= i < self@.queries.len() && 0 <= j < self@.queries.len() && i != j
            implies (#[trigger] self@.queries[i]).id != (#[trigger] self@.queries[j]).id by {
            assert(self@.queries[i] == self.queries@[i]@);
            assert(self@.queries[j] == self.queries@[j]@);
            if i < j {
                assert(self.queries@[i]@.id != self.queries@[j]@.id);
            } else {
                assert(self.queries@[j]@.id != self.queries@[i]@.id);
            }
        }
    }

    /// Puts `inner` in place of the inner state of the query `id`, if it is
    /// in the pool, and gives back the one it had; nothing changes where
    /// it is not.
    pub fn replace_inner(&mut self, id: &QueryId, inner: TInner) -> (r: Option<TInner>)
        requires
            old(self).wf(),
        ensures
            final(self).wf(),
            final(self)@.next_id == old(self)@.next_id,
            final(self)@.config == old(self)@.config,
            final(self)@.queries.len() == old(self)@.queries.len(),
            forall|i: int| 0 <= i < old(self)@.queries.len() ==> #[trigger] final(self)@.queries[i] == if old(self)@.queries[i].id == *id {
                QueryView { inner, ..old(self)@.queries[i] }
            } else {
                old(self)@.queries[i]
            },
            match r {
                Some(x) => exists|i: int| 0 <= i < old(self)@.queries.len() && old(self)@.queries[i].id == *id
                    && x == old(self)@.queries[i].inner,
                None => forall|i: int| 0 <= i < old(self)@.queries.len() ==> old(self)@.queries[i].id != *id,
            },
    {
        let ghost before = self@.queries;
        match self.position(id) {
            Some(i) => {
                let ghost cur = self.queries@;
                assert(cur[i as int].wf());
                let q0 = self.queries.remove(i);
                let Query { id: qid, peer_iter, started, inner: old_inner } = q0;
                let q = Query { id: qid, peer_iter, started, inner };
                self.put_back(i, q, Ghost(cur));
                proof {
                    assert forall|a: int| 0 <= a < before.len() && a != i implies before[a].id != *id by {
                        assert(before[a] == cur[a]@);
                        assert(before[i as int] == cur[i as int]@);
                        if a < i {
                            assert(cur[a]@.id != cur[i as int]@.id);
                        } else {
                            assert(cur[i as int]@.id != cur[a]@.id);
                        }
                    }
                    assert forall|a: int| 0 <= a < before.len() implies #[trigger] self@.queries[a] == if before[a].id == *id {
                        QueryView { inner, ..before[a] }
                    } else {
                        before[a]
                    } by {
                        assert(self.queries@[a] == cur.update(i as int, q)[a]);
                        assert(before[a] == cur[a]@);
                    }
                }
                Some(old_inner)
            },
            None => None,
        }
    }

    /// Finishes the query `id` prematurely; nothing happens if the query is
    /// not in the pool.
    pub fn finish(&mut self, id: &QueryId)
        requires
            old(self).wf(),
        ensures
            final(self).wf(),
            final(self)@.next_id == old(self)@.next_id,
            final(self)@.config == old(self)@.config,
            view_ids(final(self)@.queries) == view_ids(old(self)@.queries),
            forall|i: int| 0 <= i < old(self)@.queries.len() ==> {
                &&& (#[trigger] final(self)@.queries[i]).inner == old(self)@.queries[i].inner
                &&& old(self)@.queries[i].id == *id ==> final(self)@.queries[i].iter.is_finished()
                &&& old(self)@.queries[i].id != *id ==> final(self)@.queries[i] == old(self)@.queries[i]
            },
    {
        let ghost before = self@.queries;
        match self.position(id) {
            Some(i) => {
                let ghost cur = self.queries@;
                assert(cur[i as int].wf());
                let mut q = self.queries.remove(i);
                q.finish();
                self.put_back(i, q, Ghost(cur));
                proof {
                    assert forall|a: int| 0 <= a < before.len() && a != i implies before[a].id != *id by {
                        assert(before[a] == cur[a]@);
                        assert(before[i as int] == cur[i as int]@);
                        if a < i {
                            assert(cur[a]@.id != cur[i as int]@.id);
                        } else {
                            assert(cur[i as int]@.id != cur[a]@.id);
                        }
                    }
                    assert forall|a: int| 0 <= a < before.len() && a != i implies #[trigger] self@.queries[a] == before[a] by {
                        assert(self.queries@[a] == cur[a]);
                    }
                    assert(view_ids(self@.queries) =~= view_ids(before));
                }
            },
            None => {},
        }
    }

    /// Removing a query keeps the pool's invariant.
    proof fn lemma_removed_wf(&self, cur: Seq<Query<TInner>>, k: int)
        requires
            0 <= k < cur.len(),
            self.queries@ == cur.remove(k),
            forall|i: int| 0 <= i < cur.len() ==> (#[trigger] cur[i]).wf(),
            forall|i: int, j: int| 0 <= i < j < cur.len() ==> (#[trigger] cur[i])@.id != (#[trigger] cur[j])@.id,
        ensures
            self.wf(),
    {
        assert forall|a: int| 0 <= a < self.queries@.len() implies (#[trigger] self.queries@[a]).wf() by {
            if a < k {
                assert(self.queries@[a] == cur[a]);
            } else {
                assert(self.queries@[a] == cur[a + 1]);
            }
        }
        assert forall|a: int, b: int| 0 <= a < b < self.queries@.len() implies (#[trigger] self.queries@[a])@.id
            != (#[trigger] self.queries@[b])@.id by {
            let a2 = if a < k { a } else { a + 1 };
            let b2 = if b < k { b } else { b + 1 };
            assert(self.queries@[a] == cur[a2]);
            assert(self.queries@[b] == cur[b2]);
        }
    }
}

} // verus!
