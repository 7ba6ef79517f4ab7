//! A lookup along disjoint paths: one closest-peers iterator per unit of
//! parallelism, all starting from the same peers, each peer contacted by
//! one of them only (S/Kademlia).

use vstd::prelude::*;
use std::time::Instant;
use crate::K_VALUE;
use crate::kbucket::key::{Key, KeyBytes, KadKey};
use crate::query::peers::closest::{busy, ClosestPeersIter, ClosestPeersIterConfig, ClosestPeersIterView, State,
    count_not_contacted, reported_pairs, waiting_ids, initial_peers, key_pairs, expired_at};
use crate::time::instant_plus;
use crate::query::peers::disjoint_closest::{iter_views, result_of};
use crate::query::peers::{PeersIterState, IterStep};
use crate::record::keyed::{keys_unique, keyed_map, lemma_keyed_index, lemma_keyed_absent, lemma_keyed_push,
    lemma_keyed_update};
use crate::addresses::byte_views;

verus! {

/// What became of a request to a contacted peer.
#[derive(Debug, Copy, Clone, PartialEq, Eq, Structural)]
pub enum ResponseState {
    Waiting,
    Succeeded,
    Failed,
}

/// The iterators that yielded (tried to contact) a peer: the first one,
/// told of the outcome and of the closer peers, and the others, told of
/// the outcome only.
pub struct ContactedPeer {
    initiated_by: usize,
    additionally_awaited_by: Vec<usize>,
    response: ResponseState,
}

/// What is known of a contacted peer, as values.
pub struct ContactedView {
    pub initiated_by: usize,
    pub additionally_awaited_by: Seq<usize>,
    pub response: ResponseState,
}

impl View for ContactedPeer {
    type V = ContactedView;

    closed spec fn view(&self) -> ContactedView {
        ContactedView {
            initiated_by: self.initiated_by,
            additionally_awaited_by: self.additionally_awaited_by@,
            response: self.response,
        }
    }
}

/// The contacted peers, each under its identity.
pub open spec fn contacted_entries(s: Seq<(Vec<u8>, ContactedPeer)>) -> Seq<(Seq<u8>, ContactedView)> {
    s.map_values(|e: (Vec<u8>, ContactedPeer)| (e.0@, e.1@))
}

/// The iterators after delivering a failure of `peer` to the iterators
/// `idxs`, in order.
pub open spec fn fail_all(iters: Seq<ClosestPeersIterView>, idxs: Seq<usize>, peer: Seq<u8>) -> Seq<ClosestPeersIterView>
    decreases idxs.len(),
{
    if idxs.len() == 0 {
        iters
    } else {
        let before = fail_all(iters, idxs.drop_last(), peer);
        before.update(idxs.last() as int, before[idxs.last() as int].after_failure(peer))
    }
}

/// The iterators after delivering a success of `peer`, without closer
/// peers, to the iterators `idxs`, in order.
pub open spec fn succeed_all(iters: Seq<ClosestPeersIterView>, idxs: Seq<usize>, peer: Seq<u8>) -> Seq<ClosestPeersIterView>
    decreases idxs.len(),
{
    if idxs.len() == 0 {
        iters
    } else {
        let before = succeed_all(iters, idxs.drop_last(), peer);
        before.update(idxs.last() as int, before[idxs.last() as int].after_success(peer, Seq::empty()))
    }
}


/// The identities handed to the iterators that awaited a peer: the first
/// one, then the others.
pub open spec fn awaiting(c: ContactedView) -> Seq<usize> {
    seq![c.initiated_by] + c.additionally_awaited_by
}

/// The greatest length among `lists`.
pub open spec fn max_len(lists: Seq<Seq<Seq<u8>>>) -> nat
    decreases lists.len(),
{
    if lists.len() == 0 {
        0
    } else if lists.last().len() > max_len(lists.drop_last()) {
        lists.last().len()
    } else {
        max_len(lists.drop_last())
    }
}

/// The elements of `lists` round by round, from round `r` and list `i`
/// on: in each round, the element of that rank of each list long enough,
/// list by list.
pub open spec fn rounds_from(lists: Seq<Seq<Seq<u8>>>, r: nat, i: nat) -> Seq<Seq<u8>>
    decreases max_len(lists) - r, lists.len() - i,
{
    if r >= max_len(lists) {
        Seq::empty()
    } else if i >= lists.len() {
        rounds_from(lists, r + 1, 0)
    } else {
        (if r < lists[i as int].len() { seq![lists[i as int][r as int]] } else { Seq::empty() }) + rounds_from(lists, r, i + 1)
    }
}

/// `acc` extended by the elements of `s` it lacks, in order, until it
/// holds `n` elements.
pub open spec fn gather(s: Seq<Seq<u8>>, n: nat, acc: Seq<Seq<u8>>) -> Seq<Seq<u8>>
    decreases s.len(),
{
    if acc.len() >= n || s.len() == 0 {
        acc
    } else {
        gather(s.drop_first(), n, if acc.contains(s[0]) { acc } else { acc.push(s[0]) })
    }
}

/// The results of iterators.
pub open spec fn results_of_each(vs: Seq<ClosestPeersIterView>) -> Seq<Seq<Seq<u8>>> {
    vs.map_values(|v: ClosestPeersIterView| result_of(v))
}

/// Every list is at most as long as the longest; if none is longer than
/// `r`, the longest is not either.
pub proof fn lemma_max_len(lists: Seq<Seq<Seq<u8>>>, r: nat)
    ensures
        forall|i: int| 0 <= i < lists.len() ==> (#[trigger] lists[i]).len() <= max_len(lists),
        (forall|i: int| 0 <= i < lists.len() ==> (#[trigger] lists[i]).len() <= r) ==> max_len(lists) <= r,
    decreases lists.len(),
{
    if lists.len() > 0 {
        lemma_max_len(lists.drop_last(), r);
        assert forall|i: int| 0 <= i < lists.len() implies (#[trigger] lists[i]).len() <= max_len(lists) by {
            if i < lists.len() - 1 {
                assert(lists.drop_last()[i] == lists[i]);
            }
        }
        if forall|i: int| 0 <= i < lists.len() ==> (#[trigger] lists[i]).len() <= r {
            assert forall|i: int| 0 <= i < lists.drop_last().len() implies (#[trigger] lists.drop_last()[i]).len() <= r by {
                assert(lists.drop_last()[i] == lists[i]);
            }
            assert(lists[lists.len() - 1].len() <= r);
        }
    }
}

/// Gathering from a sequence that starts with `x` is gathering from the
/// rest after `x`.
pub proof fn lemma_gather_cons(x: Seq<u8>, rest: Seq<Seq<u8>>, n: nat, acc: Seq<Seq<u8>>)
    requires
        acc.len() < n,
    ensures
        gather(seq![x] + rest, n, acc) == gather(rest, n, if acc.contains(x) { acc } else { acc.push(x) }),
{
    let s = seq![x] + rest;
    assert(s[0] == x);
    assert(s.drop_first() =~= rest);
}

/// Gathering from nothing, or into a full accumulator, adds nothing.
pub proof fn lemma_gather_done(s: Seq<Seq<u8>>, n: nat, acc: Seq<Seq<u8>>)
    requires
        acc.len() >= n || s.len() == 0,
    ensures
        gather(s, n, acc) == acc,
{
}

/// What the iterator holds: its configuration, one iterator per unit of
/// parallelism, the contacted peers and the iterator queried last.
pub struct ClosestDisjointPeersIterView {
    pub config: ClosestPeersIterConfig,
    pub iters: Seq<ClosestPeersIterView>,
    pub contacted: Map<Seq<u8>, ContactedView>,
    pub last_queried: usize,
}

/// Wraps around a set of `ClosestPeersIter`, enforcing a disjoint discovery
/// path per unit of parallelism according to the S/Kademlia paper.
pub struct ClosestDisjointPeersIter {
    config: ClosestPeersIterConfig,
    iters: Vec<ClosestPeersIter>,
    contacted_peers: Vec<(Vec<u8>, ContactedPeer)>,
    last_queried: usize,
}

impl View for ClosestDisjointPeersIter {
    type V = ClosestDisjointPeersIterView;

    closed spec fn view(&self) -> ClosestDisjointPeersIterView {
        ClosestDisjointPeersIterView {
            config: self.config,
            iters: iter_views(self.iters@),
            contacted: keyed_map(contacted_entries(self.contacted_peers@)),
            last_queried: self.last_queried,
        }
    }
}

/// One request to the iterator at `i`, at the instant `now`, as `next`
/// makes it. The iterator steps (see `ClosestPeersIterView::next_step`: the
/// peers whose deadline is not after `now` time out, and a peer contacted
/// now is waited for until `now` plus the peer timeout). A peer it names
/// that an iterator contacted already is not contacted again: this
/// iterator is told of the answer if it came (a success without peers, or a
/// failure), also awaits it otherwise, and is to be asked again (`None`).
/// Otherwise the step is its answer (`Some`), a new peer being recorded as
/// contacted by it.
pub open spec fn ask_once(v: ClosestDisjointPeersIterView, i: int, now: Instant) -> (ClosestDisjointPeersIterView, Option<IterStep>) {
    let it = v.iters[i];
    let st = it.next_step(expired_at(it.peers, now), instant_plus(now, it.config.peer_timeout));
    match st.1 {
        IterStep::Waiting(Some(p)) => if v.contacted.contains_key(p) {
            let c = v.contacted[p];
            let it2 = match c.response {
                ResponseState::Waiting => st.0,
                ResponseState::Succeeded => st.0.after_success(p, Seq::empty()),
                ResponseState::Failed => st.0.after_failure(p),
            };
            (
                ClosestDisjointPeersIterView {
                    iters: v.iters.update(i, it2),
                    contacted: v.contacted.insert(p, ContactedView {
                        additionally_awaited_by: c.additionally_awaited_by.push(i as usize),
                        ..c
                    }),
                    last_queried: i as usize,
                    ..v
                },
                None,
            )
        } else {
            (
                ClosestDisjointPeersIterView {
                    iters: v.iters.update(i, st.0),
                    contacted: v.contacted.insert(p, ContactedView {
                        initiated_by: i as usize,
                        additionally_awaited_by: Seq::empty(),
                        response: ResponseState::Waiting,
                    }),
                    last_queried: i as usize,
                    ..v
                },
                Some(st.1),
            )
        },
        _ => (ClosestDisjointPeersIterView { iters: v.iters.update(i, st.0), last_queried: i as usize, ..v }, Some(st.1)),
    }
}

/// `vs` are the states while the iterator at `i` is asked at `now` until
/// it answers `step`: each request but the last names a peer contacted
/// already.
pub open spec fn ask_chain(vs: Seq<ClosestDisjointPeersIterView>, i: int, now: Instant, step: IterStep) -> bool {
    &&& vs.len() >= 2
    &&& forall|j: int| 0 <= j < vs.len() - 2 ==> #[trigger] ask_once(vs[j], i, now) == (vs[j + 1], None::<IterStep>)
    &&& ask_once(vs[vs.len() - 2], i, now) == (vs.last(), Some(step))
}

/// Asking the iterator at `i` at `now` takes `v` to `v2` with the answer
/// `step`.
pub open spec fn asked(v: ClosestDisjointPeersIterView, i: int, now: Instant, v2: ClosestDisjointPeersIterView, step: IterStep) -> bool {
    exists|vs: Seq<ClosestDisjointPeersIterView>| #[trigger] ask_chain(vs, i, now, step) && vs[0] == v && vs.last() == v2
}

/// What the answers so far make of a round: waiting as soon as one
/// iterator waits, else at capacity as soon as one is, else nothing yet.
pub open spec fn combined(acc: Option<IterStep>, step: IterStep) -> Option<IterStep> {
    match step {
        IterStep::Waiting(None) => Some(IterStep::Waiting(None)),
        IterStep::WaitingAtCapacity => if acc is None { Some(IterStep::WaitingAtCapacity) } else { acc },
        _ => acc,
    }
}

/// The answers `sts` combined in order.
pub open spec fn fold_steps(sts: Seq<IterStep>) -> Option<IterStep>
    decreases sts.len(),
{
    if sts.len() == 0 {
        None
    } else {
        combined(fold_steps(sts.drop_last()), sts.last())
    }
}

/// The view of an optional state.
pub open spec fn opt_step(o: Option<PeersIterState>) -> Option<IterStep> {
    match o {
        Some(s) => Some(s@),
        None => None,
    }
}

/// A round of `next` at `now` from `rs[0]`: the iterators are asked in
/// turn from the one after the one queried last, `rs` being the states in
/// between and `sts` their answers, until one names a new peer or every
/// iterator was asked once.
pub open spec fn round(rs: Seq<ClosestDisjointPeersIterView>, sts: Seq<IterStep>, now: Instant) -> bool {
    let n = rs[0].iters.len();
    let start = rs[0].last_queried;
    &&& rs.len() == sts.len() + 1
    &&& sts.len() <= n
    &&& forall|m: int| 0 <= m < sts.len() ==> #[trigger] asked(rs[m], (start + 1 + m) % (n as int), now, rs[m + 1], sts[m])
    &&& forall|m: int| 0 <= m < sts.len() - 1 ==> !(#[trigger] sts[m] matches IterStep::Waiting(Some(_)))
    &&& sts.len() < n ==> sts.len() > 0 && sts.last() matches IterStep::Waiting(Some(_))
}

/// The state `next` reports after the round with answers `sts`: the new
/// peer, if the last answer names one; else the answers combined, finished
/// where none waits.
pub open spec fn round_result(sts: Seq<IterStep>) -> IterStep {
    if sts.len() > 0 && sts.last() matches IterStep::Waiting(Some(_)) {
        sts.last()
    } else {
        match fold_steps(sts) {
            Some(s) => s,
            None => IterStep::Finished,
        }
    }
}

/// Every iterator index of the contacted peers is below `n`.
pub open spec fn indices_below(s: Seq<(Seq<u8>, ContactedView)>, n: nat) -> bool {
    forall|j: int| 0 <= j < s.len() ==> {
        &&& (#[trigger] s[j]).1.initiated_by < n
        &&& forall|a: int| 0 <= a < s[j].1.additionally_awaited_by.len() ==> #[trigger] s[j].1.additionally_awaited_by[a] < n
    }
}

/// The iterator at `j` was queried in a round that started after `start`
/// and has come to `i` (having wrapped past the end or not).
pub open spec fn visited_before(start: int, i: int, wrapped: bool, j: int) -> bool {
    if wrapped { j > start || j < i } else { start < j < i }
}

impl ClosestDisjointPeersIter {
    /// One iterator per unit of parallelism, each keeping its invariant;
    /// contacted peers recorded once each, with iterator indices in range.
    pub closed spec fn wf(&self) -> bool {
        &&& self.iters@.len() == self.config.parallelism
        &&& self.iters@.len() >= 1
        &&& self.config.num_results >= 1
        &&& self.last_queried < self.iters@.len()
        &&& forall|i: int| 0 <= i < self.iters@.len() ==> (#[trigger] self.iters@[i]).wf()
        &&& keys_unique(contacted_entries(self.contacted_peers@))
        &&& indices_below(contacted_entries(self.contacted_peers@), self.iters@.len())
    }

    /// Creates a new iterator with the given configuration: `parallelism`
    /// iterators, each starting from the first `K_VALUE` known peers.
    pub fn with_config(config: ClosestPeersIterConfig, target: KeyBytes, known_closest_peers: Vec<Key>) -> (r: Self)
        requires
            config.parallelism >= 1,
            config.num_results >= 1,
            config.disjoint_paths >= 1,
        ensures
            r.wf(),
            r@.config == config,
            r@.iters.len() == config.parallelism,
            r@.contacted == Map::<Seq<u8>, ContactedView>::empty(),
            r@.last_queried == config.parallelism - 1,
            forall|i: int| 0 <= i < r@.iters.len() ==> {
                let v = #[trigger] r@.iters[i];
                let peers = known_closest_peers@.take(
                    if known_closest_peers@.len() < K_VALUE { known_closest_peers@.len() as int } else { K_VALUE as int },
                );
                &&& v.config == config
                &&& v.target == target@
                &&& v.state == (State::Iterating { no_progress: 0 })
                &&& v.num_waiting == 0
                &&& v.peers == initial_peers(target@, key_pairs(peers).take(
                    if peers.len() < config.num_results { peers.len() as int } else { config.num_results as int },
                ))
            },
    {
        let mut peers = known_closest_peers;
        let ghost orig = peers@;
        peers.truncate(K_VALUE);
        let ghost taken = orig.take(if orig.len() < K_VALUE { orig.len() as int } else { K_VALUE as int });
        assert(peers@ == taken);
        let mut iters: Vec<ClosestPeersIter> = Vec::new();
        let mut i: usize = 0;
        while i < config.parallelism
            invariant
                peers@ == taken,
                iters@.len() == i,
                i <= config.parallelism,
                config.disjoint_paths >= 1,
                forall|j: int| 0 <= j < i ==> {
                    let v = (#[trigger] iters@[j])@;
                    &&& iters@[j].wf()
                    &&& v.config == config
                    &&& v.target == target@
                    &&& v.state == (State::Iterating { no_progress: 0 })
                    &&& v.num_waiting == 0
                    &&& v.peers == initial_peers(target@, key_pairs(taken).take(
                        if taken.len() < config.num_results { taken.len() as int } else { config.num_results as int },
                    ))
                },
            decreases config.parallelism - i,
        {
            let copy = copy_keys(&peers);
            iters.push(ClosestPeersIter::with_config(config, target, copy));
            i += 1;
        }
        let r = ClosestDisjointPeersIter {
            config,
            iters,
            contacted_peers: Vec::new(),
            last_queried: config.parallelism - 1,
        };
        assert(r@.contacted =~= Map::<Seq<u8>, ContactedView>::empty());
        assert forall|i: int| 0 <= i < r@.iters.len() implies #[trigger] r@.iters[i] == r.iters@[i]@ by {
        }
        r
    }

    /// Creates a new iterator with a default configuration.
    pub fn new(target: KeyBytes, known_closest_peers: Vec<Key>) -> (r: Self)
        ensures
            r.wf(),
            r@.iters.len() == crate::ALPHA_VALUE,
            r@.contacted == Map::<Seq<u8>, ContactedView>::empty(),
    {
        Self::with_config(ClosestPeersIterConfig::default(), target, known_closest_peers)
    }

    /// The record of a contacted peer, by position.
    fn contacted_position(&self, peer: &Vec<u8>) -> (r: Option<usize>)
        requires
            keys_unique(contacted_entries(self.contacted_peers@)),
        ensures
            match r {
                Some(j) => j < self.contacted_peers@.len() && self.contacted_peers@[j as int].0@ == peer@
                    && self@.contacted.contains_key(peer@) && self@.contacted[peer@] == self.contacted_peers@[j as int].1@,
                None => !self@.contacted.contains_key(peer@),
            },
    {
        let ghost cs = contacted_entries(self.contacted_peers@);
        let mut j: usize = 0;
        while j < self.contacted_peers.len()
            invariant
                keys_unique(cs),
                cs == contacted_entries(self.contacted_peers@),
                j <= cs.len(),
                forall|a: int| 0 <= a < j ==> cs[a].0 != peer@,
            decreases cs.len() - j,
        {
            if crate::addresses::same_bytes(&self.contacted_peers[j].0, peer) {
                proof {
                    assert(cs[j as int].0 == peer@);
                    lemma_keyed_index(cs, j as int);
                }
                return Some(j);
            }
            j += 1;
        }
        proof {
            lemma_keyed_absent(cs, peer@);
        }
        None
    }

    /// Sets the response of the contacted peer at position `j`.
    fn set_response(&mut self, j: usize, response: ResponseState)
        requires
            old(self).wf(),
            j < old(self).contacted_peers@.len(),
        ensures
            final(self).wf(),
            final(self)@ == (ClosestDisjointPeersIterView {
                contacted: old(self)@.contacted.insert(
                    old(self).contacted_peers@[j as int].0@,
                    ContactedView { response, ..old(self).contacted_peers@[j as int].1@ },
                ),
                ..old(self)@
            }),
            final(self).contacted_peers@.len() == old(self).contacted_peers@.len(),
            forall|a: int| 0 <= a < final(self).contacted_peers@.len() ==> (#[trigger] final(self).contacted_peers@[a]).0@
                == old(self).contacted_peers@[a].0@,
            final(self).contacted_peers@[j as int].1@ == (ContactedView { response, ..old(self).contacted_peers@[j as int].1@ }),
    {
        let ghost cs = contacted_entries(self.contacted_peers@);
        let ghost old_vec = self.contacted_peers@;
        let (peer, mut c) = self.contacted_peers.remove(j);
        c.response = response;
        self.contacted_peers.insert(j, (peer, c));
        proof {
            assert(self.contacted_peers@ =~= old_vec.update(j as int, (peer, c)));
            assert(contacted_entries(self.contacted_peers@) =~= cs.update(j as int, (cs[j as int].0, c@)));
            lemma_keyed_update(cs, j as int, c@);
            assert forall|a: int| 0 <= a < self.contacted_peers@.len() implies (#[trigger] self.contacted_peers@[a]).0@
                == old_vec[a].0@ by {
            }
        }
    }

    /// Delivers a failure of `i`-th iterators' request to `peer`.
    fn fail_at(&mut self, idxs: &Vec<usize>, peer: &Vec<u8>)
        requires
            old(self).wf(),
            forall|a: int| 0 <= a < idxs@.len() ==> #[trigger] idxs@[a] < old(self).iters@.len(),
        ensures
            final(self).wf(),
            final(self)@ == (ClosestDisjointPeersIterView { iters: fail_all(old(self)@.iters, idxs@, peer@), ..old(self)@ }),
            final(self).contacted_peers == old(self).contacted_peers,
    {
        let ghost start = self@;
        let mut k: usize = 0;
        assert(idxs@.take(0) =~= Seq::<usize>::empty());
        while k < idxs.len()
            invariant
                self.wf(),
                self.contacted_peers == old(self).contacted_peers,
                start == old(self)@,
                self.iters@.len() == start.iters.len(),
                forall|a: int| 0 <= a < idxs@.len() ==> #[trigger] idxs@[a] < start.iters.len(),
                k <= idxs@.len(),
                self@ == (ClosestDisjointPeersIterView { iters: fail_all(start.iters, idxs@.take(k as int), peer@), ..start }),
            decreases idxs@.len() - k,
        {
            let i = idxs[k];
            let ghost cur = self.iters@;
            assert(cur[i as int].wf());
            assert(iter_views(cur)[i as int] == cur[i as int]@);
            let mut it = self.iters.remove(i);
            it.on_failure(peer);
            self.iters.insert(i, it);
            proof {
                assert(self.iters@ =~= cur.update(i as int, it));
                assert forall|a: int| 0 <= a < self.iters@.len() implies (#[trigger] self.iters@[a]).wf() by {
                    if a != i {
                        assert(self.iters@[a] == cur[a]);
                    }
                }
                assert(idxs@.take(k + 1).drop_last() =~= idxs@.take(k as int));
                assert(iter_views(self.iters@) =~= iter_views(cur).update(i as int, it@));
            }
            k += 1;
        }
        assert(idxs@.take(idxs@.len() as int) =~= idxs@);
    }

    /// Delivers a success of the `i`-th iterators' request to `peer`,
    /// without closer peers.
    fn succeed_at(&mut self, idxs: &Vec<usize>, peer: &Vec<u8>)
        requires
            old(self).wf(),
            forall|a: int| 0 <= a < idxs@.len() ==> #[trigger] idxs@[a] < old(self).iters@.len(),
        ensures
            final(self).wf(),
            final(self)@ == (ClosestDisjointPeersIterView { iters: succeed_all(old(self)@.iters, idxs@, peer@), ..old(self)@ }),
            final(self).contacted_peers == old(self).contacted_peers,
    {
        let ghost start = self@;
        let mut k: usize = 0;
        assert(idxs@.take(0) =~= Seq::<usize>::empty());
        while k < idxs.len()
            invariant
                self.wf(),
                self.contacted_peers == old(self).contacted_peers,
                start == old(self)@,
                self.iters@.len() == start.iters.len(),
                forall|a: int| 0 <= a < idxs@.len() ==> #[trigger] idxs@[a] < start.iters.len(),
                k <= idxs@.len(),
                self@ == (ClosestDisjointPeersIterView { iters: succeed_all(start.iters, idxs@.take(k as int), peer@), ..start }),
            decreases idxs@.len() - k,
        {
            let i = idxs[k];
            let ghost cur = self.iters@;
            assert(cur[i as int].wf());
            assert(iter_views(cur)[i as int] == cur[i as int]@);
            let mut it = self.iters.remove(i);
            let none: Vec<Vec<u8>> = Vec::new();
            assert(reported_pairs(none@) =~= Seq::empty());
            it.on_success(peer, none);
            self.iters.insert(i, it);
            proof {
                assert(self.iters@ =~= cur.update(i as int, it));
                assert forall|a: int| 0 <= a < self.iters@.len() implies (#[trigger] self.iters@[a]).wf() by {
                    if a != i {
                        assert(self.iters@[a] == cur[a]);
                    }
                }
                assert(idxs@.take(k + 1).drop_last() =~= idxs@.take(k as int));
                assert(iter_views(self.iters@) =~= iter_views(cur).update(i as int, it@));
            }
            k += 1;
        }
        assert(idxs@.take(idxs@.len() as int) =~= idxs@);
    }

    /// The iterators that awaited the contacted peer at position `j`.
    fn awaiting_at(&self, j: usize) -> (r: Vec<usize>)
        requires
            j < self.contacted_peers@.len(),
        ensures
            r@ == awaiting(self.contacted_peers@[j as int].1@),
    {
        let c = &self.contacted_peers[j].1;
        let mut r: Vec<usize> = Vec::new();
        r.push(c.initiated_by);
        let mut a: usize = 0;
        while a < c.additionally_awaited_by.len()
            invariant
                r@ == seq![c.initiated_by] + c.additionally_awaited_by@.take(a as int),
                a <= c.additionally_awaited_by@.len(),
            decreases c.additionally_awaited_by@.len() - a,
        {
            r.push(c.additionally_awaited_by[a]);
            a += 1;
            assert(r@ =~= seq![c.initiated_by] + c.additionally_awaited_by@.take(a as int));
        }
        assert(c.additionally_awaited_by@.take(a as int) =~= c.additionally_awaited_by@);
        r
    }

    /// Delivers a failed request to `peer` to every iterator that awaited
    /// it. Failures of peers no iterator contacted are ignored.
    pub fn on_failure(&mut self, peer: &Vec<u8>)
        requires
            old(self).wf(),
        ensures
            final(self).wf(),
            !old(self)@.contacted.contains_key(peer@) ==> final(self)@ == old(self)@,
            old(self)@.contacted.contains_key(peer@) ==> final(self)@ == (ClosestDisjointPeersIterView {
                contacted: old(self)@.contacted.insert(
                    peer@,
                    ContactedView { response: ResponseState::Failed, ..old(self)@.contacted[peer@] },
                ),
                iters: fail_all(old(self)@.iters, awaiting(old(self)@.contacted[peer@]), peer@),
                ..old(self)@
            }),
    {
        match self.contacted_position(peer) {
            None => {},
            Some(j) => {
                let ghost cs = contacted_entries(self.contacted_peers@);
                proof {
                    assert(cs[j as int].1 == self.contacted_peers@[j as int].1@);
                }
                self.set_response(j, ResponseState::Failed);
                let idxs = self.awaiting_at(j);
                proof {
                    assert(cs[j as int] == contacted_entries(old(self).contacted_peers@)[j as int]);
                    assert forall|a: int| 0 <= a < idxs@.len() implies #[trigger] idxs@[a] < self.iters@.len() by {
                        assert(contacted_entries(old(self).contacted_peers@)[j as int].1 == old(self).contacted_peers@[j as int].1@);
                        if a > 0 {
                            assert(idxs@[a] == old(self).contacted_peers@[j as int].1@.additionally_awaited_by[a - 1]);
                        }
                    }
                }
                self.fail_at(&idxs, peer);
            },
        }
    }

    /// Delivers the result of `peer` to the iterators that awaited it: the
    /// closer peers go to the first of them only, to keep the paths
    /// disjoint. Results of peers no iterator contacted are ignored.
    pub fn on_success(&mut self, peer: &Vec<u8>, closer_peers: Vec<Vec<u8>>)
        requires
            old(self).wf(),
        ensures
            final(self).wf(),
            !old(self)@.contacted.contains_key(peer@) ==> final(self)@ == old(self)@,
            old(self)@.contacted.contains_key(peer@) ==> {
                let c = old(self)@.contacted[peer@];
                let first = old(self)@.iters.update(
                    c.initiated_by as int,
                    old(self)@.iters[c.initiated_by as int].after_success(peer@, reported_pairs(closer_peers@)),
                );
                final(self)@ == (ClosestDisjointPeersIterView {
                    contacted: old(self)@.contacted.insert(peer@, ContactedView { response: ResponseState::Succeeded, ..c }),
                    iters: succeed_all(first, c.additionally_awaited_by, peer@),
                    ..old(self)@
                })
            },
    {
        match self.contacted_position(peer) {
            None => {},
            Some(j) => {
                proof {
                    assert(contacted_entries(self.contacted_peers@)[j as int].1 == self.contacted_peers@[j as int].1@);
                }
                self.set_response(j, ResponseState::Succeeded);
                let ghost c = self.contacted_peers@[j as int].1@;
                let i = self.contacted_peers[j].1.initiated_by;
                let ghost cur = self.iters@;
                assert(cur[i as int].wf());
                assert(iter_views(cur)[i as int] == cur[i as int]@);
                let mut it = self.iters.remove(i);
                it.on_success(peer, closer_peers);
                self.iters.insert(i, it);
                proof {
                    assert(self.iters@ =~= cur.update(i as int, it));
                    assert forall|a: int| 0 <= a < self.iters@.len() implies (#[trigger] self.iters@[a]).wf() by {
                        if a != i {
                            assert(self.iters@[a] == cur[a]);
                        }
                    }
                    assert(iter_views(self.iters@) =~= iter_views(cur).update(i as int, it@));
                }
                let others = self.awaiting_at(j);
                let mut rest: Vec<usize> = Vec::new();
                let mut a: usize = 1;
                while a < others.len()
                    invariant
                        others@ == awaiting(c),
                        1 <= a <= others@.len(),
                        rest@ == c.additionally_awaited_by.take(a - 1),
                    decreases others@.len() - a,
                {
                    rest.push(others[a]);
                    a += 1;
                    assert(rest@ =~= c.additionally_awaited_by.take(a - 1));
                }
                assert(rest@ =~= c.additionally_awaited_by);
                proof {
                    assert forall|b: int| 0 <= b < rest@.len() implies #[trigger] rest@[b] < self.iters@.len() by {
                        assert(contacted_entries(self.contacted_peers@)[j as int].1 == self.contacted_peers@[j as int].1@);
                    }
                }
                self.succeed_at(&rest, peer);
            },
        }
    }

    /// Whether some iterator that contacted `peer` waits for it.
    pub fn is_waiting(&self, peer: &Vec<u8>) -> (r: bool)
        requires
            self.wf(),
        ensures
            r == (self@.contacted.contains_key(peer@) && exists|a: int|
                0 <= a < awaiting(self@.contacted[peer@]).len() && waiting_ids(
                    self@.iters[#[trigger] awaiting(self@.contacted[peer@])[a] as int].peers,
                ).contains(peer@)),
    {
        match self.contacted_position(peer) {
            None => false,
            Some(j) => {
                let idxs = self.awaiting_at(j);
                let ghost w = awaiting(self@.contacted[peer@]);
                assert(idxs@ == w);
                let mut found = false;
                let mut a: usize = 0;
                while a < idxs.len()
                    invariant
                        self.wf(),
                        idxs@ == w,
                        w == awaiting(self@.contacted[peer@]),
                        self@.contacted.contains_key(peer@),
                        j < self.contacted_peers@.len(),
                        self@.contacted[peer@] == self.contacted_peers@[j as int].1@,
                        a <= idxs@.len(),
                        found == exists|b: int| 0 <= b < a && waiting_ids(self@.iters[#[trigger] w[b] as int].peers).contains(peer@),
                    decreases idxs@.len() - a,
                {
                    let i = idxs[a];
                    proof {
                        assert(contacted_entries(self.contacted_peers@)[j as int].1 == self.contacted_peers@[j as int].1@);
                        if a > 0 {
                            assert(w[a as int] == self.contacted_peers@[j as int].1@.additionally_awaited_by[a - 1]);
                        }
                    }
                    assert(self.iters@[i as int]@ == self@.iters[i as int]);
                    let wt = self.iters[i].is_waiting(peer);
                    found = found || wt;
                    a += 1;
                }
                found
            },
        }
    }

    /// Immediately finishes every iterator.
    pub fn finish(&mut self)
        requires
            old(self).wf(),
        ensures
            final(self).wf(),
            final(self)@.contacted == old(self)@.contacted,
            final(self)@.config == old(self)@.config,
            final(self)@.iters.len() == old(self)@.iters.len(),
            forall|i: int| 0 <= i < final(self)@.iters.len() ==> #[trigger] final(self)@.iters[i] == (ClosestPeersIterView {
                state: State::Finished,
                ..old(self)@.iters[i]
            }),
    {
        let ghost before = self@;
        let n = self.iters.len();
        let mut i: usize = 0;
        while i < n
            invariant
                self.wf(),
                n == self.iters@.len(),
                self@.contacted == before.contacted,
                self@.config == before.config,
                self@.last_queried == before.last_queried,
                i <= n,
                before.iters.len() == n,
                forall|j: int| 0 <= j < i ==> #[trigger] self@.iters[j] == (ClosestPeersIterView {
                    state: State::Finished,
                    ..before.iters[j]
                }),
                forall|j: int| i <= j < n ==> #[trigger] self@.iters[j] == before.iters[j],
            decreases n - i,
        {
            let ghost cur = self.iters@;
            assert(cur[i as int].wf());
            assert forall|j: int| 0 <= j < n implies #[trigger] iter_views(cur)[j] == self@.iters[j] by {
            }
            let mut it = self.iters.remove(i);
            it.finish();
            self.iters.insert(i, it);
            proof {
                assert(self.iters@ =~= cur.update(i as int, it));
                assert forall|j: int| 0 <= j < n implies (#[trigger] self.iters@[j]).wf() by {
                    if j != i {
                        assert(self.iters@[j] == cur[j]);
                    }
                }
                assert(iter_views(self.iters@) =~= iter_views(cur).update(i as int, it@));
                assert(iter_views(cur)[i as int] == before.iters[i as int]);
                assert forall|j: int| 0 <= j < i + 1 implies #[trigger] self@.iters[j] == (ClosestPeersIterView {
                    state: State::Finished,
                    ..before.iters[j]
                }) by {
                    if j < i {
                        assert(self@.iters[j] == iter_views(cur)[j]);
                    }
                }
                assert forall|j: int| i + 1 <= j < n implies #[trigger] self@.iters[j] == before.iters[j] by {
                    assert(self@.iters[j] == iter_views(cur)[j]);
                }
            }
            i += 1;
        }
    }

    /// Asks the `i`-th iterator for a peer to contact, until it yields
    /// one that no iterator contacted yet (handed back) or has none; `state`
    /// is what the iterators asked so far tells.
    fn query_iter(&mut self, i: usize, now: Instant, state_in: Option<PeersIterState>) -> (r: (Option<PeersIterState>, Option<Vec<u8>>))
        requires
            old(self).wf(),
            i < old(self)@.iters.len(),
            !(state_in matches Some(PeersIterState::Waiting(Some(_)))),
            !(state_in matches Some(PeersIterState::Finished)),
        ensures
            final(self).wf(),
            final(self)@.config == old(self)@.config,
            final(self)@.last_queried == i,
            final(self)@.iters.len() == old(self)@.iters.len(),
            forall|j: int| 0 <= j < old(self)@.iters.len() ==> (#[trigger] final(self)@.iters[j]).config == old(self)@.iters[j].config,
            forall|j: int| 0 <= j < old(self)@.iters.len() && j != i ==> #[trigger] final(self)@.iters[j] == old(self)@.iters[j],
            forall|k: Seq<u8>| #[trigger] old(self)@.contacted.contains_key(k) ==> {
                &&& final(self)@.contacted.contains_key(k)
                &&& final(self)@.contacted[k].initiated_by == old(self)@.contacted[k].initiated_by
                &&& final(self)@.contacted[k].response == old(self)@.contacted[k].response
                &&& old(self)@.contacted[k].additionally_awaited_by.is_prefix_of(final(self)@.contacted[k].additionally_awaited_by)
            },
            match r.1 {
                Some(p) => {
                    &&& !old(self)@.contacted.contains_key(p@)
                    &&& final(self)@.contacted.contains_key(p@)
                    &&& final(self)@.contacted[p@] == (ContactedView {
                        initiated_by: i,
                        additionally_awaited_by: Seq::empty(),
                        response: ResponseState::Waiting,
                    })
                    &&& forall|k: Seq<u8>| #[trigger] final(self)@.contacted.contains_key(k) ==> old(self)@.contacted.contains_key(k) || k == p@
                },
                None => forall|k: Seq<u8>| #[trigger] final(self)@.contacted.contains_key(k) ==> old(self)@.contacted.contains_key(k),
            },
            !(r.0 matches Some(PeersIterState::Waiting(Some(_)))),
            !(r.0 matches Some(PeersIterState::Finished)),
            r.1 is None && r.0 is None ==> state_in is None && final(self)@.iters[i as int].state == State::Finished,
            r.1 is Some ==> final(self)@.iters[i as int].state != State::Finished,
            (r.1 is None && (r.0 matches Some(PeersIterState::Waiting(None)))) ==>
                ((state_in matches Some(PeersIterState::Waiting(None))) || busy(final(self)@.iters[i as int])),
            (r.1 is None && (r.0 matches Some(PeersIterState::WaitingAtCapacity))) ==>
                ((state_in matches Some(PeersIterState::WaitingAtCapacity)) || final(self)@.iters[i as int].state != State::Finished),
            exists|vs: Seq<ClosestDisjointPeersIterView>, step: IterStep| #[trigger] ask_chain(vs, i as int, now, step)
                && vs[0] == old(self)@ && vs.last() == final(self)@ && match r.1 {
                    Some(p) => step == IterStep::Waiting(Some(p@)) && r.0 == state_in,
                    None => !(step matches IterStep::Waiting(Some(_))) && opt_step(r.0) == combined(opt_step(state_in), step),
                },
    {
        let ghost before = self@;
        let n = self.iters.len();
        let mut state = state_in;
        let ghost was_none = state is None;
        self.last_queried = i;
        let ghost cur = self.iters@;
        assert(cur[i as int].wf());
        assert(self@.iters == before.iters);
        assert forall|j: int| 0 <= j < n implies #[trigger] cur[j]@ == before.iters[j] by {
            assert(iter_views(cur)[j] == cur[j]@);
        }
        let ghost contacted_start = self@.contacted;
        assert(contacted_start == before.contacted);
        let mut it = self.iters.remove(i);
        let ghost rest = self.iters@;
        assert(rest =~= cur.remove(i as int));
        let ghost contacted0 = self@.contacted;
        let ghost mut vs: Seq<ClosestDisjointPeersIterView> = seq![before];
        let ghost mut last: IterStep = IterStep::Finished;
        proof {
            assert(before.iters.update(i as int, cur[i as int]@) =~= before.iters);
        }
        loop
            invariant_except_break
                state == state_in,
                forall|j: int| 0 <= j < vs.len() - 1 ==> #[trigger] ask_once(vs[j], i as int, now) == (vs[j + 1], None::<IterStep>),
                vs.last().iters == before.iters.update(i as int, it@),
                vs.last().contacted == self@.contacted,
                vs.last().config == before.config,
            invariant
                vs.len() >= 1,
                vs[0] == before,
                before == old(self)@,
                it.wf(),
                it@.config == cur[i as int]@.config,
                self.iters@ == rest,
                rest == cur.remove(i as int),
                cur.len() == n,
                n == before.iters.len(),
                i < n,
                self.last_queried == i,
                self.config == before.config,
                self.config.parallelism == n,
                self.config.num_results >= 1,
                forall|j: int| 0 <= j < n ==> (#[trigger] cur[j]).wf(),
                forall|j: int| 0 <= j < n ==> #[trigger] cur[j]@ == before.iters[j],
                keys_unique(contacted_entries(self.contacted_peers@)),
                indices_below(contacted_entries(self.contacted_peers@), n as nat),
                forall|k: Seq<u8>| #[trigger] before.contacted.contains_key(k) ==> {
                    &&& self@.contacted.contains_key(k)
                    &&& self@.contacted[k].initiated_by == before.contacted[k].initiated_by
                    &&& self@.contacted[k].response == before.contacted[k].response
                    &&& before.contacted[k].additionally_awaited_by.is_prefix_of(self@.contacted[k].additionally_awaited_by)
                },
                forall|k: Seq<u8>| #[trigger] self@.contacted.contains_key(k) ==> before.contacted.contains_key(k),
                !(state matches Some(PeersIterState::Waiting(Some(_)))),
                !(state matches Some(PeersIterState::Finished)),
                state is None ==> was_none,
            ensures
                before == old(self)@,
                it.wf(),
                it@.config == cur[i as int]@.config,
                self.iters@ == rest,
                self.last_queried == i,
                self.config == before.config,
                keys_unique(contacted_entries(self.contacted_peers@)),
                indices_below(contacted_entries(self.contacted_peers@), n as nat),
                forall|k: Seq<u8>| #[trigger] before.contacted.contains_key(k) ==> {
                    &&& self@.contacted.contains_key(k)
                    &&& self@.contacted[k].initiated_by == before.contacted[k].initiated_by
                    &&& self@.contacted[k].response == before.contacted[k].response
                    &&& before.contacted[k].additionally_awaited_by.is_prefix_of(self@.contacted[k].additionally_awaited_by)
                },
                forall|k: Seq<u8>| #[trigger] self@.contacted.contains_key(k) ==> before.contacted.contains_key(k),
                !(state matches Some(PeersIterState::Waiting(Some(_)))),
                !(state matches Some(PeersIterState::Finished)),
                state is None ==> was_none,
                ask_chain(vs, i as int, now, last),
                !(last matches IterStep::Waiting(Some(_))),
                vs.last() == (ClosestDisjointPeersIterView {
                    config: before.config,
                    iters: before.iters.update(i as int, it@),
                    contacted: self@.contacted,
                    last_queried: i,
                }),
                opt_step(state) == combined(opt_step(state_in), last),
                state is None ==> it@.state == State::Finished,
                (state matches Some(PeersIterState::Waiting(None))) ==>
                    ((state_in matches Some(PeersIterState::Waiting(None))) || busy(it@)),
                (state matches Some(PeersIterState::WaitingAtCapacity)) ==>
                    ((state_in matches Some(PeersIterState::WaitingAtCapacity)) || it@.state != State::Finished),
            decreases count_not_contacted(it@.peers),
        {
            let ghost pre = it@;
            proof {
                it.lemma_inv();
            }
            let ghost v0 = vs.last();
            let step = it.next(now);
            let ghost expired = expired_at(pre.peers, now);
            let ghost deadline = instant_plus(now, pre.config.peer_timeout);
            proof {
                pre.lemma_contact_progress(expired, deadline, Seq::empty());
                crate::query::peers::closest::lemma_step_state(pre, expired, deadline);
            }
            match step {
                PeersIterState::Waiting(None) => {
                    state = Some(PeersIterState::Waiting(None));
                    proof {
                        let nv = ClosestDisjointPeersIterView {
                            config: before.config,
                            iters: before.iters.update(i as int, it@),
                            contacted: self@.contacted,
                            last_queried: i,
                        };
                        assert(v0.iters.update(i as int, it@) =~= before.iters.update(i as int, it@));
                        assert(ask_once(v0, i as int, now) == (nv, Some(step@)));
                        vs = vs.push(nv);
                        last = step@;
                    }
                    break;
                },
                PeersIterState::Waiting(Some(peer)) => {
                    match self.contacted_position(&peer) {
                        Some(j) => {
                            let ghost mid = it@;
                            let ghost cs = contacted_entries(self.contacted_peers@);
                            let response = self.contacted_peers[j].1.response;
                            proof {
                                assert(cs[j as int].1 == self.contacted_peers@[j as int].1@);
                                lemma_keyed_index(cs, j as int);
                            }
                            await_also(&mut self.contacted_peers, j, i);
                            proof {
                                let cs2 = contacted_entries(self.contacted_peers@);
                                assert forall|x: int| 0 <= x < cs2.len() implies {
                                    &&& (#[trigger] cs2[x]).1.initiated_by < n
                                    &&& forall|a: int| 0 <= a < cs2[x].1.additionally_awaited_by.len() ==> #[trigger] cs2[x].1.additionally_awaited_by[a] < n
                                } by {
                                    if x != j {
                                        assert(cs2[x] == cs[x]);
                                    } else {
                                        assert forall|a: int| 0 <= a < cs2[x].1.additionally_awaited_by.len() implies #[trigger] cs2[x].1.additionally_awaited_by[a] < n by {
                                            if a < cs[x].1.additionally_awaited_by.len() {
                                                assert(cs2[x].1.additionally_awaited_by[a] == cs[x].1.additionally_awaited_by[a]);
                                            }
                                        }
                                    }
                                }
                                assert forall|k: Seq<u8>| #[trigger] before.contacted.contains_key(k) implies
                                    before.contacted[k].additionally_awaited_by.is_prefix_of(self@.contacted[k].additionally_awaited_by) by {
                                    if k == peer@ {
                                        let old_aw = keyed_map(cs)[k].additionally_awaited_by;
                                        assert(before.contacted[k].additionally_awaited_by.is_prefix_of(old_aw));
                                        assert(old_aw.is_prefix_of(old_aw.push(i)));
                                    }
                                }
                                mid.lemma_contact_progress(Seq::new(mid.peers.len(), |a: int| false), None, peer@);
                            }
                            match response {
                                ResponseState::Waiting => {},
                                ResponseState::Succeeded => {
                                    let none: Vec<Vec<u8>> = Vec::new();
                                    assert(reported_pairs(none@) =~= Seq::empty());
                                    it.on_success(&peer, none);
                                },
                                ResponseState::Failed => {
                                    it.on_failure(&peer);
                                },
                            }
                            proof {
                                let nv = ClosestDisjointPeersIterView {
                                    config: before.config,
                                    iters: before.iters.update(i as int, it@),
                                    contacted: self@.contacted,
                                    last_queried: i,
                                };
                                assert(v0.iters.update(i as int, it@) =~= before.iters.update(i as int, it@));
                                assert(v0.contacted.contains_key(peer@));
                                assert(ask_once(v0, i as int, now) == (nv, None::<IterStep>));
                                let old_vs = vs;
                                vs = vs.push(nv);
                                assert forall|x: int| 0 <= x < vs.len() - 1 implies #[trigger] ask_once(vs[x], i as int, now) == (vs[x + 1], None::<IterStep>) by {
                                    if x < old_vs.len() - 1 {
                                        assert(vs[x] == old_vs[x] && vs[x + 1] == old_vs[x + 1]);
                                    }
                                }
                            }
                        },
                        None => {
                            let ghost cs = contacted_entries(self.contacted_peers@);
                            proof {
                                assert forall|a: int| 0 <= a < cs.len() implies cs[a].0 != peer@ by {
                                    if cs[a].0 == peer@ {
                                        lemma_keyed_index(cs, a);
                                    }
                                }
                            }
                            let copy = crate::record::copy_bytes(&peer);
                            let c = ContactedPeer { initiated_by: i, additionally_awaited_by: Vec::new(), response: ResponseState::Waiting };
                            assert(c@.additionally_awaited_by =~= Seq::<usize>::empty());
                            proof {
                                lemma_keyed_push(cs, peer@, c@);
                            }
                            let ghost old_vec = self.contacted_peers@;
                            self.contacted_peers.push((copy, c));
                            assert(contacted_entries(self.contacted_peers@) =~= cs.push((peer@, c@)));
                            self.iters.insert(i, it);
                            proof {
                                assert(self.iters@ =~= cur.update(i as int, it));
                                assert forall|j: int| 0 <= j < n implies (#[trigger] self.iters@[j]).wf() by {
                                    if j != i {
                                        assert(self.iters@[j] == cur[j]);
                                    }
                                }
                                assert forall|j: int| 0 <= j < n implies (#[trigger] self@.iters[j]).config == before.iters[j].config by {
                                    if j != i {
                                        assert(self.iters@[j] == cur[j]);
                                    }
                                }
                                let cs2 = contacted_entries(self.contacted_peers@);
                                assert forall|x: int| 0 <= x < cs2.len() implies {
                                    &&& (#[trigger] cs2[x]).1.initiated_by < n
                                    &&& forall|a: int| 0 <= a < cs2[x].1.additionally_awaited_by.len() ==> #[trigger] cs2[x].1.additionally_awaited_by[a] < n
                                } by {
                                    if x < cs.len() {
                                        assert(cs2[x] == cs[x]);
                                    }
                                }
                                lemma_keyed_index(cs2, cs.len() as int);
                                assert(iter_views(self.iters@).len() == n);
                                assert(self@.iters[i as int] == it@);
                            }
                            proof {
                                assert(self@.iters =~= before.iters.update(i as int, it@));
                                assert(v0.iters.update(i as int, it@) =~= before.iters.update(i as int, it@));
                                assert(!v0.contacted.contains_key(peer@));
                                assert(ask_once(v0, i as int, now) == (self@, Some(step@)));
                                let old_vs = vs;
                                vs = vs.push(self@);
                                assert forall|x: int| 0 <= x < vs.len() - 2 implies #[trigger] ask_once(vs[x], i as int, now) == (vs[x + 1], None::<IterStep>) by {
                                    assert(vs[x] == old_vs[x] && vs[x + 1] == old_vs[x + 1]);
                                }
                                assert(ask_chain(vs, i as int, now, step@));
                            }
                            return (state, Some(peer));
                        },
                    }
                },
                PeersIterState::WaitingAtCapacity => {
                    if state.is_none() {
                        state = Some(PeersIterState::WaitingAtCapacity);
                    }
                    proof {
                        let nv = ClosestDisjointPeersIterView {
                            config: before.config,
                            iters: before.iters.update(i as int, it@),
                            contacted: self@.contacted,
                            last_queried: i,
                        };
                        assert(v0.iters.update(i as int, it@) =~= before.iters.update(i as int, it@));
                        assert(ask_once(v0, i as int, now) == (nv, Some(step@)));
                        vs = vs.push(nv);
                        last = step@;
                    }
                    break;
                },
                PeersIterState::Finished => {
                    proof {
                        let nv = ClosestDisjointPeersIterView {
                            config: before.config,
                            iters: before.iters.update(i as int, it@),
                            contacted: self@.contacted,
                            last_queried: i,
                        };
                        assert(v0.iters.update(i as int, it@) =~= before.iters.update(i as int, it@));
                        assert(ask_once(v0, i as int, now) == (nv, Some(step@)));
                        vs = vs.push(nv);
                        last = step@;
                    }
                    break;
                },
            }
        }
        let ghost contacted_end = self@.contacted;
        self.iters.insert(i, it);
        proof {
            assert(self@.contacted == contacted_end);
            assert(self.iters@ =~= cur.update(i as int, it));
            assert forall|j: int| 0 <= j < n implies (#[trigger] self.iters@[j]).wf() by {
                if j != i {
                    assert(self.iters@[j] == cur[j]);
                }
            }
            assert forall|j: int| 0 <= j < n implies (#[trigger] self@.iters[j]).config == before.iters[j].config by {
                if j != i {
                    assert(self.iters@[j] == cur[j]);
                }
            }
            assert(self@.iters[i as int] == it@);
            assert(self@.iters =~= before.iters.update(i as int, it@));
            assert(self@ == vs.last());
            assert(ask_chain(vs, i as int, now, last) && vs[0] == old(self)@ && vs.last() == self@);
        }
        (state, None)
    }

    /// Asks the iterators in turn, from the one after the iterator queried
    /// last, for a peer to contact: the first peer no iterator contacted
    /// yet is returned. A peer another iterator contacted is awaited by
    /// this one too, and told to it at once if its outcome is known.
    /// Without such a peer, the iterator waits if some iterator waits, is
    /// at capacity if some iterator is, and is finished when all are.
    pub fn next(&mut self, now: Instant) -> (r: PeersIterState)
        requires
            old(self).wf(),
        ensures
            final(self).wf(),
            final(self)@.config == old(self)@.config,
            final(self)@.iters.len() == old(self)@.iters.len(),
            forall|i: int| 0 <= i < old(self)@.iters.len() ==> (#[trigger] final(self)@.iters[i]).config == old(self)@.iters[i].config,
            forall|k: Seq<u8>| #[trigger] old(self)@.contacted.contains_key(k) ==> {
                &&& final(self)@.contacted.contains_key(k)
                &&& final(self)@.contacted[k].initiated_by == old(self)@.contacted[k].initiated_by
                &&& final(self)@.contacted[k].response == old(self)@.contacted[k].response
                &&& old(self)@.contacted[k].additionally_awaited_by.is_prefix_of(final(self)@.contacted[k].additionally_awaited_by)
            },
            match r {
                PeersIterState::Waiting(Some(p)) => {
                    &&& !old(self)@.contacted.contains_key(p@)
                    &&& final(self)@.contacted.contains_key(p@)
                    &&& final(self)@.contacted[p@] == (ContactedView {
                        initiated_by: final(self)@.last_queried,
                        additionally_awaited_by: Seq::empty(),
                        response: ResponseState::Waiting,
                    })
                    &&& forall|k: Seq<u8>| #[trigger] final(self)@.contacted.contains_key(k) ==> old(self)@.contacted.contains_key(k) || k == p@
                },
                _ => forall|k: Seq<u8>| #[trigger] final(self)@.contacted.contains_key(k) ==> old(self)@.contacted.contains_key(k),
            },
            (r is Finished) == (forall|i: int| 0 <= i < final(self)@.iters.len() ==> (#[trigger] final(self)@.iters[i]).state == State::Finished),
            (r matches PeersIterState::Waiting(None)) ==> exists|i: int| 0 <= i < final(self)@.iters.len() && #[trigger] busy(final(self)@.iters[i]),
            r is WaitingAtCapacity ==> exists|i: int| 0 <= i < final(self)@.iters.len() && (#[trigger] final(self)@.iters[i]).state != State::Finished,
            exists|rs: Seq<ClosestDisjointPeersIterView>, sts: Seq<IterStep>| #[trigger] round(rs, sts, now)
                && rs[0] == old(self)@ && rs.last() == final(self)@ && r@ == round_result(sts),
    {
        let ghost before = self@;
        let n = self.iters.len();
        let start = self.last_queried;
        let mut state: Option<PeersIterState> = None;
        let mut i: usize = start + 1;
        let mut wrapped = false;
        let mut count: usize = 0;
        let ghost mut rs: Seq<ClosestDisjointPeersIterView> = seq![before];
        let ghost mut sts: Seq<IterStep> = Seq::empty();
        while count < n
            invariant
                rs.len() == sts.len() + 1,
                sts.len() == count,
                rs[0] == before,
                rs.last() == self@,
                before.last_queried == start,
                forall|m: int| 0 <= m < sts.len() ==> #[trigger] asked(rs[m], (start + 1 + m) % (n as int), now, rs[m + 1], sts[m]),
                forall|m: int| 0 <= m < sts.len() ==> !(#[trigger] sts[m] matches IterStep::Waiting(Some(_))),
                opt_step(state) == fold_steps(sts),
                self.wf(),
                before == old(self)@,
                n == self@.iters.len(),
                n == before.iters.len(),
                start < n,
                self@.config == before.config,
                count <= n,
                !wrapped ==> i == start + 1 + count,
                wrapped ==> i + n == start + 1 + count,
                i <= n,
                count < n ==> (i < n || !wrapped),
                forall|j: int| 0 <= j < n ==> (#[trigger] self@.iters[j]).config == before.iters[j].config,
                forall|k: Seq<u8>| #[trigger] before.contacted.contains_key(k) ==> {
                    &&& self@.contacted.contains_key(k)
                    &&& self@.contacted[k].initiated_by == before.contacted[k].initiated_by
                    &&& self@.contacted[k].response == before.contacted[k].response
                    &&& before.contacted[k].additionally_awaited_by.is_prefix_of(self@.contacted[k].additionally_awaited_by)
                },
                forall|k: Seq<u8>| #[trigger] self@.contacted.contains_key(k) ==> before.contacted.contains_key(k),
                !(state matches Some(PeersIterState::Waiting(Some(_)))),
                !(state matches Some(PeersIterState::Finished)),
                state is None ==> forall|j: int| 0 <= j < n && (if wrapped { j > start || j < i } else { start < j < i }) ==> (#[trigger] self@.iters[j]).state == State::Finished,
                (state matches Some(PeersIterState::Waiting(None))) ==> exists|j: int| 0 <= j < n && visited_before(start as int, i as int, wrapped, j) && #[trigger] busy(self@.iters[j]),
                (state matches Some(PeersIterState::WaitingAtCapacity)) ==> exists|j: int| 0 <= j < n && visited_before(start as int, i as int, wrapped, j) && (#[trigger] self@.iters[j]).state != State::Finished,
            decreases n - count,
        {
            if i == n {
                i = 0;
                wrapped = true;
            }
            let ghost prev = self@;
            let ghost prev_state = state;
            proof {
                if state matches Some(PeersIterState::Waiting(None)) {
                    let j = choose|j: int| 0 <= j < n && visited_before(start as int, i as int, wrapped, j) && #[trigger] busy(self@.iters[j]);
                    assert(j != i);
                }
                if state matches Some(PeersIterState::WaitingAtCapacity) {
                    let j = choose|j: int| 0 <= j < n && visited_before(start as int, i as int, wrapped, j) && (#[trigger] self@.iters[j]).state != State::Finished;
                    assert(j != i);
                }
            }
            let ghost pre_state = state;
            let ghost pre_view = self@;
            proof {
                if wrapped {
                    assert((i + n) % (n as int) == i) by (nonlinear_arith)
                        requires 0 <= i < n;
                } else {
                    assert((i as int) % (n as int) == i) by (nonlinear_arith)
                        requires 0 <= i < n;
                }
                assert((start + 1 + count) % (n as int) == i);
            }
            let (st, peer) = self.query_iter(i, now, state);
            state = st;
            let ghost (wvs, step) = choose|vs: Seq<ClosestDisjointPeersIterView>, step: IterStep| #[trigger] ask_chain(vs, i as int, now, step)
                && vs[0] == pre_view && vs.last() == self@ && match peer {
                    Some(p) => step == IterStep::Waiting(Some(p@)) && st == pre_state,
                    None => !(step matches IterStep::Waiting(Some(_))) && opt_step(st) == combined(opt_step(pre_state), step),
                };
            proof {
                assert(asked(pre_view, (start + 1 + count) % (n as int), now, self@, step));
                let old_rs = rs;
                let old_sts = sts;
                rs = rs.push(self@);
                sts = sts.push(step);
                assert forall|m: int| 0 <= m < sts.len() implies #[trigger] asked(rs[m], (start + 1 + m) % (n as int), now, rs[m + 1], sts[m]) by {
                    if m < old_sts.len() {
                        assert(rs[m] == old_rs[m] && rs[m + 1] == old_rs[m + 1] && sts[m] == old_sts[m]);
                    }
                }
                assert(sts.drop_last() =~= old_sts);
            }
            match peer {
                Some(p) => {
                    assert(self@.iters[i as int].state != State::Finished);
                    proof {
                        assert(round(rs, sts, now));
                    }
                    return PeersIterState::Waiting(Some(p));
                },
                None => {},
            }
            proof {
                if state matches Some(PeersIterState::Waiting(None)) {
                    if prev_state matches Some(PeersIterState::Waiting(None)) {
                        let j = choose|j: int| 0 <= j < n && visited_before(start as int, i as int, wrapped, j) && #[trigger] busy(prev.iters[j]);
                        assert(self@.iters[j] == prev.iters[j]);
                        assert(visited_before(start as int, i + 1, wrapped, j));
                    } else {
                        assert(busy(self@.iters[i as int]));
                        assert(visited_before(start as int, i + 1, wrapped, i as int));
                    }
                }
                if state matches Some(PeersIterState::WaitingAtCapacity) {
                    if prev_state matches Some(PeersIterState::WaitingAtCapacity) {
                        let j = choose|j: int| 0 <= j < n && visited_before(start as int, i as int, wrapped, j) && (#[trigger] prev.iters[j]).state != State::Finished;
                        assert(self@.iters[j] == prev.iters[j]);
                        assert(visited_before(start as int, i + 1, wrapped, j));
                    } else {
                        assert(self@.iters[i as int].state != State::Finished);
                        assert(visited_before(start as int, i + 1, wrapped, i as int));
                    }
                }
            }
            i += 1;
            count += 1;
        }
        proof {
            if state is None {
                assert forall|j: int| 0 <= j < n implies (#[trigger] self@.iters[j]).state == State::Finished by {
                }
            }
            if forall|j: int| 0 <= j < n ==> (#[trigger] self@.iters[j]).state == State::Finished {
                if state matches Some(PeersIterState::Waiting(None)) {
                    let j = choose|j: int| 0 <= j < n && visited_before(start as int, i as int, wrapped, j) && #[trigger] busy(self@.iters[j]);
                    assert(self@.iters[j].state == State::Finished);
                }
                if state matches Some(PeersIterState::WaitingAtCapacity) {
                    let j = choose|j: int| 0 <= j < n && visited_before(start as int, i as int, wrapped, j) && (#[trigger] self@.iters[j]).state != State::Finished;
                }
            }
        }
        proof {
            assert(round(rs, sts, now));
        }
        match state {
            Some(s) => s,
            None => PeersIterState::Finished,
        }
    }


    /// Consumes the iterator, returning up to `num_results` distinct peers
    /// from the results of the iterators, taken round by round: the best
    /// result of each iterator, then the second best of each, and so on.
    pub fn into_result(self) -> (r: Vec<Vec<u8>>)
        requires
            self.wf(),
        ensures
            byte_views(r@) == gather(rounds_from(results_of_each(self@.iters), 0, 0), self@.config.num_results as nat, Seq::empty()),
    {
        let ghost vs = self@.iters;
        let n = self.config.num_results;
        let mut iters = self.iters;
        let mut lists: Vec<Vec<Vec<u8>>> = Vec::new();
        let ghost total = iters@.len();
        while iters.len() > 0
            invariant
                total == vs.len(),
                lists@.len() + iters@.len() == total,
                forall|j: int| 0 <= j < iters@.len() ==> (#[trigger] iters@[j]).wf() && iters@[j]@ == vs[lists@.len() + j],
                forall|j: int| 0 <= j < lists@.len() ==> byte_views((#[trigger] lists@[j])@) == result_of(vs[j]),
            decreases iters@.len(),
        {
            let ghost before = iters@;
            let it = iters.remove(0);
            assert(it == before[0]);
            assert forall|j: int| 0 <= j < iters@.len() implies (#[trigger] iters@[j]).wf() && iters@[j]@ == vs[lists@.len() + 1 + j] by {
                assert(iters@[j] == before[j + 1]);
            }
            let ghost v = it@;
            let part = it.into_result();
            assert(byte_views(part@) =~= result_of(v));
            lists.push(part);
        }
        let ghost ls = results_of_each(vs);
        assert forall|j: int| 0 <= j < lists@.len() implies byte_views((#[trigger] lists@[j])@) == ls[j] by {
        }
        proof {
            lemma_max_len(ls, 0);
        }
        let mut acc: Vec<Vec<u8>> = Vec::new();
        let mut round: usize = 0;
        let mut done = false;
        assert(byte_views(acc@) =~= Seq::<Seq<u8>>::empty());
        while !done
            invariant
                n >= 1,
                lists@.len() == ls.len(),
                forall|j: int| 0 <= j < lists@.len() ==> byte_views((#[trigger] lists@[j])@) == ls[j],
                gather(rounds_from(ls, 0, 0), n as nat, Seq::empty()) == (if done {
                    byte_views(acc@)
                } else {
                    gather(rounds_from(ls, round as nat, 0), n as nat, byte_views(acc@))
                }),
                !done ==> byte_views(acc@).len() < n,
                !done ==> round <= max_len(ls),
            decreases max_len(ls) + 1 - round, if done { 0int } else { 1int },
        {
            let mut progress = false;
            let mut i: usize = 0;
            while i < lists.len() && !done
                invariant
                    n >= 1,
                    lists@.len() == ls.len(),
                    forall|j: int| 0 <= j < lists@.len() ==> byte_views((#[trigger] lists@[j])@) == ls[j],
                    i <= lists@.len(),
                    round <= max_len(ls),
                    gather(rounds_from(ls, 0, 0), n as nat, Seq::empty()) == (if done {
                        byte_views(acc@)
                    } else {
                        gather(rounds_from(ls, round as nat, i as nat), n as nat, byte_views(acc@))
                    }),
                    !done ==> byte_views(acc@).len() < n,
                    progress ==> round < max_len(ls),
                    progress ==> round < usize::MAX,
                    !progress ==> forall|j: int| 0 <= j < i ==> (#[trigger] ls[j]).len() <= round,
                decreases lists@.len() - i,
            {
                let ghost a0 = byte_views(acc@);
                if round < lists[i].len() {
                    progress = true;
                    proof {
                        lemma_max_len(ls, 0);
                        assert(ls[i as int].len() <= max_len(ls));
                        assert(byte_views(lists@[i as int]@)[round as int] == lists@[i as int]@[round as int]@);
                    }
                    let x = &lists[i][round];
                    let ghost xv = x@;
                    assert(xv == ls[i as int][round as int]);
                    proof {
                        assert(rounds_from(ls, round as nat, i as nat) == seq![xv] + rounds_from(ls, round as nat, (i + 1) as nat));
                        lemma_gather_cons(xv, rounds_from(ls, round as nat, (i + 1) as nat), n as nat, a0);
                    }
                    if !contains_bytes(&acc, x) {
                        acc.push(crate::record::copy_bytes(x));
                        assert(byte_views(acc@) =~= a0.push(xv));
                    }
                    if acc.len() == n {
                        proof {
                            lemma_gather_done(rounds_from(ls, round as nat, (i + 1) as nat), n as nat, byte_views(acc@));
                        }
                        done = true;
                    }
                } else {
                    proof {
                        if round < max_len(ls) {
                            assert(rounds_from(ls, round as nat, i as nat) =~= rounds_from(ls, round as nat, (i + 1) as nat));
                        }
                    }
                }
                i += 1;
            }
            if !done {
                if !progress {
                    proof {
                        lemma_max_len(ls, round as nat);
                        lemma_gather_done(rounds_from(ls, round as nat, 0), n as nat, byte_views(acc@));
                    }
                    done = true;
                } else {
                    proof {
                        assert(rounds_from(ls, round as nat, ls.len()) == rounds_from(ls, (round + 1) as nat, 0));
                    }
                    round += 1;
                }
            }
        }
        acc
    }
}

/// Records that the `i`-th iterator also awaits the contacted peer at
/// position `j`.
fn await_also(contacted: &mut Vec<(Vec<u8>, ContactedPeer)>, j: usize, i: usize)
    requires
        keys_unique(contacted_entries(old(contacted)@)),
        j < old(contacted)@.len(),
    ensures
        contacted_entries(final(contacted)@) == contacted_entries(old(contacted)@).update(
            j as int,
            (old(contacted)@[j as int].0@, ContactedView {
                additionally_awaited_by: old(contacted)@[j as int].1@.additionally_awaited_by.push(i),
                ..old(contacted)@[j as int].1@
            }),
        ),
        keys_unique(contacted_entries(final(contacted)@)),
        keyed_map(contacted_entries(final(contacted)@)) == keyed_map(contacted_entries(old(contacted)@)).insert(
            old(contacted)@[j as int].0@,
            ContactedView {
                additionally_awaited_by: old(contacted)@[j as int].1@.additionally_awaited_by.push(i),
                ..old(contacted)@[j as int].1@
            },
        ),
{
    let ghost cs = contacted_entries(contacted@);
    let ghost old_vec = contacted@;
    let (peer, mut c) = contacted.remove(j);
    c.additionally_awaited_by.push(i);
    contacted.insert(j, (peer, c));
    proof {
        assert(contacted@ =~= old_vec.update(j as int, (peer, c)));
        assert(contacted_entries(contacted@) =~= cs.update(j as int, (cs[j as int].0, c@)));
        lemma_keyed_update(cs, j as int, c@);
    }
}

/// Whether `list` holds `x`.
fn contains_bytes(list: &Vec<Vec<u8>>, x: &Vec<u8>) -> (r: bool)
    ensures
        r == byte_views(list@).contains(x@),
{
    let mut i: usize = 0;
    while i < list.len()
        invariant
            i <= list@.len(),
            forall|j: int| 0 <= j < i ==> list@[j]@ != x@,
        decreases list@.len() - i,
    {
        if crate::addresses::same_bytes(&list[i], x) {
            assert(byte_views(list@)[i as int] == x@);
            return true;
        }
        i += 1;
    }
    assert forall|j: int| 0 <= j < byte_views(list@).len() implies byte_views(list@)[j] != x@ by {
        assert(byte_views(list@)[j] == list@[j]@);
    }
    false
}

/// Copies a list of keys.
fn copy_keys(keys: &Vec<Key>) -> (r: Vec<Key>)
    ensures
        r@.len() == keys@.len(),
        key_pairs(r@) == key_pairs(keys@),
{
    let mut r: Vec<Key> = Vec::new();
    let mut i: usize = 0;
    while i < keys.len()
        invariant
            i <= keys@.len(),
            r@.len() == i,
            forall|j: int| 0 <= j < i ==> (#[trigger] r@[j]).key_view() == keys@[j].key_view()
                && r@[j].spec_preimage() == keys@[j].spec_preimage(),
        decreases keys@.len() - i,
    {
        r.push(keys[i].clone_key());
        i += 1;
    }
    assert(key_pairs(r@) =~= key_pairs(keys@));
    r
}

} // verus!
