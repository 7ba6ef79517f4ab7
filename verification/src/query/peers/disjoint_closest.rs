//! The configuration of a lookup along disjoint paths.

use vstd::prelude::*;
use std::time::Duration;
use crate::{ALPHA_VALUE, K_VALUE};
use crate::time::{duration_from_secs, instant_plus};
use std::time::Instant;
use crate::kbucket::key::{Key, KeyBytes};
use crate::query::peers::closest::{busy, ClosestPeersIter, ClosestPeersIterConfig, ClosestPeersIterView,
    State, initial_peers, key_pairs, count_not_contacted, succeeded_ids, reported_pairs, expired_at};
use crate::query::peers::{PeersIterState, IterStep};
use crate::record::keyed::{keys_unique, keyed_map, lemma_keyed_index, lemma_keyed_absent, lemma_keyed_push};
use crate::addresses::byte_views;

verus! {

/// The configuration of an iterator over the closest peers along disjoint
/// paths.
#[derive(Debug, Clone)]
pub struct DisjointClosestPeersIterConfig {
    /// The allowed level of parallelism.
    pub parallelism: usize,
    /// The number of disjoint paths.
    pub disjoint_paths: usize,
    /// The number of closest peers to look for.
    pub num_results: usize,
    /// The timeout for a single peer.
    pub peer_timeout: Duration,
}

impl Default for DisjointClosestPeersIterConfig {
    /// `ALPHA_VALUE` parallelism, three paths, `K_VALUE` results and a peer
    /// timeout of 10 seconds.
    fn default() -> (r: Self)
        ensures
            r.parallelism == ALPHA_VALUE,
            r.disjoint_paths == 3,
            r.num_results == K_VALUE,
    {
        DisjointClosestPeersIterConfig {
            parallelism: ALPHA_VALUE,
            disjoint_paths: 3,
            num_results: K_VALUE,
            peer_timeout: duration_from_secs(10),
        }
    }
}

/// The share of part `i` when `total` is split into `parts` parts as
/// evenly as can be: `total / parts`, and one more for each of the first
/// `total % parts` parts.
pub open spec fn share(total: int, parts: int, i: int) -> int {
    total / parts + if i < total % parts { 1int } else { 0int }
}

/// What the first `i` parts hold together.
pub open spec fn shares_before(total: int, parts: int, i: int) -> int {
    i * (total / parts) + if i < total % parts { i } else { total % parts }
}

/// The shares of consecutive parts add up: the first `i + 1` parts hold
/// what the first `i` hold and the share of part `i`.
pub proof fn lemma_shares_step(total: int, parts: int, i: int)
    requires
        parts >= 1,
        total >= 0,
        0 <= i,
    ensures
        shares_before(total, parts, i + 1) == shares_before(total, parts, i) + share(total, parts, i),
        shares_before(total, parts, i) >= 0,
{
    let q = total / parts;
    assert((i + 1) * q == i * q + q) by (nonlinear_arith);
    assert(i * q >= 0) by (nonlinear_arith)
        requires
            i >= 0,
            q >= 0,
    ;
}

/// All the parts together hold the total.
pub proof fn lemma_shares_total(total: int, parts: int)
    requires
        parts >= 1,
        total >= 0,
    ensures
        shares_before(total, parts, parts) == total,
{
    vstd::arithmetic::div_mod::lemma_fundamental_div_mod(total, parts);
    assert(parts * (total / parts) == parts * (total / parts));
}

/// More parts hold more.
pub proof fn lemma_shares_monotonic(total: int, parts: int, i: int, j: int)
    requires
        parts >= 1,
        total >= 0,
        0 <= i <= j,
    ensures
        0 <= shares_before(total, parts, i) <= shares_before(total, parts, j),
    decreases j - i,
{
    if i < j {
        lemma_shares_monotonic(total, parts, i, j - 1);
        lemma_shares_step(total, parts, j - 1);
    } else {
        lemma_shares_step(total, parts, i);
    }
}

/// The first parts hold no more than the total, and more parts hold more.
pub proof fn lemma_shares_bounded(total: int, parts: int, i: int, j: int)
    requires
        parts >= 1,
        total >= 0,
        0 <= i <= j <= parts,
    ensures
        0 <= shares_before(total, parts, i) <= shares_before(total, parts, j) <= total,
{
    lemma_shares_monotonic(total, parts, i, j);
    lemma_shares_monotonic(total, parts, j, parts);
    lemma_shares_total(total, parts);
}

/// The parts of an even split differ by at most one.
pub proof fn lemma_shares_fair(total: int, parts: int, i: int, j: int)
    requires
        parts >= 1,
    ensures
        share(total, parts, i) - share(total, parts, j) <= 1,
{
}

/// The peers of part `i` when the first `n` peers are split over `parts`
/// paths from the end: part `0` takes the last ones.
pub open spec fn part_of(peers: Seq<Key>, parts: int, i: int) -> Seq<Key> {
    peers.subrange(
        peers.len() - shares_before(peers.len() as int, parts, i + 1),
        peers.len() - shares_before(peers.len() as int, parts, i),
    )
}

/// The sum of the shares of the first `k` parts.
pub open spec fn sum_of_shares(total: int, parts: int, k: int) -> int
    decreases k,
{
    if k <= 0 {
        0
    } else {
        sum_of_shares(total, parts, k - 1) + share(total, parts, k - 1)
    }
}

/// The shares of all parts add up to the total: splitting loses and
/// invents nothing.
pub proof fn lemma_split_adds_up(total: int, parts: int)
    requires
        parts >= 1,
        total >= 0,
    ensures
        sum_of_shares(total, parts, parts) == total,
{
    lemma_sum_is_shares_before(total, parts, parts);
    lemma_shares_total(total, parts);
}

/// The sum of the first `k` shares is what the first `k` parts hold.
proof fn lemma_sum_is_shares_before(total: int, parts: int, k: int)
    requires
        parts >= 1,
        total >= 0,
        k >= 0,
    ensures
        sum_of_shares(total, parts, k) == shares_before(total, parts, k),
    decreases k,
{
    if k > 0 {
        lemma_sum_is_shares_before(total, parts, k - 1);
        lemma_shares_step(total, parts, k - 1);
    } else {
        assert(0 * (total / parts) == 0);
    }
}

/// Each path gets its share of the peers.
pub proof fn lemma_part_len(peers: Seq<Key>, parts: int, i: int)
    requires
        parts >= 1,
        0 <= i < parts,
    ensures
        part_of(peers, parts, i).len() == share(peers.len() as int, parts, i),
{
    lemma_shares_bounded(peers.len() as int, parts, i, i + 1);
    lemma_shares_bounded(peers.len() as int, parts, i + 1, parts);
    lemma_shares_step(peers.len() as int, parts, i);
}

/// Splits the resources of a lookup (parallelism, number of results,
/// peers) evenly over the disjoint paths, no two paths more than one
/// apart; each path gets at most `ALPHA_VALUE` of the first known peers.
///
/// With 10 peers and 4 disjoint paths the paths get 3, 3, 2 and 2 peers.
pub fn split_inputs_per_disjoint_path(config: &DisjointClosestPeersIterConfig, peers: Vec<Key>) -> (r: Vec<(ClosestPeersIterConfig, Vec<Key>)>)
    requires
        config.disjoint_paths >= 1,
        ALPHA_VALUE * config.disjoint_paths <= usize::MAX,
    ensures
        r@.len() == config.disjoint_paths,
        forall|i: int| 0 <= i < r@.len() ==> {
            let c = (#[trigger] r@[i]).0;
            &&& c.parallelism == share(config.parallelism as int, config.disjoint_paths as int, i)
            &&& c.num_results == share(config.num_results as int, config.disjoint_paths as int, i)
            &&& c.peer_timeout == config.peer_timeout
            &&& c.disjoint_paths == 1
            &&& r@[i].1@ == part_of(
                peers@.take(if peers@.len() < ALPHA_VALUE * config.disjoint_paths { peers@.len() as int } else { ALPHA_VALUE * config.disjoint_paths }),
                config.disjoint_paths as int,
                i,
            )
        },
{
    let paths = config.disjoint_paths;
    let parallelism_per_iter = config.parallelism / paths;
    let remaining_parallelism = config.parallelism % paths;
    let num_results_per_iter = config.num_results / paths;
    let remaining_num_results = config.num_results % paths;
    proof {
        vstd::arithmetic::div_mod::lemma_fundamental_div_mod(config.parallelism as int, paths as int);
        vstd::arithmetic::div_mod::lemma_fundamental_div_mod(config.num_results as int, paths as int);
        assert(paths * parallelism_per_iter >= parallelism_per_iter) by (nonlinear_arith)
            requires
                paths >= 1,
        ;
        assert(paths * num_results_per_iter >= num_results_per_iter) by (nonlinear_arith)
            requires
                paths >= 1,
        ;
    }
    let limit = ALPHA_VALUE * paths;
    let mut peers = peers;
    let ghost orig = peers@;
    peers.truncate(limit);
    let ghost taken = orig.take(if orig.len() < limit { orig.len() as int } else { limit as int });
    assert(peers@ == taken);
    let n = peers.len();
    let peers_per_iter = n / paths;
    let remaining_peers = n % paths;
    proof {
        lemma_shares_bounded(n as int, paths as int, 0, paths as int);
        assert(0 * (n / paths) == 0);
        assert(shares_before(n as int, paths as int, 0) == 0);
        assert(taken.subrange(0, n as int) =~= taken);
        vstd::arithmetic::div_mod::lemma_fundamental_div_mod(n as int, paths as int);
        assert(paths * peers_per_iter >= peers_per_iter) by (nonlinear_arith)
            requires
                paths >= 1,
        ;
    }
    let mut r: Vec<(ClosestPeersIterConfig, Vec<Key>)> = Vec::new();
    let mut i: usize = 0;
    while i < paths
        invariant
            paths == config.disjoint_paths,
            paths >= 1,
            n == taken.len(),
            peers_per_iter == n / paths,
            remaining_peers == n % paths,
            parallelism_per_iter == config.parallelism / paths,
            remaining_parallelism == config.parallelism % paths,
            num_results_per_iter == config.num_results / paths,
            remaining_num_results == config.num_results % paths,
            remaining_parallelism > 0 ==> parallelism_per_iter < usize::MAX,
            remaining_num_results > 0 ==> num_results_per_iter < usize::MAX,
            remaining_peers > 0 ==> peers_per_iter < usize::MAX,
            i <= paths,
            peers@ == taken.subrange(0, n - shares_before(n as int, paths as int, i as int)),
            r@.len() == i,
            forall|j: int| 0 <= j < i ==> {
                let c = (#[trigger] r@[j]).0;
                &&& c.parallelism == share(config.parallelism as int, paths as int, j)
                &&& c.num_results == share(config.num_results as int, paths as int, j)
                &&& c.peer_timeout == config.peer_timeout
                &&& c.disjoint_paths == 1
                &&& r@[j].1@ == part_of(taken, paths as int, j)
            },
        decreases paths - i,
    {
        let parallelism = if i < remaining_parallelism { parallelism_per_iter + 1 } else { parallelism_per_iter };
        let num_results = if i < remaining_num_results { num_results_per_iter + 1 } else { num_results_per_iter };
        let size = if i < remaining_peers { peers_per_iter + 1 } else { peers_per_iter };
        proof {
            lemma_shares_step(n as int, paths as int, i as int);
            lemma_shares_bounded(n as int, paths as int, i as int + 1, paths as int);
        }
        assert(size == share(n as int, paths as int, i as int));
        let at = peers.len() - size;
        let chunk = peers.split_off(at);
        assert(chunk@ =~= part_of(taken, paths as int, i as int));
        assert(peers@ =~= taken.subrange(0, n - shares_before(n as int, paths as int, i + 1)));
        let c = ClosestPeersIterConfig {
            parallelism,
            num_results,
            peer_timeout: config.peer_timeout,
            disjoint_paths: 1,
        };
        r.push((c, chunk));
        i += 1;
    }
    r
}

/// The views of a list of iterators.
pub open spec fn iter_views(s: Seq<ClosestPeersIter>) -> Seq<ClosestPeersIterView> {
    s.map_values(|it: ClosestPeersIter| it@)
}

/// The yielded peers, each with the path that yielded it.
pub open spec fn yielded_entries(s: Seq<(Vec<u8>, usize)>) -> Seq<(Seq<u8>, usize)> {
    s.map_values(|e: (Vec<u8>, usize)| (e.0@, e.1))
}

/// What the result of an iterator holds: the closest peers that answered,
/// at most `num_results` of them.
pub open spec fn result_of(v: ClosestPeersIterView) -> Seq<Seq<u8>> {
    let s = succeeded_ids(v.peers);
    if s.len() < v.config.num_results {
        s
    } else {
        s.take(v.config.num_results as int)
    }
}

/// The results of iterators, one after the other.
pub open spec fn results_of(vs: Seq<ClosestPeersIterView>) -> Seq<Seq<u8>>
    decreases vs.len(),
{
    if vs.len() == 0 {
        Seq::empty()
    } else {
        results_of(vs.drop_last()) + result_of(vs.last())
    }
}

/// What a disjoint iterator holds: an iterator per path, and the peers
/// yielded so far with the path that yielded each.
pub struct DisjointClosestPeersIterView {
    pub iters: Seq<ClosestPeersIterView>,
    pub yielded: Map<Seq<u8>, usize>,
}

/// One request to the iterator at `i`, at the instant `now`, as `next`
/// makes it. The iterator steps (see `ClosestPeersIterView::next_step`: the
/// peers whose deadline is not after `now` time out, and a peer contacted
/// now is waited for until `now` plus the peer timeout). A peer it names
/// that another path yielded already counts as failed for it, and it is to
/// be asked again (`None`). Otherwise the step is its answer (`Some`), a
/// new peer being recorded as yielded on its path.
pub open spec fn ask_path_once(v: DisjointClosestPeersIterView, i: int, now: Instant) -> (DisjointClosestPeersIterView, Option<IterStep>) {
    let it = v.iters[i];
    let st = it.next_step(expired_at(it.peers, now), instant_plus(now, it.config.peer_timeout));
    match st.1 {
        IterStep::Waiting(Some(p)) => if v.yielded.contains_key(p) {
            (DisjointClosestPeersIterView { iters: v.iters.update(i, st.0.after_failure(p)), ..v }, None)
        } else {
            (DisjointClosestPeersIterView { iters: v.iters.update(i, st.0), yielded: v.yielded.insert(p, i as usize) }, Some(st.1))
        },
        _ => (DisjointClosestPeersIterView { iters: v.iters.update(i, st.0), ..v }, Some(st.1)),
    }
}

/// `vs` are the states while the iterator at `i` is asked at `now` until
/// it answers `step`: each request but the last names a peer yielded on
/// another path.
pub open spec fn path_chain(vs: Seq<DisjointClosestPeersIterView>, i: int, now: Instant, step: IterStep) -> bool {
    &&& vs.len() >= 2
    &&& forall|j: int| 0 <= j < vs.len() - 2 ==> #[trigger] ask_path_once(vs[j], i, now) == (vs[j + 1], None::<IterStep>)
    &&& ask_path_once(vs[vs.len() - 2], i, now) == (vs.last(), Some(step))
}

/// Asking the iterator at `i` at `now` takes `v` to `v2` with the answer
/// `step`.
pub open spec fn path_asked(v: DisjointClosestPeersIterView, i: int, now: Instant, v2: DisjointClosestPeersIterView, step: IterStep) -> bool {
    exists|vs: Seq<DisjointClosestPeersIterView>| #[trigger] path_chain(vs, i, now, step) && vs[0] == v && vs.last() == v2
}

/// What the answers so far make of a round, starting from finished:
/// waiting as soon as one path waits, else at capacity as soon as one is.
pub open spec fn combined_path(acc: IterStep, step: IterStep) -> IterStep {
    match step {
        IterStep::Waiting(None) => IterStep::Waiting(None),
        IterStep::WaitingAtCapacity => if acc is Finished { IterStep::WaitingAtCapacity } else { acc },
        _ => acc,
    }
}

/// The answers `sts` combined in order.
pub open spec fn fold_path_steps(sts: Seq<IterStep>) -> IterStep
    decreases sts.len(),
{
    if sts.len() == 0 {
        IterStep::Finished
    } else {
        combined_path(fold_path_steps(sts.drop_last()), sts.last())
    }
}

/// A round of `next` at `now` from `rs[0]`: the iterators are asked in
/// order, `rs` being the states in between and `sts` their answers, until
/// one names a new peer or every iterator was asked once.
pub open spec fn path_round(rs: Seq<DisjointClosestPeersIterView>, sts: Seq<IterStep>, now: Instant) -> bool {
    let n = rs[0].iters.len();
    &&& rs.len() == sts.len() + 1
    &&& sts.len() <= n
    &&& forall|m: int| 0 <= m < sts.len() ==> #[trigger] path_asked(rs[m], m, now, rs[m + 1], sts[m])
    &&& forall|m: int| 0 <= m < sts.len() - 1 ==> !(#[trigger] sts[m] matches IterStep::Waiting(Some(_)))
    &&& sts.len() < n ==> sts.len() > 0 && sts.last() matches IterStep::Waiting(Some(_))
}

/// The state `next` reports after the round with answers `sts`: the new
/// peer, if the last answer names one; else the answers combined.
pub open spec fn path_round_result(sts: Seq<IterStep>) -> IterStep {
    if sts.len() > 0 && sts.last() matches IterStep::Waiting(Some(_)) {
        sts.last()
    } else {
        fold_path_steps(sts)
    }
}

/// Wraps around a set of `ClosestPeersIter`, one per disjoint path,
/// according to the S/Kademlia paper: each peer is used on one path only.
pub struct DisjointClosestPeersIter {
    iters: Vec<ClosestPeersIter>,
    yielded_peers: Vec<(Vec<u8>, usize)>,
}

impl View for DisjointClosestPeersIter {
    type V = DisjointClosestPeersIterView;

    closed spec fn view(&self) -> DisjointClosestPeersIterView {
        DisjointClosestPeersIterView {
            iters: iter_views(self.iters@),
            yielded: keyed_map(yielded_entries(self.yielded_peers@)),
        }
    }
}

impl DisjointClosestPeersIter {
    /// Every path's iterator keeps its invariant; every peer is yielded by
    /// one path, one of the iterators.
    pub closed spec fn wf(&self) -> bool {
        &&& forall|i: int| 0 <= i < self.iters@.len() ==> (#[trigger] self.iters@[i]).wf()
        &&& keys_unique(yielded_entries(self.yielded_peers@))
        &&& forall|j: int| 0 <= j < self.yielded_peers@.len() ==> (#[trigger] self.yielded_peers@[j]).1 < self.iters@.len()
    }

    /// The path that yielded each peer is one of the iterators.
    pub proof fn lemma_yielded_paths(&self)
        requires
            self.wf(),
        ensures
            forall|p: Seq<u8>| #[trigger] self@.yielded.contains_key(p) ==> self@.yielded[p] < self@.iters.len(),
            forall|i: int| 0 <= i < self@.iters.len() ==> (#[trigger] self@.iters[i]).inv(),
    {
        let ys = yielded_entries(self.yielded_peers@);
        assert forall|p: Seq<u8>| #[trigger] self@.yielded.contains_key(p) implies self@.yielded[p] < self@.iters.len() by {
            let j = choose|j: int| 0 <= j < ys.len() && #[trigger] ys[j].0 == p;
            lemma_keyed_index(ys, j);
            assert(ys[j].1 == self.yielded_peers@[j].1);
        }
        assert forall|i: int| 0 <= i < self@.iters.len() implies (#[trigger] self@.iters[i]).inv() by {
            self.iters@[i].lemma_inv();
        }
    }

    /// Creates a new iterator with the given configuration: the resources
    /// are split over the paths (see `split_inputs_per_disjoint_path`), and
    /// each path iterates towards the target from its share of the peers.
    pub fn with_config(config: DisjointClosestPeersIterConfig, target: KeyBytes, known_closest_peers: Vec<Key>) -> (r: Self)
        requires
            config.disjoint_paths >= 1,
            ALPHA_VALUE * config.disjoint_paths <= usize::MAX,
        ensures
            r.wf(),
            r@.iters.len() == config.disjoint_paths,
            r@.yielded == Map::<Seq<u8>, usize>::empty(),
            forall|i: int| 0 <= i < r@.iters.len() ==> {
                let v = #[trigger] r@.iters[i];
                let part = part_of(
                    known_closest_peers@.take(if known_closest_peers@.len() < ALPHA_VALUE * config.disjoint_paths { known_closest_peers@.len() as int } else { ALPHA_VALUE * config.disjoint_paths }),
                    config.disjoint_paths as int,
                    i,
                );
                &&& v.config.parallelism == share(config.parallelism as int, config.disjoint_paths as int, i)
                &&& v.config.num_results == share(config.num_results as int, config.disjoint_paths as int, i)
                &&& v.config.peer_timeout == config.peer_timeout
                &&& v.config.disjoint_paths == 1
                &&& v.target == target@
                &&& v.state == (State::Iterating { no_progress: 0 })
                &&& v.num_waiting == 0
                &&& v.peers == initial_peers(target@, key_pairs(part).take(
                    if part.len() < v.config.num_results { part.len() as int } else { v.config.num_results as int },
                ))
            },
    {
        let mut parts = split_inputs_per_disjoint_path(&config, known_closest_peers);
        let ghost all_parts = parts@;
        let mut iters: Vec<ClosestPeersIter> = Vec::new();
        let mut i: usize = 0;
        while parts.len() > 0
            invariant
                all_parts.len() == config.disjoint_paths,
                i + parts@.len() == all_parts.len(),
                parts@ == all_parts.subrange(i as int, all_parts.len() as int),
                iters@.len() == i,
                forall|j: int| 0 <= j < i ==> {
                    let v = (#[trigger] iters@[j])@;
                    let c = all_parts[j].0;
                    let part = all_parts[j].1@;
                    &&& iters@[j].wf()
                    &&& v.config == c
                    &&& v.target == target@
                    &&& v.state == (State::Iterating { no_progress: 0 })
                    &&& v.num_waiting == 0
                    &&& v.peers == initial_peers(target@, key_pairs(part).take(
                        if part.len() < c.num_results { part.len() as int } else { c.num_results as int },
                    ))
                },
                forall|j: int| 0 <= j < all_parts.len() ==> (#[trigger] all_parts[j]).0.disjoint_paths == 1,
            decreases parts@.len(),
        {
            let (c, peers) = parts.remove(0);
            assert((c, peers) == all_parts[i as int]);
            let it = ClosestPeersIter::with_config(c, target, peers);
            iters.push(it);
            i += 1;
        }
        let r = DisjointClosestPeersIter { iters, yielded_peers: Vec::new() };
        assert(r@.yielded =~= Map::<Seq<u8>, usize>::empty());
        r
    }

    /// Creates a new iterator with a default configuration.
    pub fn new(target: KeyBytes, known_closest_peers: Vec<Key>) -> (r: Self)
        ensures
            r.wf(),
            r@.iters.len() == 3,
            r@.yielded == Map::<Seq<u8>, usize>::empty(),
    {
        Self::with_config(DisjointClosestPeersIterConfig::default(), target, known_closest_peers)
    }

    /// The path that yielded `peer`.
    fn path_of(&self, peer: &Vec<u8>) -> (r: Option<usize>)
        requires
            keys_unique(yielded_entries(self.yielded_peers@)),
        ensures
            match r {
                Some(i) => self@.yielded.contains_key(peer@) && self@.yielded[peer@] == i,
                None => !self@.yielded.contains_key(peer@),
            },
    {
        let ghost ys = yielded_entries(self.yielded_peers@);
        let mut j: usize = 0;
        while j < self.yielded_peers.len()
            invariant
                keys_unique(ys),
                ys == yielded_entries(self.yielded_peers@),
                j <= ys.len(),
                forall|a: int| 0 <= a < j ==> ys[a].0 != peer@,
            decreases ys.len() - j,
        {
            if crate::addresses::same_bytes(&self.yielded_peers[j].0, peer) {
                proof {
                    assert(ys[j as int].0 == peer@);
                    assert(ys[j as int].1 == self.yielded_peers@[j as int].1);
                    lemma_keyed_index(ys, j as int);
                }
                return Some(self.yielded_peers[j].1);
            }
            j += 1;
        }
        proof {
            lemma_keyed_absent(ys, peer@);
        }
        None
    }

    /// Delivers a failure of `peer` to the path that yielded it.
    pub fn on_failure(&mut self, peer: &Vec<u8>)
        requires
            old(self).wf(),
            old(self)@.yielded.contains_key(peer@),
        ensures
            final(self).wf(),
            final(self)@ == (DisjointClosestPeersIterView {
                iters: old(self)@.iters.update(
                    old(self)@.yielded[peer@] as int,
                    old(self)@.iters[old(self)@.yielded[peer@] as int].after_failure(peer@),
                ),
                ..old(self)@
            }),
    {
        let ghost before = self@;
        proof {
            self.lemma_yielded_paths();
        }
        let i = self.path_of(peer).unwrap();
        let ghost old_iters = self.iters@;
        let mut it = self.iters.remove(i);
        it.on_failure(peer);
        self.iters.insert(i, it);
        proof {
            assert(self.iters@ =~= old_iters.update(i as int, it));
            assert forall|j: int| 0 <= j < self.iters@.len() implies (#[trigger] self.iters@[j]).wf() by {
                if j != i {
                    assert(self.iters@[j] == old_iters[j]);
                }
            }
        }
        assert(self@.iters =~= before.iters.update(i as int, before.iters[i as int].after_failure(peer@)));
    }

    /// Delivers the result of `peer`, with the peers it reported as closer
    /// to the target, to the path that yielded it.
    pub fn on_success(&mut self, peer: &Vec<u8>, closer_peers: Vec<Vec<u8>>)
        requires
            old(self).wf(),
            old(self)@.yielded.contains_key(peer@),
        ensures
            final(self).wf(),
            final(self)@ == (DisjointClosestPeersIterView {
                iters: old(self)@.iters.update(
                    old(self)@.yielded[peer@] as int,
                    old(self)@.iters[old(self)@.yielded[peer@] as int].after_success(peer@, reported_pairs(closer_peers@)),
                ),
                ..old(self)@
            }),
    {
        let ghost before = self@;
        proof {
            self.lemma_yielded_paths();
        }
        let i = self.path_of(peer).unwrap();
        let ghost old_iters = self.iters@;
        let mut it = self.iters.remove(i);
        it.on_success(peer, closer_peers);
        self.iters.insert(i, it);
        proof {
            assert(self.iters@ =~= old_iters.update(i as int, it));
            assert forall|j: int| 0 <= j < self.iters@.len() implies (#[trigger] self.iters@[j]).wf() by {
                if j != i {
                    assert(self.iters@[j] == old_iters[j]);
                }
            }
        }
        assert(self@.iters =~= before.iters.update(
            i as int,
            before.iters[i as int].after_success(peer@, reported_pairs(closer_peers@)),
        ));
    }

    /// Whether the path that yielded `peer` waits for it.
    pub fn is_waiting(&self, peer: &Vec<u8>) -> (r: bool)
        requires
            self.wf(),
            self@.yielded.contains_key(peer@),
        ensures
            r == crate::query::peers::closest::waiting_ids(self@.iters[self@.yielded[peer@] as int].peers).contains(peer@),
    {
        proof {
            self.lemma_yielded_paths();
        }
        let i = self.path_of(peer).unwrap();
        assert(self.iters@[i as int]@ == self@.iters[i as int]);
        self.iters[i].is_waiting(peer)
    }

    /// Advances the paths in turn, asking for a request to the first peer
    /// that some path wants to contact and no path has yielded yet; a peer
    /// already yielded by another path counts as failed on this one.
    /// Without such a peer, the iterator waits if some path waits, is at
    /// capacity if some path is, and is finished when all paths are.
    pub fn next(&mut self, now: Instant) -> (r: PeersIterState)
        requires
            old(self).wf(),
        ensures
            final(self).wf(),
            final(self)@.iters.len() == old(self)@.iters.len(),
            forall|i: int| 0 <= i < old(self)@.iters.len() ==> (#[trigger] final(self)@.iters[i]).config == old(self)@.iters[i].config,
            match r {
                PeersIterState::Waiting(Some(p)) => {
                    &&& !old(self)@.yielded.contains_key(p@)
                    &&& final(self)@.yielded.contains_key(p@)
                    &&& final(self)@.yielded == old(self)@.yielded.insert(p@, final(self)@.yielded[p@])
                },
                _ => final(self)@.yielded == old(self)@.yielded,
            },
            (r is Finished) == (forall|i: int| 0 <= i < final(self)@.iters.len() ==> (#[trigger] final(self)@.iters[i]).state == State::Finished),
            r matches PeersIterState::Waiting(None) ==> exists|i: int| 0 <= i < final(self)@.iters.len() && #[trigger] busy(final(self)@.iters[i]),
            r is WaitingAtCapacity ==> exists|i: int| 0 <= i < final(self)@.iters.len() && (#[trigger] final(self)@.iters[i]).state != State::Finished,
            exists|rs: Seq<DisjointClosestPeersIterView>, sts: Seq<IterStep>| #[trigger] path_round(rs, sts, now)
                && rs[0] == old(self)@ && rs.last() == final(self)@ && r@ == path_round_result(sts),
    {
        let ghost before = self@;
        let mut state = PeersIterState::Finished;
        let n = self.iters.len();
        let mut i: usize = 0;
        let ghost mut rs: Seq<DisjointClosestPeersIterView> = seq![before];
        let ghost mut sts: Seq<IterStep> = Seq::empty();
        while i < n
            invariant
                rs.len() == sts.len() + 1,
                sts.len() == i,
                rs[0] == before,
                rs.last() == self@,
                forall|m: int| 0 <= m < sts.len() ==> #[trigger] path_asked(rs[m], m, now, rs[m + 1], sts[m]),
                forall|m: int| 0 <= m < sts.len() ==> !(#[trigger] sts[m] matches IterStep::Waiting(Some(_))),
                state@ == fold_path_steps(sts),
                self.wf(),
                before == old(self)@,
                n == self.iters@.len(),
                n == before.iters.len(),
                self@.yielded == before.yielded,
                i <= n,
                forall|j: int| 0 <= j < n ==> (#[trigger] self@.iters[j]).config == before.iters[j].config,
                !(state matches PeersIterState::Waiting(Some(_))),
                state is Finished ==> forall|j: int| 0 <= j < i ==> (#[trigger] self@.iters[j]).state == State::Finished,
                state matches PeersIterState::Waiting(None) ==> exists|j: int| 0 <= j < i && #[trigger] busy(self@.iters[j]),
                state is WaitingAtCapacity ==> exists|j: int| 0 <= j < i && (#[trigger] self@.iters[j]).state != State::Finished,
            decreases n - i,
        {
            let ghost cur = self.iters@;
            assert(cur[i as int].wf());
            assert forall|j: int| 0 <= j < n implies (#[trigger] cur[j])@.config == before.iters[j].config
                && (state is Finished && j < i ==> cur[j]@.state == State::Finished) by {
                assert(self@.iters[j] == cur[j]@);
            }
            let ghost state_in = state;
            proof {
                if state matches PeersIterState::Waiting(None) {
                    let j = choose|j: int| 0 <= j < i && #[trigger] busy(self@.iters[j]);
                    assert(self@.iters[j] == cur[j]@);
                }
                if state is WaitingAtCapacity {
                    let j = choose|j: int| 0 <= j < i && (#[trigger] self@.iters[j]).state != State::Finished;
                    assert(self@.iters[j] == cur[j]@);
                }
            }
            let ghost bi = self@;
            assert(bi.iters.update(i as int, cur[i as int]@) =~= bi.iters) by {
                assert(bi.iters[i as int] == cur[i as int]@);
            }
            let mut it = self.iters.remove(i);
            let ghost rest = self.iters@;
            assert(rest =~= cur.remove(i as int));
            let ghost mut vs: Seq<DisjointClosestPeersIterView> = seq![bi];
            let ghost mut last: IterStep = IterStep::Finished;
            loop
                invariant_except_break
                    state == state_in,
                    forall|j: int| 0 <= j < vs.len() - 1 ==> #[trigger] ask_path_once(vs[j], i as int, now) == (vs[j + 1], None::<IterStep>),
                    vs.last() == (DisjointClosestPeersIterView { iters: bi.iters.update(i as int, it@), yielded: bi.yielded }),
                invariant
                    rs.len() == sts.len() + 1,
                    sts.len() == i,
                    rs[0] == before,
                    rs.last() == bi,
                    forall|m: int| 0 <= m < sts.len() ==> #[trigger] path_asked(rs[m], m, now, rs[m + 1], sts[m]),
                    forall|m: int| 0 <= m < sts.len() ==> !(#[trigger] sts[m] matches IterStep::Waiting(Some(_))),
                    state_in@ == fold_path_steps(sts),
                    vs.len() >= 1,
                    vs[0] == bi,
                    bi.yielded == before.yielded,
                    bi.iters.len() == n,
                    forall|j: int| 0 <= j < n && j != i ==> #[trigger] bi.iters[j] == cur[j]@,
                    state_in matches PeersIterState::Waiting(None) ==> exists|j: int| 0 <= j < i && #[trigger] busy(cur[j]@),
                    state_in is WaitingAtCapacity ==> exists|j: int| 0 <= j < i && (#[trigger] cur[j]@).state != State::Finished,
                    before == old(self)@,
                    it.wf(),
                    it@.config == cur[i as int]@.config,
                    self.iters@ == rest,
                    rest == cur.remove(i as int),
                    cur.len() == n,
                    n == before.iters.len(),
                    i < n,
                    forall|j: int| 0 <= j < n ==> (#[trigger] cur[j]).wf(),
                    forall|j: int| 0 <= j < n ==> (#[trigger] cur[j])@.config == before.iters[j].config,
                    state is Finished ==> forall|j: int| 0 <= j < i ==> (#[trigger] cur[j])@.state == State::Finished,
                    !(state matches PeersIterState::Waiting(Some(_))),
                    keys_unique(yielded_entries(self.yielded_peers@)),
                    forall|j: int| 0 <= j < self.yielded_peers@.len() ==> (#[trigger] self.yielded_peers@[j]).1 < n,
                    self@.yielded == before.yielded,
                ensures
                    path_chain(vs, i as int, now, last),
                    !(last matches IterStep::Waiting(Some(_))),
                    vs.last() == (DisjointClosestPeersIterView { iters: bi.iters.update(i as int, it@), yielded: bi.yielded }),
                    state@ == combined_path(state_in@, last),
                    it.wf(),
                    it@.config == cur[i as int]@.config,
                    self.iters@ == rest,
                    keys_unique(yielded_entries(self.yielded_peers@)),
                    forall|j: int| 0 <= j < self.yielded_peers@.len() ==> (#[trigger] self.yielded_peers@[j]).1 < n,
                    self@.yielded == before.yielded,
                    !(state matches PeersIterState::Waiting(Some(_))),
                    state is Finished ==> forall|j: int| 0 <= j < i ==> (#[trigger] cur[j])@.state == State::Finished,
                    state is Finished ==> it@.state == State::Finished,
                    state matches PeersIterState::Waiting(None) ==> (state_in matches PeersIterState::Waiting(None) || busy(it@)),
                    state is WaitingAtCapacity ==> (state_in is WaitingAtCapacity || it@.state != State::Finished),
                    state_in matches PeersIterState::Waiting(None) ==> exists|j: int| 0 <= j < i && #[trigger] busy(cur[j]@),
                    state_in is WaitingAtCapacity ==> exists|j: int| 0 <= j < i && (#[trigger] cur[j]@).state != State::Finished,
                decreases count_not_contacted(it@.peers),
            {
                let ghost pre = it@;
                proof {
                    it.lemma_inv();
                }
                let ghost v0 = vs.last();
                let step = it.next(now);
                let ghost expired = expired_at(pre.peers, now);
                let ghost deadline = instant_plus(now, pre.config.peer_timeout);
                proof {
                    pre.lemma_contact_progress(expired, deadline, Seq::empty());
                    crate::query::peers::closest::lemma_step_state(pre, expired, deadline);
                }
                match step {
                    PeersIterState::Waiting(None) => {
                        state = PeersIterState::Waiting(None);
                        proof {
                            let nv = DisjointClosestPeersIterView { iters: bi.iters.update(i as int, it@), yielded: bi.yielded };
                            assert(v0.iters.update(i as int, it@) =~= bi.iters.update(i as int, it@));
                            assert(ask_path_once(v0, i as int, now) == (nv, Some(step@)));
                            vs = vs.push(nv);
                            last = step@;
                        }
                        break;
                    },
                    PeersIterState::Waiting(Some(peer)) => {
                        match self.path_of(&peer) {
                            Some(_) => {
                                let ghost mid = it@;
                                proof {
                                    it.lemma_inv();
                                    mid.lemma_contact_progress(Seq::new(mid.peers.len(), |a: int| false), None, peer@);
                                }
                                it.on_failure(&peer);
                                proof {
                                    let nv = DisjointClosestPeersIterView { iters: bi.iters.update(i as int, it@), yielded: bi.yielded };
                                    assert(v0.iters.update(i as int, it@) =~= bi.iters.update(i as int, it@));
                                    assert(v0.yielded.contains_key(peer@));
                                    assert(ask_path_once(v0, i as int, now) == (nv, None::<IterStep>));
                                    let old_vs = vs;
                                    vs = vs.push(nv);
                                    assert forall|x: int| 0 <= x < vs.len() - 1 implies #[trigger] ask_path_once(vs[x], i as int, now) == (vs[x + 1], None::<IterStep>) by {
                                        if x < old_vs.len() - 1 {
                                            assert(vs[x] == old_vs[x] && vs[x + 1] == old_vs[x + 1]);
                                        }
                                    }
                                }
                            },
                            None => {
                                let ghost ys = yielded_entries(self.yielded_peers@);
                                proof {
                                    assert forall|a: int| 0 <= a < ys.len() implies ys[a].0 != peer@ by {
                                        if ys[a].0 == peer@ {
                                            lemma_keyed_index(ys, a);
                                        }
                                    }
                                    lemma_keyed_push(ys, peer@, i);
                                }
                                let copy = crate::record::copy_bytes(&peer);
                                let ghost old_ys = self.yielded_peers@;
                                self.yielded_peers.push((copy, i));
                                assert(yielded_entries(self.yielded_peers@) =~= ys.push((peer@, i)));
                                self.iters.insert(i, it);
                                proof {
                                    assert(self.iters@ =~= cur.update(i as int, it));
                                    assert forall|j: int| 0 <= j < n implies (#[trigger] self.iters@[j]).wf() by {
                                        if j != i {
                                            assert(self.iters@[j] == cur[j]);
                                        }
                                    }
                                    assert forall|j: int| 0 <= j < self.yielded_peers@.len() implies (#[trigger] self.yielded_peers@[j]).1 < self.iters@.len() by {
                                        if j < old_ys.len() {
                                            assert(self.yielded_peers@[j] == old_ys[j]);
                                        }
                                    }
                                    assert forall|j: int| 0 <= j < n implies (#[trigger] self@.iters[j]).config == before.iters[j].config by {
                                        if j != i {
                                            assert(self.iters@[j] == cur[j]);
                                        }
                                    }
                                    lemma_keyed_index(yielded_entries(self.yielded_peers@), old_ys.len() as int);
                                    assert(iter_views(self.iters@).len() == n);
                                }
                                assert(self@.iters[i as int] == it@);
                                assert(self@.iters[i as int].state != State::Finished);
                                proof {
                                    assert(self@.iters =~= bi.iters.update(i as int, it@));
                                    assert(v0.iters.update(i as int, it@) =~= bi.iters.update(i as int, it@));
                                    assert(!v0.yielded.contains_key(peer@));
                                    assert(ask_path_once(v0, i as int, now) == (self@, Some(step@)));
                                    let old_vs = vs;
                                    vs = vs.push(self@);
                                    assert forall|x: int| 0 <= x < vs.len() - 2 implies #[trigger] ask_path_once(vs[x], i as int, now) == (vs[x + 1], None::<IterStep>) by {
                                        assert(vs[x] == old_vs[x] && vs[x + 1] == old_vs[x + 1]);
                                    }
                                    assert(path_chain(vs, i as int, now, step@));
                                    assert(path_asked(rs.last(), i as int, now, self@, step@));
                                    let old_rs = rs;
                                    let old_sts = sts;
                                    rs = rs.push(self@);
                                    sts = sts.push(step@);
                                    assert forall|m: int| 0 <= m < sts.len() implies #[trigger] path_asked(rs[m], m, now, rs[m + 1], sts[m]) by {
                                        if m < old_sts.len() {
                                            assert(rs[m] == old_rs[m] && rs[m + 1] == old_rs[m + 1] && sts[m] == old_sts[m]);
                                        }
                                    }
                                    assert(path_round(rs, sts, now));
                                }
                                return PeersIterState::Waiting(Some(peer));
                            },
                        }
                    },
                    PeersIterState::WaitingAtCapacity => {
                        match state {
                            PeersIterState::Finished => {
                                state = PeersIterState::WaitingAtCapacity;
                            },
                            _ => {},
                        }
                        proof {
                            let nv = DisjointClosestPeersIterView { iters: bi.iters.update(i as int, it@), yielded: bi.yielded };
                            assert(v0.iters.update(i as int, it@) =~= bi.iters.update(i as int, it@));
                            assert(ask_path_once(v0, i as int, now) == (nv, Some(step@)));
                            vs = vs.push(nv);
                            last = step@;
                        }
                        break;
                    },
                    PeersIterState::Finished => {
                        proof {
                            let nv = DisjointClosestPeersIterView { iters: bi.iters.update(i as int, it@), yielded: bi.yielded };
                            assert(v0.iters.update(i as int, it@) =~= bi.iters.update(i as int, it@));
                            assert(ask_path_once(v0, i as int, now) == (nv, Some(step@)));
                            vs = vs.push(nv);
                            last = step@;
                        }
                        break;
                    },
                }
            }
            self.iters.insert(i, it);
            proof {
                assert(self.iters@ =~= cur.update(i as int, it));
                assert forall|j: int| 0 <= j < n implies (#[trigger] self.iters@[j]).wf() by {
                    if j != i {
                        assert(self.iters@[j] == cur[j]);
                    }
                }
                assert forall|j: int| 0 <= j < n implies (#[trigger] self@.iters[j]).config == before.iters[j].config by {
                    if j != i {
                        assert(self.iters@[j] == cur[j]);
                    }
                }
                assert(self@.iters[i as int] == it@);
                if state matches PeersIterState::Waiting(None) {
                    if state_in matches PeersIterState::Waiting(None) {
                        let j = choose|j: int| 0 <= j < i && #[trigger] busy(cur[j]@);
                        assert(self@.iters[j] == cur[j]@);
                        assert(busy(self@.iters[j]));
                    } else {
                        assert(busy(self@.iters[i as int]));
                    }
                }
                if state is WaitingAtCapacity {
                    if state_in is WaitingAtCapacity {
                        let j = choose|j: int| 0 <= j < i && (#[trigger] cur[j]@).state != State::Finished;
                        assert(self@.iters[j] == cur[j]@);
                        assert(self@.iters[j].state != State::Finished);
                    } else {
                        assert(self@.iters[i as int].state != State::Finished);
                    }
                }
                if state is Finished {
                    assert forall|j: int| 0 <= j < i + 1 implies (#[trigger] self@.iters[j]).state == State::Finished by {
                        if j != i {
                            assert(self.iters@[j] == cur[j]);
                        }
                    }
                }
                assert(self@.iters =~= bi.iters.update(i as int, it@));
                assert(self@ == vs.last());
                assert(path_asked(rs.last(), i as int, now, self@, last));
                let old_rs = rs;
                let old_sts = sts;
                rs = rs.push(self@);
                sts = sts.push(last);
                assert forall|m: int| 0 <= m < sts.len() implies #[trigger] path_asked(rs[m], m, now, rs[m + 1], sts[m]) by {
                    if m < old_sts.len() {
                        assert(rs[m] == old_rs[m] && rs[m + 1] == old_rs[m + 1] && sts[m] == old_sts[m]);
                    }
                }
                assert(sts.drop_last() =~= old_sts);
            }
            i += 1;
        }
        proof {
            assert(path_round(rs, sts, now));
            if forall|j: int| 0 <= j < n ==> (#[trigger] self@.iters[j]).state == State::Finished {
                if state matches PeersIterState::Waiting(None) {
                    let j = choose|j: int| 0 <= j < n && #[trigger] busy(self@.iters[j]);
                    assert(self@.iters[j].state == State::Finished);
                }
                if state is WaitingAtCapacity {
                    let j = choose|j: int| 0 <= j < n && (#[trigger] self@.iters[j]).state != State::Finished;
                }
            }
        }
        state
    }

    /// Immediately finishes every path.
    pub fn finish(&mut self)
        requires
            old(self).wf(),
        ensures
            final(self).wf(),
            final(self)@.yielded == old(self)@.yielded,
            final(self)@.iters.len() == old(self)@.iters.len(),
            forall|i: int| 0 <= i < final(self)@.iters.len() ==> #[trigger] final(self)@.iters[i] == (ClosestPeersIterView {
                state: State::Finished,
                ..old(self)@.iters[i]
            }),
    {
        let ghost before = self@;
        let n = self.iters.len();
        let mut i: usize = 0;
        while i < n
            invariant
                self.wf(),
                n == self.iters@.len(),
                self@.yielded == before.yielded,
                i <= n,
                before.iters.len() == n,
                forall|j: int| 0 <= j < i ==> #[trigger] self@.iters[j] == (ClosestPeersIterView {
                    state: State::Finished,
                    ..before.iters[j]
                }),
                forall|j: int| i <= j < n ==> #[trigger] self@.iters[j] == before.iters[j],
            decreases n - i,
        {
            let ghost cur = self.iters@;
            assert(cur[i as int].wf());
            assert forall|j: int| 0 <= j < n implies #[trigger] iter_views(cur)[j] == self@.iters[j] by {
            }
            let mut it = self.iters.remove(i);
            it.finish();
            self.iters.insert(i, it);
            proof {
                assert(self.iters@ =~= cur.update(i as int, it));
                assert forall|j: int| 0 <= j < n implies (#[trigger] self.iters@[j]).wf() by {
                    if j != i {
                        assert(self.iters@[j] == cur[j]);
                    }
                }
                assert(iter_views(self.iters@) =~= iter_views(cur).update(i as int, it@));
                assert(iter_views(cur)[i as int] == before.iters[i as int]);
                assert forall|j: int| 0 <= j < i + 1 implies #[trigger] self@.iters[j] == (ClosestPeersIterView {
                    state: State::Finished,
                    ..before.iters[j]
                }) by {
                    if j < i {
                        assert(self@.iters[j] == iter_views(cur)[j]);
                    }
                }
                assert forall|j: int| i + 1 <= j < n implies #[trigger] self@.iters[j] == before.iters[j] by {
                    assert(self@.iters[j] == iter_views(cur)[j]);
                }
            }
            i += 1;
        }
    }

    /// Consumes the iterator, returning the results of the paths one after
    /// the other.
    pub fn into_result(self) -> (r: Vec<Vec<u8>>)
        requires
            self.wf(),
        ensures
            byte_views(r@) == results_of(self@.iters),
    {
        let ghost vs = self@.iters;
        let mut iters = self.iters;
        let mut r: Vec<Vec<u8>> = Vec::new();
        let mut i: usize = 0;
        let n = iters.len();
        assert(byte_views(r@) =~= results_of(vs.take(0)));
        while iters.len() > 0
            invariant
                vs.len() == n,
                i + iters@.len() == n,
                forall|j: int| 0 <= j < iters@.len() ==> (#[trigger] iters@[j]).wf() && iters@[j]@ == vs[i + j],
                byte_views(r@) == results_of(vs.take(i as int)),
            decreases iters@.len(),
        {
            let ghost rest = iters@;
            let it = iters.remove(0);
            assert(it == rest[0]);
            assert forall|j: int| 0 <= j < iters@.len() implies (#[trigger] iters@[j]).wf() && iters@[j]@ == vs[i + 1 + j] by {
                assert(iters@[j] == rest[j + 1]);
            }
            let ghost v = it@;
            assert(v == vs[i as int]);
            let mut part = it.into_result();
            assert(byte_views(part@) =~= result_of(v));
            let ghost before_r = byte_views(r@);
            let ghost whole = result_of(v);
            let ghost mut k: int = 0;
            while part.len() > 0
                invariant
                    byte_views(r@) == before_r + whole.take(k),
                    byte_views(part@) == whole.skip(k),
                    0 <= k <= whole.len(),
                decreases part@.len(),
            {
                let ghost p0 = part@;
                assert(byte_views(p0).len() == p0.len());
                assert(byte_views(p0)[0] == p0[0]@);
                assert(k < whole.len());
                let x = part.remove(0);
                assert(x@ == whole[k]);
                let ghost r0 = r@;
                r.push(x);
                assert(byte_views(r@) =~= byte_views(r0).push(x@));
                assert(whole.take(k + 1) =~= whole.take(k).push(whole[k]));
                assert forall|a: int| 0 <= a < part@.len() implies #[trigger] byte_views(part@)[a] == whole.skip(k + 1)[a] by {
                    assert(part@[a] == p0[a + 1]);
                    assert(byte_views(p0)[a + 1] == p0[a + 1]@);
                }
                assert(byte_views(part@) =~= whole.skip(k + 1));
                proof {
                    k = k + 1;
                }
            }
            proof {
                assert(whole.take(k) =~= whole);
                assert(vs.take(i + 1).drop_last() =~= vs.take(i as int));
                assert(vs.take(i + 1).last() == vs[i as int]);
            }
            i += 1;
        }
        assert(vs.take(n as int) =~= vs);
        r
    }
}

} // verus!
