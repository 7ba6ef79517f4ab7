//! An iterator over the peers closest to a target, as a Kademlia lookup
//! contacts them.

use vstd::prelude::*;
use std::time::{Duration, Instant};
use crate::{ALPHA_VALUE, K_VALUE};
use crate::time::{duration_from_secs, instant_checked_add, instant_not_before, instant_ge, instant_plus};
use crate::kbucket::key::{Key, KeyBytes, Distance, KadKey, xor_bytes, lex_lt, lemma_key_bytes_len,
    lemma_lex_lt_value, lemma_lex_total, sha256_digest};
use crate::kbucket::closest::lemma_lex_asymmetric;
use crate::query::peers::{PeersIterState, IterStep};

pub mod disjoint;

verus! {

/// The configuration of a `ClosestPeersIter`.
#[derive(Debug, Clone, Copy)]
pub struct ClosestPeersIterConfig {
    /// The allowed level of parallelism: the `α` parameter of the Kademlia
    /// paper, the maximum number of peers waited for at a time while
    /// iterating towards the closest peers.
    pub parallelism: usize,
    /// The number of closest peers to look for, from which results must be
    /// obtained for the iterator to finish successfully.
    pub num_results: usize,
    /// The timeout for a single peer, after which it counts as
    /// unresponsive until it answers.
    pub peer_timeout: Duration,
    /// The number of disjoint paths to explore; `1` disables the feature.
    pub disjoint_paths: u8,
}

impl Default for ClosestPeersIterConfig {
    /// `ALPHA_VALUE` parallelism, `K_VALUE` results, a peer timeout of 10
    /// seconds and one path.
    fn default() -> (r: Self)
        ensures
            r.parallelism == ALPHA_VALUE,
            r.num_results == K_VALUE,
            r.disjoint_paths == 1,
    {
        ClosestPeersIterConfig {
            parallelism: ALPHA_VALUE,
            num_results: K_VALUE,
            peer_timeout: duration_from_secs(10),
            disjoint_paths: 1,
        }
    }
}

/// Identifies one of the disjoint paths of a query.
#[derive(Debug, Copy, Clone, PartialEq, Eq, Structural)]
pub struct PathId(pub u8);

/// The state of a single peer of the iterator.
#[derive(Debug, Copy, Clone, PartialEq, Eq)]
pub enum PeerState {
    /// The peer has not yet been contacted; it was reported on the given
    /// path, or known from the start.
    NotContacted(Option<PathId>),
    /// The iterator is waiting for a result from the peer until the
    /// deadline (`None`: a deadline too far to be represented), on the
    /// given path.
    Waiting((Option<Instant>, PathId)),
    /// A result was not delivered for the peer within the configured
    /// timeout. The peer is not taken into account for the termination
    /// conditions until and unless it responds.
    Unresponsive(PathId),
    /// Obtaining a result from the peer has failed.
    Failed,
    /// A successful result from the peer has been delivered.
    Succeeded,
}

/// The internal state of the iterator.
#[derive(Debug, PartialEq, Eq, Copy, Clone, Structural)]
pub enum State {
    /// Making progress towards the target, with the number of consecutive
    /// results that brought no progress.
    Iterating { no_progress: usize },
    /// No progress after `parallelism` consecutive results: up to
    /// `num_results` peers may be waited for at a time.
    Stalled,
    /// The iterator is finished.
    Finished,
}

/// A peer of the iterator, at its distance to the target.
#[derive(Debug, Clone)]
pub struct Peer {
    distance: Distance,
    key: Key,
    state: PeerState,
}

/// What the iterator knows of a peer: its distance to the target, its key
/// bytes, its identity and its state.
pub struct PeerView {
    pub distance: Seq<u8>,
    pub key: Seq<u8>,
    pub id: Seq<u8>,
    pub state: PeerState,
}

impl View for Peer {
    type V = PeerView;

    closed spec fn view(&self) -> PeerView {
        PeerView {
            distance: self.distance@,
            key: self.key.key_view(),
            id: self.key.spec_preimage(),
            state: self.state,
        }
    }
}

impl Peer {
    /// The key of the peer.
    pub fn key(&self) -> (r: &Key)
        ensures
            r.key_view() == self@.key,
            r.spec_preimage() == self@.id,
    {
        &self.key
    }

    /// The state of the peer.
    pub fn state(&self) -> (r: PeerState)
        ensures
            r == self@.state,
    {
        self.state
    }

    /// The distance of the peer to the target.
    pub fn distance(&self) -> (r: Distance)
        ensures
            r@ == self@.distance,
    {
        self.distance
    }
}

/// The views of a list of peers.
pub open spec fn peer_views(s: Seq<Peer>) -> Seq<PeerView> {
    s.map_values(|p: Peer| p@)
}

/// The number of peers of `s` that are waited for.
pub open spec fn count_waiting(s: Seq<PeerView>) -> nat
    decreases s.len(),
{
    if s.len() == 0 {
        0
    } else {
        count_waiting(s.drop_last()) + if s.last().state is Waiting { 1nat } else { 0nat }
    }
}

/// The peers are ordered by strictly increasing distance.
pub open spec fn sorted_strictly(s: Seq<PeerView>) -> bool {
    forall|i: int, j: int| 0 <= i < j < s.len() ==> lex_lt(#[trigger] s[i].distance, #[trigger] s[j].distance)
}

/// `k` is where a peer at distance `d` belongs in `s`: all peers before
/// are closer, none from `k` on is.
pub open spec fn is_slot(s: Seq<PeerView>, d: Seq<u8>, k: int) -> bool {
    &&& 0 <= k <= s.len()
    &&& forall|j: int| 0 <= j < k ==> lex_lt(#[trigger] s[j].distance, d)
    &&& forall|j: int| k <= j < s.len() ==> !lex_lt(#[trigger] s[j].distance, d)
}

/// Where a peer at distance `d` belongs in `s`.
pub open spec fn slot(s: Seq<PeerView>, d: Seq<u8>) -> int {
    choose|k: int| is_slot(s, d, k)
}

/// Whether a peer of `s` is at distance `d`.
pub open spec fn has_distance(s: Seq<PeerView>, d: Seq<u8>) -> bool {
    exists|i: int| 0 <= i < s.len() && #[trigger] s[i].distance == d
}

/// The position of the peer of `s` at distance `d`.
pub open spec fn index_of_distance(s: Seq<PeerView>, d: Seq<u8>) -> int {
    choose|i: int| 0 <= i < s.len() && #[trigger] s[i].distance == d
}

/// `s` with `p` in its place, unless a peer at its distance is there.
pub open spec fn with_new_peer(s: Seq<PeerView>, p: PeerView) -> Seq<PeerView> {
    if has_distance(s, p.distance) {
        s
    } else {
        s.insert(slot(s, p.distance), p)
    }
}

/// `s` with `p` in its place, replacing a peer at its distance.
pub open spec fn with_peer_replaced(s: Seq<PeerView>, p: PeerView) -> Seq<PeerView> {
    if has_distance(s, p.distance) {
        s.update(index_of_distance(s, p.distance), p)
    } else {
        s.insert(slot(s, p.distance), p)
    }
}

/// A peer not yet contacted, of key bytes `key` and identity `id`, at its
/// distance to `target`.
pub open spec fn fresh_peer(target: Seq<u8>, key: Seq<u8>, id: Seq<u8>, path: Option<PathId>) -> PeerView {
    PeerView { distance: xor_bytes(target, key), key, id, state: PeerState::NotContacted(path) }
}

/// The peers an iterator starts with: the given keys (key bytes and
/// identity), each at its distance, a later one replacing an earlier one at
/// the same distance.
pub open spec fn initial_peers(target: Seq<u8>, keys: Seq<(Seq<u8>, Seq<u8>)>) -> Seq<PeerView>
    decreases keys.len(),
{
    if keys.len() == 0 {
        Seq::empty()
    } else {
        with_peer_replaced(
            initial_peers(target, keys.drop_last()),
            fresh_peer(target, keys.last().0, keys.last().1, None),
        )
    }
}

/// The key bytes and identities of a list of keys.
pub open spec fn key_pairs(s: Seq<Key>) -> Seq<(Seq<u8>, Seq<u8>)> {
    s.map_values(|k: Key| (k.key_view(), k.spec_preimage()))
}

/// The path on which a peer that now answers was contacted: it was waited
/// for, or found unresponsive. Other peers' answers are ignored.
pub open spec fn answered_path(st: PeerState) -> Option<PathId> {
    match st {
        PeerState::Waiting((_, p)) => Some(p),
        PeerState::Unresponsive(p) => Some(p),
        _ => None,
    }
}

/// The key bytes and identities of reported peers.
pub open spec fn reported_pairs(s: Seq<Vec<u8>>) -> Seq<(Seq<u8>, Seq<u8>)> {
    s.map_values(|p: Vec<u8>| (sha256_digest(p@), p@))
}

/// The peers after adding each reported peer in turn, reported on `path`;
/// a peer already known at its distance is kept.
pub open spec fn with_reported(
    s: Seq<PeerView>,
    target: Seq<u8>,
    reported: Seq<(Seq<u8>, Seq<u8>)>,
    path: PathId,
) -> Seq<PeerView>
    decreases reported.len(),
{
    if reported.len() == 0 {
        s
    } else {
        with_new_peer(
            with_reported(s, target, reported.drop_last(), path),
            fresh_peer(target, reported.last().0, reported.last().1, Some(path)),
        )
    }
}

/// The state after a result that made progress or not: `parallelism`
/// results in a row without progress stall the iterator; progress resumes
/// the iteration.
pub open spec fn state_after_result(st: State, progress: bool, parallelism: usize) -> State {
    match st {
        State::Iterating { no_progress } => {
            let n = if progress { 0 } else { no_progress + 1 };
            if n >= parallelism {
                State::Stalled
            } else {
                State::Iterating { no_progress: n as usize }
            }
        },
        State::Stalled => if progress {
            State::Iterating { no_progress: 0 }
        } else {
            State::Stalled
        },
        State::Finished => State::Finished,
    }
}

/// The identities of the peers waited for, in order.
pub open spec fn waiting_ids(s: Seq<PeerView>) -> Seq<Seq<u8>>
    decreases s.len(),
{
    if s.len() == 0 {
        Seq::empty()
    } else if s.last().state is Waiting {
        waiting_ids(s.drop_last()).push(s.last().id)
    } else {
        waiting_ids(s.drop_last())
    }
}

/// The identities of the peers that answered successfully, in order.
pub open spec fn succeeded_ids(s: Seq<PeerView>) -> Seq<Seq<u8>>
    decreases s.len(),
{
    if s.len() == 0 {
        Seq::empty()
    } else if s.last().state is Succeeded {
        succeeded_ids(s.drop_last()).push(s.last().id)
    } else {
        succeeded_ids(s.drop_last())
    }
}

impl ClosestPeersIterView {
    /// The distance to the target of the peer of identity `peer`.
    pub open spec fn distance_of(self, peer: Seq<u8>) -> Seq<u8> {
        xor_bytes(self.target, sha256_digest(peer))
    }

    /// The iterator after `peer` answered with the peers `reported`: unless
    /// the iterator is finished, a peer waited for or unresponsive
    /// succeeds, the reported peers join the iterator on its path, and the
    /// state moves on by whether that brought progress: a reported peer
    /// (the last one) closest of all, or fewer than `num_results` peers
    /// known before.
    pub open spec fn after_success(self, peer: Seq<u8>, reported: Seq<(Seq<u8>, Seq<u8>)>) -> ClosestPeersIterView {
        let d = self.distance_of(peer);
        if self.state == State::Finished || !has_distance(self.peers, d) {
            self
        } else {
            let i = index_of_distance(self.peers, d);
            let old_state = self.peers[i].state;
            match answered_path(old_state) {
                None => self,
                Some(path) => {
                    let peers1 = self.peers.update(i, PeerView { state: PeerState::Succeeded, ..self.peers[i] });
                    let peers2 = with_reported(peers1, self.target, reported, path);
                    let progress = reported.len() > 0 && (peers2[0].distance == xor_bytes(
                        self.target,
                        reported.last().0,
                    ) || self.peers.len() < self.config.num_results);
                    ClosestPeersIterView {
                        peers: peers2,
                        num_waiting: if old_state is Waiting {
                            (self.num_waiting - 1) as nat
                        } else {
                            self.num_waiting
                        },
                        state: state_after_result(self.state, progress, self.config.parallelism),
                        ..self
                    }
                },
            }
        }
    }

    /// The iterator after a request to `peer` failed: unless the iterator
    /// is finished, a peer waited for or unresponsive fails.
    pub open spec fn after_failure(self, peer: Seq<u8>) -> ClosestPeersIterView {
        let d = self.distance_of(peer);
        if self.state == State::Finished || !has_distance(self.peers, d) {
            self
        } else {
            let i = index_of_distance(self.peers, d);
            let old_state = self.peers[i].state;
            if answered_path(old_state) is None {
                self
            } else {
                ClosestPeersIterView {
                    peers: self.peers.update(i, PeerView { state: PeerState::Failed, ..self.peers[i] }),
                    num_waiting: if old_state is Waiting {
                        (self.num_waiting - 1) as nat
                    } else {
                        self.num_waiting
                    },
                    ..self
                }
            }
        }
    }

    /// A finished iterator stays finished: results and failures delivered
    /// to it have no effect, and a step leaves it as it is.
    pub proof fn lemma_finished_is_final(self, peer: Seq<u8>, reported: Seq<(Seq<u8>, Seq<u8>)>, expired: Seq<bool>, deadline: Option<Instant>)
        requires
            self.state == State::Finished,
        ensures
            self.after_success(peer, reported) == self,
            self.after_failure(peer) == self,
            self.next_step(expired, deadline) == (self, IterStep::Finished),
    {
    }

    /// No peer is in the iterator twice: distinct positions hold distinct
    /// keys.
    pub proof fn lemma_no_duplicates(self)
        requires
            self.inv(),
        ensures
            forall|i: int, j: int| 0 <= i < j < self.peers.len() ==> #[trigger] self.peers[i].key != #[trigger] self.peers[j].key,
    {
        assert forall|i: int, j: int| 0 <= i < j < self.peers.len() implies #[trigger] self.peers[i].key != #[trigger] self.peers[j].key by {
            assert(lex_lt(self.peers[i].distance, self.peers[j].distance));
            assert(self.peers[i].distance == xor_bytes(self.target, self.peers[i].key));
            assert(self.peers[j].distance == xor_bytes(self.target, self.peers[j].key));
            if self.peers[i].key == self.peers[j].key {
                lemma_lex_asymmetric(self.peers[i].distance, self.peers[i].distance);
            }
        }
    }

    /// A step contacts a new peer only when the iterator is not at
    /// capacity, and then waits for at most one more peer than before.
    pub proof fn lemma_bounded_parallelism(self, expired: Seq<bool>, deadline: Option<Instant>)
        requires
            self.inv(),
            expired.len() == self.peers.len(),
        ensures
            self.next_step(expired, deadline).1 matches IterStep::Waiting(Some(_)) ==> {
                &&& !self.at_capacity()
                &&& self.next_step(expired, deadline).0.num_waiting <= self.num_waiting + 1
            },
    {
        let peers1 = timed_out(self.peers, expired, self.peers.len() as int);
        lemma_count_timed_out(self.peers, expired, self.peers.len() as int);
        let on_path = first_eligible(peers1, self.next_path, self.config.disjoint_paths == 1);
        if on_path is Some {
            let ign = self.config.disjoint_paths == 1;
            let k = choose|k: int| #[trigger] is_first_eligible(peers1, self.next_path, ign, k);
            lemma_first_eligible_exists(peers1, self.next_path, true, k);
        }
    }


    /// A step that asks for a request to a peer contacts one peer not yet
    /// contacted; a failure leaves the peers not yet contacted as they are.
    pub proof fn lemma_contact_progress(self, expired: Seq<bool>, deadline: Option<Instant>, peer: Seq<u8>)
        requires
            self.inv(),
            expired.len() == self.peers.len(),
        ensures
            self.next_step(expired, deadline).1 matches IterStep::Waiting(Some(_)) ==> count_not_contacted(
                self.next_step(expired, deadline).0.peers,
            ) < count_not_contacted(self.peers),
            count_not_contacted(self.after_failure(peer).peers) == count_not_contacted(self.peers),
            count_not_contacted(self.after_success(peer, Seq::empty()).peers) == count_not_contacted(self.peers),
    {
        let peers1 = timed_out(self.peers, expired, self.peers.len() as int);
        lemma_not_contacted_timed_out(self.peers, expired, self.peers.len() as int);
        let step = self.next_step(expired, deadline);
        if step.1 matches IterStep::Waiting(Some(_)) {
            let any = first_eligible(peers1, self.next_path, true);
            let on_path = first_eligible(peers1, self.next_path, self.config.disjoint_paths == 1);
            let k = if on_path is Some { on_path->0 } else { any->0 };
            assert(eligible(peers1[k].state, self.next_path, true) || eligible(peers1[k].state, self.next_path, false));
            lemma_not_contacted_update(
                peers1,
                k,
                PeerView { state: PeerState::Waiting((deadline, PathId(self.next_path))), ..peers1[k] },
            );
        }
        let d = self.distance_of(peer);
        if !(self.state == State::Finished || !has_distance(self.peers, d)) {
            let i = index_of_distance(self.peers, d);
            if answered_path(self.peers[i].state) is Some {
                lemma_not_contacted_update(self.peers, i, PeerView { state: PeerState::Failed, ..self.peers[i] });
                lemma_not_contacted_update(self.peers, i, PeerView { state: PeerState::Succeeded, ..self.peers[i] });
            }
        }
    }

    /// Whether the iterator waits for as many peers as it may: while
    /// stalled up to `num_results`, else up to `parallelism`.
    pub open spec fn at_capacity(self) -> bool {
        match self.state {
            State::Stalled => self.num_waiting >= self.config.num_results,
            State::Iterating { .. } => self.num_waiting >= self.config.parallelism,
            State::Finished => true,
        }
    }
}

/// Where the scan of the peers, from position `i` on, stops, and whether
/// it stops the iterator: a peer waited for that did not time out stops it
/// when the iterator is at capacity (`cap`); counting the successful peers
/// up to the first peer still waited for or not yet contacted, the one that
/// completes `n` results finishes the iterator. `count` is the number
/// counted so far, `None` once a peer is still waited for or not yet
/// contacted.
pub open spec fn scan_stop(
    peers: Seq<PeerView>,
    expired: Seq<bool>,
    cap: bool,
    n: usize,
    i: int,
    count: Option<nat>,
) -> Option<(int, bool)>
    decreases peers.len() - i,
{
    if i < 0 || i >= peers.len() {
        None
    } else {
        match peers[i].state {
            PeerState::Waiting(_) => if expired[i] {
                scan_stop(peers, expired, cap, n, i + 1, count)
            } else if cap {
                Some((i, false))
            } else {
                scan_stop(peers, expired, cap, n, i + 1, None)
            },
            PeerState::Succeeded => match count {
                Some(c) => if c + 1 >= n {
                    Some((i, true))
                } else {
                    scan_stop(peers, expired, cap, n, i + 1, Some(c + 1))
                },
                None => scan_stop(peers, expired, cap, n, i + 1, None),
            },
            PeerState::NotContacted(_) => scan_stop(peers, expired, cap, n, i + 1, None),
            _ => scan_stop(peers, expired, cap, n, i + 1, count),
        }
    }
}

impl PeerState {
    /// Whether the peer is waited for until a deadline.
    pub open spec fn has_deadline(self) -> bool {
        match self {
            PeerState::Waiting((Some(_), _)) => true,
            _ => false,
        }
    }
}

/// The state of a peer whose deadline passed: a peer waited for becomes
/// unresponsive on its path.
pub open spec fn time_out(st: PeerState) -> PeerState {
    match st {
        PeerState::Waiting((_, p)) => PeerState::Unresponsive(p),
        _ => st,
    }
}

/// Which of the peers `peers` are waited for with a deadline that is not
/// after `now`.
pub open spec fn expired_at(peers: Seq<PeerView>, now: Instant) -> Seq<bool> {
    Seq::new(
        peers.len(),
        |i: int|
            match peers[i].state {
                PeerState::Waiting((Some(t), _)) => instant_ge(now, t),
                _ => false,
            },
    )
}

/// The peers with the expired ones before position `end` timed out.
pub open spec fn timed_out(peers: Seq<PeerView>, expired: Seq<bool>, end: int) -> Seq<PeerView> {
    Seq::new(
        peers.len(),
        |i: int|
            if i < end && peers[i].state is Waiting && expired[i] {
                PeerView { state: time_out(peers[i].state), ..peers[i] }
            } else {
                peers[i]
            },
    )
}

/// Whether a peer in state `st` may be contacted next, on path `next`: it
/// was not contacted, and it has no path, or that path, or paths are
/// ignored.
pub open spec fn eligible(st: PeerState, next: u8, ignore: bool) -> bool {
    match st {
        PeerState::NotContacted(p) => ignore || p is None || p == Some(PathId(next)),
        _ => false,
    }
}

/// `k` is the first position of an eligible peer.
pub open spec fn is_first_eligible(s: Seq<PeerView>, next: u8, ignore: bool, k: int) -> bool {
    &&& 0 <= k < s.len()
    &&& eligible(s[k].state, next, ignore)
    &&& forall|j: int| 0 <= j < k ==> !eligible(#[trigger] s[j].state, next, ignore)
}

/// The first position of an eligible peer, if there is one.
pub open spec fn first_eligible(s: Seq<PeerView>, next: u8, ignore: bool) -> Option<int> {
    if exists|k: int| is_first_eligible(s, next, ignore, k) {
        Some(choose|k: int| is_first_eligible(s, next, ignore, k))
    } else {
        None
    }
}

impl ClosestPeersIterView {
    /// The iterator after a step, and what the step asks, given which
    /// peers' deadlines have passed (`expired`) and the deadline for a peer
    /// contacted now.
    ///
    /// A finished iterator stays so. Otherwise the peers are scanned by
    /// increasing distance: expired peers become unresponsive, and the scan
    /// may stop (see `scan_stop`). If it does not, the closest peer not yet
    /// contacted on the next path (or on no path, or, failing that, on any
    /// path) is contacted, unless the iterator is at capacity; with no peer
    /// to contact, the iterator waits while peers are waited for and
    /// finishes when none is.
    pub open spec fn next_step(self, expired: Seq<bool>, deadline: Option<Instant>) -> (ClosestPeersIterView, IterStep) {
        if self.state == State::Finished {
            (self, IterStep::Finished)
        } else {
            let cap = self.at_capacity();
            match scan_stop(self.peers, expired, cap, self.config.num_results, 0, Some(0)) {
                Some((i, fin)) => {
                    let peers1 = timed_out(self.peers, expired, i);
                    let v1 = ClosestPeersIterView { peers: peers1, num_waiting: count_waiting(peers1), ..self };
                    if fin {
                        (ClosestPeersIterView { state: State::Finished, ..v1 }, IterStep::Finished)
                    } else {
                        (v1, IterStep::WaitingAtCapacity)
                    }
                },
                None => {
                    let peers1 = timed_out(self.peers, expired, self.peers.len() as int);
                    let v1 = ClosestPeersIterView { peers: peers1, num_waiting: count_waiting(peers1), ..self };
                    let any = first_eligible(peers1, self.next_path, true);
                    let on_path = first_eligible(peers1, self.next_path, self.config.disjoint_paths == 1);
                    let pick = if on_path is Some { on_path } else { any };
                    if any is Some && cap {
                        (v1, IterStep::WaitingAtCapacity)
                    } else {
                        match pick {
                            Some(k) => {
                                let peers2 = peers1.update(
                                    k,
                                    PeerView { state: PeerState::Waiting((deadline, PathId(self.next_path))), ..peers1[k] },
                                );
                                (
                                    ClosestPeersIterView {
                                        peers: peers2,
                                        num_waiting: v1.num_waiting + 1,
                                        next_path: ((self.next_path + 1) % (self.config.disjoint_paths as int)) as u8,
                                        ..v1
                                    },
                                    IterStep::Waiting(Some(peers1[k].id)),
                                )
                            },
                            None => if v1.num_waiting > 0 {
                                (v1, IterStep::Waiting(None))
                            } else {
                                (ClosestPeersIterView { state: State::Finished, ..v1 }, IterStep::Finished)
                            },
                        }
                    }
                }
            }
        }
    }
}

/// A path is busy when it is not finished and waits for responses.
pub open spec fn busy(v: ClosestPeersIterView) -> bool {
    v.state != State::Finished && v.num_waiting > 0
}

/// What a step reports tells how the iterator stands after it: finished
/// exactly when the step says so; waiting for responses when the step
/// waits without a peer to contact.
pub proof fn lemma_step_state(v: ClosestPeersIterView, expired: Seq<bool>, deadline: Option<Instant>)
    ensures
        (v.next_step(expired, deadline).1 is Finished) == (v.next_step(expired, deadline).0.state == State::Finished),
        v.next_step(expired, deadline).1 == IterStep::Waiting(None) ==> busy(v.next_step(expired, deadline).0),
{
}

/// Where some peer is eligible, a first one is.
pub proof fn lemma_first_eligible_exists(s: Seq<PeerView>, next: u8, ignore: bool, k: int)
    requires
        0 <= k < s.len(),
        eligible(s[k].state, next, ignore) || eligible(s[k].state, next, false),
    ensures
        exists|f: int| is_first_eligible(s, next, ignore, f),
    decreases k,
{
    if exists|j: int| 0 <= j < k && eligible(#[trigger] s[j].state, next, ignore) {
        let j = choose|j: int| 0 <= j < k && eligible(#[trigger] s[j].state, next, ignore);
        lemma_first_eligible_exists(s, next, ignore, j);
    } else {
        assert(eligible(s[k].state, next, ignore));
        assert(is_first_eligible(s, next, ignore, k));
    }
}

/// The number of peers of `s` not yet contacted.
pub open spec fn count_not_contacted(s: Seq<PeerView>) -> nat
    decreases s.len(),
{
    if s.len() == 0 {
        0
    } else {
        count_not_contacted(s.drop_last()) + if s.last().state is NotContacted { 1nat } else { 0nat }
    }
}

/// The number of peers not yet contacted after a change of one peer's
/// state.
pub proof fn lemma_not_contacted_update(s: Seq<PeerView>, i: int, p: PeerView)
    requires
        0 <= i < s.len(),
    ensures
        count_not_contacted(s.update(i, p)) + (if s[i].state is NotContacted { 1int } else { 0int })
            == count_not_contacted(s) + (if p.state is NotContacted { 1int } else { 0int }),
    decreases s.len(),
{
    let t = s.update(i, p);
    if i == s.len() - 1 {
        assert(t.drop_last() =~= s.drop_last());
    } else {
        lemma_not_contacted_update(s.drop_last(), i, p);
        assert(t.drop_last() =~= s.drop_last().update(i, p));
    }
}

/// Timing peers out leaves the peers not yet contacted.
pub proof fn lemma_not_contacted_timed_out(s: Seq<PeerView>, expired: Seq<bool>, end: int)
    ensures
        count_not_contacted(timed_out(s, expired, end)) == count_not_contacted(s),
    decreases s.len(),
{
    let t = timed_out(s, expired, end);
    if s.len() > 0 {
        let s1 = s.drop_last();
        lemma_not_contacted_timed_out(s1, expired, end);
        assert(t.drop_last() =~= timed_out(s1, expired, end));
    }
}

/// Timing peers out does not add to the peers waited for.
pub proof fn lemma_count_timed_out(s: Seq<PeerView>, expired: Seq<bool>, end: int)
    ensures
        count_waiting(timed_out(s, expired, end)) <= count_waiting(s),
    decreases s.len(),
{
    let t = timed_out(s, expired, end);
    if s.len() > 0 {
        let s1 = s.drop_last();
        lemma_count_timed_out(s1, expired, end);
        assert(t.drop_last() =~= timed_out(s1, expired, end));
    }
}

/// What the iterator holds.
pub struct ClosestPeersIterView {
    pub config: ClosestPeersIterConfig,
    pub target: Seq<u8>,
    pub state: State,
    pub peers: Seq<PeerView>,
    pub num_waiting: nat,
    pub next_path: u8,
}

/// A peer iterator for a dynamically changing list of peers, sorted by
/// increasing distance to a chosen target.
#[derive(Debug, Clone)]
pub struct ClosestPeersIter {
    config: ClosestPeersIterConfig,
    target: KeyBytes,
    state: State,
    closest_peers: Vec<Peer>,
    num_waiting: usize,
    next_disjoint_path: PathId,
}

impl View for ClosestPeersIter {
    type V = ClosestPeersIterView;

    closed spec fn view(&self) -> ClosestPeersIterView {
        ClosestPeersIterView {
            config: self.config,
            target: self.target@,
            state: self.state,
            peers: peer_views(self.closest_peers@),
            num_waiting: self.num_waiting as nat,
            next_path: self.next_disjoint_path.0,
        }
    }
}

/// Lexicographic order on bytes of equal length is transitive.
pub proof fn lemma_lex_transitive(a: Seq<u8>, b: Seq<u8>, c: Seq<u8>)
    requires
        a.len() == b.len(),
        b.len() == c.len(),
        lex_lt(a, b),
        lex_lt(b, c),
    ensures
        lex_lt(a, c),
{
    lemma_lex_lt_value(a, b);
    lemma_lex_lt_value(b, c);
    if !lex_lt(a, c) {
        if lex_lt(c, a) {
            lemma_lex_lt_value(c, a);
        } else {
            lemma_lex_total(a, c);
        }
    }
}

impl ClosestPeersIterView {
    /// The iterator's invariant: peers at their distance to the target, in
    /// increasing order; `num_waiting` of them waited for; a next path below
    /// the number of paths; no more consecutive results without progress
    /// than the parallelism allows.
    pub open spec fn inv(self) -> bool {
        &&& self.target.len() == 32
        &&& sorted_strictly(self.peers)
        &&& forall|i: int| 0 <= i < self.peers.len() ==> #[trigger] self.peers[i].distance == xor_bytes(
            self.target,
            self.peers[i].key,
        )
        &&& forall|i: int| 0 <= i < self.peers.len() ==> (#[trigger] self.peers[i].key).len() == 32
        &&& self.num_waiting == count_waiting(self.peers)
        &&& 1 <= self.config.disjoint_paths
        &&& self.next_path < self.config.disjoint_paths
        &&& (self.state matches State::Iterating { no_progress } ==> no_progress == 0
            || no_progress < self.config.parallelism)
    }
}

/// In a list ordered by distance, the first peer not closer than `d` is
/// where `d` belongs.
pub proof fn lemma_slot(s: Seq<PeerView>, d: Seq<u8>, k: int)
    requires
        sorted_strictly(s),
        d.len() == 32,
        forall|i: int| 0 <= i < s.len() ==> (#[trigger] s[i].distance).len() == 32,
        0 <= k <= s.len(),
        forall|j: int| 0 <= j < k ==> lex_lt(#[trigger] s[j].distance, d),
        k < s.len() ==> !lex_lt(s[k].distance, d),
    ensures
        is_slot(s, d, k),
        slot(s, d) == k,
{
    assert forall|j: int| k <= j < s.len() implies !lex_lt(#[trigger] s[j].distance, d) by {
        if j > k && lex_lt(s[j].distance, d) {
            assert(lex_lt(s[k].distance, s[j].distance));
            lemma_lex_transitive(s[k].distance, s[j].distance, d);
        }
    }
    assert(is_slot(s, d, k));
    let k2 = slot(s, d);
    assert(is_slot(s, d, k2));
    if k2 < k {
        assert(lex_lt(s[k2].distance, d));
    } else if k2 > k {
        assert(lex_lt(s[k].distance, d));
    }
}

/// In a list ordered by distance, at most one peer is at a distance.
pub proof fn lemma_distance_unique(s: Seq<PeerView>, i: int)
    requires
        sorted_strictly(s),
        forall|j: int| 0 <= j < s.len() ==> (#[trigger] s[j].distance).len() == 32,
        0 <= i < s.len(),
    ensures
        has_distance(s, s[i].distance),
        index_of_distance(s, s[i].distance) == i,
{
    let d = s[i].distance;
    assert(s[i].distance == d);
    let j = index_of_distance(s, d);
    if j < i {
        assert(lex_lt(s[j].distance, s[i].distance));
        lemma_lex_asymmetric(d, d);
    } else if j > i {
        assert(lex_lt(s[i].distance, s[j].distance));
        lemma_lex_asymmetric(d, d);
    }
}

/// Inserting a peer where it belongs keeps the list ordered.
pub proof fn lemma_insert_sorted(s: Seq<PeerView>, p: PeerView, k: int)
    requires
        sorted_strictly(s),
        is_slot(s, p.distance, k),
        !has_distance(s, p.distance),
        p.distance.len() == 32,
        forall|j: int| 0 <= j < s.len() ==> (#[trigger] s[j].distance).len() == 32,
    ensures
        sorted_strictly(s.insert(k, p)),
{
    let t = s.insert(k, p);
    assert forall|i: int, j: int| 0 <= i < j < t.len() implies lex_lt(#[trigger] t[i].distance, #[trigger] t[j].distance) by {
        if j < k {
            assert(t[i] == s[i] && t[j] == s[j]);
        } else if j == k {
            assert(t[i] == s[i]);
        } else if i < k {
            assert(t[i] == s[i] && t[j] == s[j - 1]);
            assert(lex_lt(s[i].distance, p.distance));
            assert(!lex_lt(s[j - 1].distance, p.distance));
            assert(s[j - 1].distance != p.distance);
            if !lex_lt(p.distance, s[j - 1].distance) {
                lemma_lex_total(p.distance, s[j - 1].distance);
            }
            lemma_lex_transitive(s[i].distance, p.distance, s[j - 1].distance);
        } else if i == k {
            assert(t[j] == s[j - 1]);
            assert(!lex_lt(s[j - 1].distance, p.distance));
            assert(s[j - 1].distance != p.distance);
            if !lex_lt(p.distance, s[j - 1].distance) {
                lemma_lex_total(p.distance, s[j - 1].distance);
            }
        } else {
            assert(t[i] == s[i - 1] && t[j] == s[j - 1]);
        }
    }
}

/// The number of waited-for peers after a change of one peer's state.
pub proof fn lemma_count_update(s: Seq<PeerView>, i: int, p: PeerView)
    requires
        0 <= i < s.len(),
    ensures
        count_waiting(s.update(i, p)) + (if s[i].state is Waiting { 1int } else { 0int }) == count_waiting(s)
            + (if p.state is Waiting { 1int } else { 0int }),
    decreases s.len(),
{
    let t = s.update(i, p);
    if i == s.len() - 1 {
        assert(t.drop_last() =~= s.drop_last());
    } else {
        lemma_count_update(s.drop_last(), i, p);
        assert(t.drop_last() =~= s.drop_last().update(i, p));
    }
}

/// The number of waited-for peers after inserting a peer.
pub proof fn lemma_count_insert(s: Seq<PeerView>, k: int, p: PeerView)
    requires
        0 <= k <= s.len(),
    ensures
        count_waiting(s.insert(k, p)) == count_waiting(s) + (if p.state is Waiting { 1int } else { 0int }),
    decreases s.len(),
{
    let t = s.insert(k, p);
    if k == s.len() {
        assert(t.drop_last() =~= s);
    } else {
        lemma_count_insert(s.drop_last(), k, p);
        assert(t.drop_last() =~= s.drop_last().insert(k, p));
    }
}

impl ClosestPeersIter {
    /// The iterator keeps its invariant.
    pub closed spec fn wf(&self) -> bool {
        self@.inv()
    }

    /// The iterator keeps the invariant of its view.
    pub proof fn lemma_inv(&self)
        requires
            self.wf(),
        ensures
            self@.inv(),
    {
    }

    /// Finds where a peer at distance `d` belongs, and whether a peer is at
    /// that distance.
    fn find_slot(&self, d: &Distance) -> (r: (usize, bool))
        requires
            self.wf(),
            d@.len() == 32,
        ensures
            is_slot(self@.peers, d@, r.0 as int),
            slot(self@.peers, d@) == r.0,
            r.1 == has_distance(self@.peers, d@),
            r.1 ==> r.0 < self@.peers.len() && self@.peers[r.0 as int].distance == d@
                && index_of_distance(self@.peers, d@) == r.0,
    {
        let ghost s = self@.peers;
        let mut i: usize = 0;
        while i < self.closest_peers.len()
            invariant
                self.wf(),
                s == self@.peers,
                d@.len() == 32,
                i <= s.len(),
                forall|j: int| 0 <= j < i ==> lex_lt(#[trigger] s[j].distance, d@),
            ensures
                i <= s.len(),
                forall|j: int| 0 <= j < i ==> lex_lt(#[trigger] s[j].distance, d@),
                i < s.len() ==> !lex_lt(s[i as int].distance, d@),
            decreases s.len() - i,
        {
            assert(s[i as int] == self.closest_peers@[i as int]@);
            if !self.closest_peers[i].distance.lt(d) {
                break;
            }
            i += 1;
        }
        proof {
            assert forall|j: int| 0 <= j < s.len() implies (#[trigger] s[j].distance).len() == 32 by {
                assert(s[j].distance == xor_bytes(self@.target, s[j].key));
            }
            lemma_slot(s, d@, i as int);
        }
        if i < self.closest_peers.len() {
            let found = self.closest_peers[i].distance.same_as(d);
            proof {
                assert(s[i as int] == self.closest_peers@[i as int]@);
                if found {
                    lemma_distance_unique(s, i as int);
                } else {
                    if has_distance(s, d@) {
                        let j = index_of_distance(s, d@);
                        if j < i {
                            lemma_lex_asymmetric(d@, d@);
                        } else if j > i {
                            assert(lex_lt(s[i as int].distance, s[j].distance));
                            if !lex_lt(d@, s[i as int].distance) {
                                lemma_lex_total(d@, s[i as int].distance);
                            }
                            lemma_lex_asymmetric(d@, s[i as int].distance);
                        }
                    }
                }
            }
            (i, found)
        } else {
            proof {
                if has_distance(s, d@) {
                    let j = index_of_distance(s, d@);
                    lemma_lex_asymmetric(d@, d@);
                }
            }
            (i, false)
        }
    }

    /// Adds a peer of key `key`, not yet contacted, reported on `path`: it
    /// replaces a peer at its distance where `replace` is set, else such a
    /// peer is kept.
    fn add_peer(&mut self, key: Key, path: Option<PathId>, replace: bool) -> (r: Distance)
        requires
            old(self).wf(),
            key.key_view().len() == 32,
            replace ==> forall|i: int|
                0 <= i < old(self)@.peers.len() ==> !((#[trigger] old(self)@.peers[i]).state is Waiting),
        ensures
            final(self).wf(),
            r@ == xor_bytes(old(self)@.target, key.key_view()),
            is_slot(old(self)@.peers, r@, slot(old(self)@.peers, r@)),
            final(self)@ == (ClosestPeersIterView {
                peers: if replace {
                    with_peer_replaced(old(self)@.peers, fresh_peer(old(self)@.target, key.key_view(), key.spec_preimage(), path))
                } else {
                    with_new_peer(old(self)@.peers, fresh_peer(old(self)@.target, key.key_view(), key.spec_preimage(), path))
                },
                ..old(self)@
            }),
    {
        let ghost before = self@;
        let ghost s = self@.peers;
        proof {
            lemma_key_bytes_len(self.target);
        }
        let d = self.target.distance(&key);
        let ghost p = fresh_peer(before.target, key.key_view(), key.spec_preimage(), path);
        let (k, found) = self.find_slot(&d);
        let peer = Peer { distance: d, key, state: PeerState::NotContacted(path) };
        assert(peer@ == p);
        proof {
            assert forall|j: int| 0 <= j < s.len() implies (#[trigger] s[j].distance).len() == 32 by {
                assert(s[j].distance == xor_bytes(before.target, s[j].key));
            }
        }
        if found {
            if replace {
                proof {
                    lemma_count_update(s, k as int, p);
                }
                self.closest_peers.set(k, peer);
                assert(peer_views(self.closest_peers@) =~= s.update(k as int, p));
                assert(self@.peers == with_peer_replaced(s, p));
                assert(sorted_strictly(self@.peers)) by {
                    assert forall|i: int, j: int| 0 <= i < j < self@.peers.len() implies lex_lt(
                        #[trigger] self@.peers[i].distance,
                        #[trigger] self@.peers[j].distance,
                    ) by {
                        assert(s[i].distance == self@.peers[i].distance);
                        assert(s[j].distance == self@.peers[j].distance);
                    }
                }
            }
        } else {
            proof {
                lemma_insert_sorted(s, p, k as int);
                lemma_count_insert(s, k as int, p);
            }
            self.closest_peers.insert(k, peer);
            assert(peer_views(self.closest_peers@) =~= s.insert(k as int, p));
            proof {
                let t = self@.peers;
                assert forall|i: int| 0 <= i < t.len() implies #[trigger] t[i].distance == xor_bytes(
                    before.target,
                    t[i].key,
                ) && t[i].key.len() == 32 by {
                    if i < k {
                        assert(t[i] == s[i]);
                    } else if i > k {
                        assert(t[i] == s[i - 1]);
                    }
                }
            }
        }
        d
    }

    /// Creates a new iterator with the given configuration, starting from
    /// the first `num_results` of the known peers, not yet contacted.
    pub fn with_config(config: ClosestPeersIterConfig, target: KeyBytes, known_closest_peers: Vec<Key>) -> (r: Self)
        requires
            1 <= config.disjoint_paths,
        ensures
            r.wf(),
            r@.config == config,
            r@.target == target@,
            r@.state == (State::Iterating { no_progress: 0 }),
            r@.num_waiting == 0,
            r@.next_path == 0,
            r@.peers == initial_peers(
                target@,
                key_pairs(known_closest_peers@).take(
                    if known_closest_peers@.len() < config.num_results { known_closest_peers@.len() as int } else { config.num_results as int },
                ),
            ),
    {
        proof {
            lemma_key_bytes_len(target);
        }
        let mut it = ClosestPeersIter {
            config,
            target,
            state: State::Iterating { no_progress: 0 },
            closest_peers: Vec::new(),
            num_waiting: 0,
            next_disjoint_path: PathId(0),
        };
        let ghost pairs = key_pairs(known_closest_peers@);
        assert(it@.peers =~= initial_peers(target@, pairs.take(0)));
        let n = if known_closest_peers.len() < config.num_results { known_closest_peers.len() } else { config.num_results };
        let mut keys = known_closest_peers;
        let ghost orig = keys@;
        let mut i: usize = 0;
        while i < n
            invariant
                it.wf(),
                it@.config == config,
                it@.target == target@,
                it@.state == (State::Iterating { no_progress: 0 }),
                it@.num_waiting == 0,
                it@.next_path == 0,
                pairs == key_pairs(orig),
                n <= orig.len(),
                i <= n,
                keys@ == orig.subrange(i as int, orig.len() as int),
                forall|j: int| 0 <= j < it@.peers.len() ==> (#[trigger] it@.peers[j]).state is NotContacted,
                it@.peers == initial_peers(target@, pairs.take(i as int)),
            decreases n - i,
        {
            let key = keys.remove(0);
            assert(key == orig[i as int]);
            proof {
                key.lemma_key_view_len();
            }
            let ghost before = it@.peers;
            let ghost p = fresh_peer(target@, key.key_view(), key.spec_preimage(), None);
            it.add_peer(key, None, true);
            proof {
                assert(pairs.take(i + 1).drop_last() =~= pairs.take(i as int));
                assert(pairs.take(i + 1).last() == (orig[i as int].key_view(), orig[i as int].spec_preimage()));
                let t = it@.peers;
                assert(t == with_peer_replaced(before, p));
                assert forall|j: int| 0 <= j < t.len() implies (#[trigger] t[j]).state is NotContacted by {
                    if has_distance(before, p.distance) {
                        let x = index_of_distance(before, p.distance);
                        assert(0 <= x < before.len());
                        assert(t == before.update(x, p));
                        if j != x {
                            assert(t[j] == before[j]);
                        }
                    } else {
                        let k = slot(before, p.distance);
                        if j < k {
                            assert(t[j] == before[j]);
                        } else if j > k {
                            assert(t[j] == before[j - 1]);
                        }
                    }
                }
            }
            i += 1;
        }
        it
    }

    /// Creates a new iterator with a default configuration.
    pub fn new(target: KeyBytes, known_closest_peers: Vec<Key>) -> (r: Self)
        ensures
            r.wf(),
            r@.config.parallelism == ALPHA_VALUE,
            r@.config.num_results == K_VALUE,
            r@.config.disjoint_paths == 1,
            r@.target == target@,
            r@.state == (State::Iterating { no_progress: 0 }),
            r@.num_waiting == 0,
            r@.next_path == 0,
            r@.peers == initial_peers(
                target@,
                key_pairs(known_closest_peers@).take(
                    if known_closest_peers@.len() < K_VALUE { known_closest_peers@.len() as int } else { K_VALUE as int },
                ),
            ),
    {
        Self::with_config(ClosestPeersIterConfig::default(), target, known_closest_peers)
    }

    /// The configuration of the iterator.
    pub fn config(&self) -> (r: &ClosestPeersIterConfig)
        ensures
            *r == self@.config,
    {
        &self.config
    }

    /// The target of the iterator.
    pub fn target(&self) -> (r: &KeyBytes)
        ensures
            r@ == self@.target,
    {
        &self.target
    }

    /// The internal state of the iterator.
    pub fn state(&self) -> (r: State)
        ensures
            r == self@.state,
    {
        self.state
    }

    /// The peers of the iterator, by increasing distance to the target.
    pub fn closest_peers(&self) -> (r: &[Peer])
        ensures
            peer_views(r@) == self@.peers,
    {
        self.closest_peers.as_slice()
    }

    /// Returns the number of peers for which the iterator is currently
    /// waiting for results.
    pub fn num_waiting(&self) -> (r: usize)
        ensures
            r == self@.num_waiting,
    {
        self.num_waiting
    }

    /// Immediately transitions the iterator to the finished state.
    pub fn finish(&mut self)
        requires
            old(self).wf(),
        ensures
            final(self).wf(),
            final(self)@ == (ClosestPeersIterView { state: State::Finished, ..old(self)@ }),
    {
        self.state = State::Finished;
    }

    /// Checks whether the iterator has finished.
    pub fn finished(&self) -> (r: bool)
        ensures
            r == (self@.state == State::Finished),
    {
        matches!(self.state, State::Finished)
    }

    /// Sets the state of the peer at `i`, keeping the count of peers waited
    /// for.
    fn set_peer_state(&mut self, i: usize, st: PeerState)
        requires
            old(self).wf(),
            i < old(self)@.peers.len(),
            old(self)@.peers[i as int].state is Waiting ==> old(self).num_waiting >= 1,
            st is Waiting ==> old(self).num_waiting < usize::MAX,
        ensures
            final(self).wf(),
            final(self)@ == (ClosestPeersIterView {
                peers: old(self)@.peers.update(i as int, PeerView { state: st, ..old(self)@.peers[i as int] }),
                num_waiting: (old(self)@.num_waiting - (if old(self)@.peers[i as int].state is Waiting { 1int } else { 0int })
                    + (if st is Waiting { 1int } else { 0int })) as nat,
                ..old(self)@
            }),
    {
        let ghost s = self@.peers;
        let ghost p = PeerView { state: st, ..s[i as int] };
        proof {
            lemma_count_update(s, i as int, p);
        }
        let was_waiting = matches!(self.closest_peers[i].state, PeerState::Waiting(_));
        assert(was_waiting == (s[i as int].state is Waiting));
        let mut peer = self.closest_peers.remove(i);
        peer.state = st;
        self.closest_peers.insert(i, peer);
        if was_waiting {
            self.num_waiting = self.num_waiting - 1;
        }
        if matches!(st, PeerState::Waiting(_)) {
            self.num_waiting = self.num_waiting + 1;
        }
        assert(peer_views(self.closest_peers@) =~= s.update(i as int, p));
        assert(sorted_strictly(self@.peers)) by {
            assert forall|a: int, b: int| 0 <= a < b < self@.peers.len() implies lex_lt(
                #[trigger] self@.peers[a].distance,
                #[trigger] self@.peers[b].distance,
            ) by {
                assert(s[a].distance == self@.peers[a].distance);
                assert(s[b].distance == self@.peers[b].distance);
            }
        }
    }

    /// The count of peers waited for is at least one where one is.
    proof fn lemma_count_positive(s: Seq<PeerView>, i: int)
        requires
            0 <= i < s.len(),
            s[i].state is Waiting,
        ensures
            count_waiting(s) >= 1,
    {
        lemma_count_update(s, i, PeerView { state: PeerState::Failed, ..s[i] });
    }

    /// Callback for delivering the result of a successful request to a
    /// peer that the iterator is waiting on, with the peers it reported as
    /// closer to the target.
    ///
    /// If the iterator is finished, or is not waiting for a result from
    /// `peer` (and did not find it unresponsive), this has no effect.
    pub fn on_success(&mut self, peer: &Vec<u8>, closer_peers: Vec<Vec<u8>>)
        requires
            old(self).wf(),
        ensures
            final(self).wf(),
            final(self)@ == old(self)@.after_success(peer@, reported_pairs(closer_peers@)),
    {
        let ghost before = self@;
        if matches!(self.state, State::Finished) {
            return;
        }
        let key = Key::new(crate::record::copy_bytes(peer));
        proof {
            key.lemma_key_view_len();
            lemma_key_bytes_len(self.target);
        }
        let distance = self.target.distance(&key);
        let (i, found) = self.find_slot(&distance);
        if !found {
            return;
        }
        let path_id = match self.closest_peers[i].state {
            PeerState::Waiting((_, path)) => path,
            PeerState::Unresponsive(path) => path,
            _ => {
                return;
            },
        };
        assert(before.peers[i as int] == self.closest_peers@[i as int]@);
        proof {
            if before.peers[i as int].state is Waiting {
                Self::lemma_count_positive(before.peers, i as int);
            }
        }
        self.set_peer_state(i, PeerState::Succeeded);
        let ghost peers1 = self@.peers;
        let ghost mid = self@;
        let ghost reported = reported_pairs(closer_peers@);
        let num_closest = self.closest_peers.len();
        let mut progress = false;
        let mut j: usize = 0;
        while j < closer_peers.len()
            invariant
                self.wf(),
                self@ == (ClosestPeersIterView {
                    peers: with_reported(peers1, before.target, reported.take(j as int), path_id),
                    ..mid
                }),
                mid.target == before.target,
                mid.config == before.config,
                num_closest == before.peers.len(),
                reported == reported_pairs(closer_peers@),
                j <= closer_peers@.len(),
                progress == (j > 0 && (self@.peers[0].distance == xor_bytes(before.target, reported[j - 1].0)
                    || num_closest < before.config.num_results)),
            decreases closer_peers@.len() - j,
        {
            let k = Key::new(crate::record::copy_bytes(&closer_peers[j]));
            proof {
                k.lemma_key_view_len();
            }
            let d = self.add_peer(k, Some(path_id), false);
            proof {
                assert(reported.take(j + 1).drop_last() =~= reported.take(j as int));
                assert(reported[j as int] == (sha256_digest(closer_peers@[j as int]@), closer_peers@[j as int]@));
            }
            assert(self@.peers.len() > 0) by {
                let s0 = with_reported(peers1, before.target, reported.take(j as int), path_id);
                let pv = fresh_peer(before.target, reported[j as int].0, reported[j as int].1, Some(path_id));
                if !has_distance(s0, pv.distance) {
                    assert(self@.peers == s0.insert(slot(s0, pv.distance), pv));
                }
            }
            assert(self.closest_peers@[0]@ == self@.peers[0]);
            progress = self.closest_peers[0].distance.same_as(&d) || num_closest < self.config.num_results;
            j += 1;
        }
        assert(reported.take(closer_peers@.len() as int) =~= reported);
        let new_state = match self.state {
            State::Iterating { no_progress } => {
                let n = if progress { 0 } else { no_progress + 1 };
                if n >= self.config.parallelism {
                    State::Stalled
                } else {
                    State::Iterating { no_progress: n }
                }
            },
            State::Stalled => if progress {
                State::Iterating { no_progress: 0 }
            } else {
                State::Stalled
            },
            State::Finished => State::Finished,
        };
        self.state = new_state;
        assert(self@ == before.after_success(peer@, reported));
    }

    /// Callback for informing the iterator about a failed request to a
    /// peer that the iterator is waiting on.
    ///
    /// If the iterator is finished, or is not waiting for a result from
    /// `peer` (and did not find it unresponsive), this has no effect.
    pub fn on_failure(&mut self, peer: &Vec<u8>)
        requires
            old(self).wf(),
        ensures
            final(self).wf(),
            final(self)@ == old(self)@.after_failure(peer@),
    {
        let ghost before = self@;
        if matches!(self.state, State::Finished) {
            return;
        }
        let key = Key::new(crate::record::copy_bytes(peer));
        proof {
            key.lemma_key_view_len();
            lemma_key_bytes_len(self.target);
        }
        let distance = self.target.distance(&key);
        let (i, found) = self.find_slot(&distance);
        if !found {
            return;
        }
        let answered = match self.closest_peers[i].state {
            PeerState::Waiting(_) => true,
            PeerState::Unresponsive(_) => true,
            _ => false,
        };
        assert(before.peers[i as int] == self.closest_peers@[i as int]@);
        if answered {
            proof {
                if before.peers[i as int].state is Waiting {
                    Self::lemma_count_positive(before.peers, i as int);
                }
            }
            self.set_peer_state(i, PeerState::Failed);
        }
    }

    /// Returns the peers for which the iterator is currently waiting for
    /// results, by increasing distance to the target.
    pub fn waiting(&self) -> (r: Vec<&Vec<u8>>)
        requires
            self.wf(),
        ensures
            r@.len() == waiting_ids(self@.peers).len(),
            forall|i: int| 0 <= i < r@.len() ==> (#[trigger] r@[i])@ == waiting_ids(self@.peers)[i],
    {
        let ghost s = self@.peers;
        let mut r: Vec<&Vec<u8>> = Vec::new();
        let mut i: usize = 0;
        while i < self.closest_peers.len()
            invariant
                s == self@.peers,
                i <= s.len(),
                r@.len() == waiting_ids(s.take(i as int)).len(),
                forall|a: int| 0 <= a < r@.len() ==> (#[trigger] r@[a])@ == waiting_ids(s.take(i as int))[a],
            decreases s.len() - i,
        {
            assert(s.take(i + 1).drop_last() =~= s.take(i as int));
            assert(self.closest_peers@[i as int]@ == s[i as int]);
            if matches!(self.closest_peers[i].state, PeerState::Waiting(_)) {
                r.push(self.closest_peers[i].key.preimage());
            }
            i += 1;
        }
        assert(s.take(s.len() as int) =~= s);
        r
    }

    /// Returns true if the iterator is waiting for a response from the
    /// given peer.
    pub fn is_waiting(&self, peer: &Vec<u8>) -> (r: bool)
        requires
            self.wf(),
        ensures
            r == waiting_ids(self@.peers).contains(peer@),
    {
        let w = self.waiting();
        let ghost ids = waiting_ids(self@.peers);
        let mut found = false;
        let mut i: usize = 0;
        while i < w.len()
            invariant
                w@.len() == ids.len(),
                forall|a: int| 0 <= a < w@.len() ==> (#[trigger] w@[a])@ == ids[a],
                i <= w@.len(),
                found == (exists|a: int| 0 <= a < i && ids[a] == peer@),
            decreases w@.len() - i,
        {
            let same = crate::addresses::same_bytes(w[i], peer);
            assert(w@[i as int]@ == ids[i as int]);
            found = found || same;
            i += 1;
        }
        found
    }

    /// Checks if the iterator is at capacity w.r.t. the permitted
    /// parallelism.
    ///
    /// While the iterator is stalled, up to `num_results` parallel requests
    /// are allowed. This is a slightly more permissive variant of the
    /// requirement that the initiator "resends the FIND_NODE to all of the
    /// k closest nodes it has not already queried".
    pub fn at_capacity(&self) -> (r: bool)
        ensures
            r == self@.at_capacity(),
    {
        match self.state {
            State::Stalled => self.num_waiting >= self.config.num_results,
            State::Iterating { .. } => self.num_waiting >= self.config.parallelism,
            State::Finished => true,
        }
    }

    /// Consumes the iterator, returning the closest peers that answered
    /// successfully, at most `num_results` of them, by increasing distance.
    pub fn into_result(self) -> (r: Vec<Vec<u8>>)
        requires
            self.wf(),
        ensures
            r@.len() == (if succeeded_ids(self@.peers).len() < self@.config.num_results {
                succeeded_ids(self@.peers).len()
            } else {
                self@.config.num_results as nat
            }),
            forall|i: int| 0 <= i < r@.len() ==> (#[trigger] r@[i])@ == succeeded_ids(self@.peers)[i],
    {
        let ghost s = self@.peers;
        let n = self.config.num_results;
        let mut r: Vec<Vec<u8>> = Vec::new();
        let mut i: usize = 0;
        while i < self.closest_peers.len() && r.len() < n
            invariant
                s == self@.peers,
                n == self@.config.num_results,
                i <= s.len(),
                r@.len() <= n,
                r@.len() == succeeded_ids(s.take(i as int)).len(),
                forall|a: int| 0 <= a < r@.len() ==> (#[trigger] r@[a])@ == succeeded_ids(s.take(i as int))[a],
            decreases s.len() - i,
        {
            assert(s.take(i + 1).drop_last() =~= s.take(i as int));
            assert(self.closest_peers@[i as int]@ == s[i as int]);
            if matches!(self.closest_peers[i].state, PeerState::Succeeded) {
                r.push(crate::record::copy_bytes(self.closest_peers[i].key.preimage()));
            }
            i += 1;
        }
        proof {
            Self::lemma_succeeded_prefix(s, i as int);
            if i == s.len() {
                assert(s.take(s.len() as int) =~= s);
            }
        }
        r
    }

    /// The successful peers of a prefix are a prefix of those of the whole.
    proof fn lemma_succeeded_prefix(s: Seq<PeerView>, i: int)
        requires
            0 <= i <= s.len(),
        ensures
            succeeded_ids(s.take(i)).len() <= succeeded_ids(s).len(),
            forall|a: int| 0 <= a < succeeded_ids(s.take(i)).len() ==> succeeded_ids(s.take(i))[a]
                == succeeded_ids(s)[a],
        decreases s.len() - i,
    {
        if i < s.len() {
            Self::lemma_succeeded_prefix(s, i + 1);
            assert(s.take(i + 1).drop_last() =~= s.take(i));
        } else {
            assert(s.take(i) =~= s);
        }
    }

    /// No more peers are waited for than there are peers, and fewer where
    /// one is not waited for.
    proof fn lemma_count_le(s: Seq<PeerView>)
        ensures
            count_waiting(s) <= s.len(),
            (exists|i: int| 0 <= i < s.len() && !(#[trigger] s[i].state is Waiting)) ==> count_waiting(s) < s.len(),
        decreases s.len(),
    {
        if s.len() > 0 {
            Self::lemma_count_le(s.drop_last());
            if exists|i: int| 0 <= i < s.len() && !(#[trigger] s[i].state is Waiting) {
                let i = choose|i: int| 0 <= i < s.len() && !(#[trigger] s[i].state is Waiting);
                if i < s.len() - 1 {
                    assert(s.drop_last()[i] == s[i]);
                }
            }
        }
    }

    /// The first peer that is eligible, if there is one.
    fn first_eligible_pos(&self, next: u8, ignore: bool) -> (r: Option<usize>)
        ensures
            r matches Some(k) ==> first_eligible(self@.peers, next, ignore) == Some(k as int),
            r is None ==> first_eligible(self@.peers, next, ignore) is None,
    {
        let ghost s = self@.peers;
        let mut i: usize = 0;
        while i < self.closest_peers.len()
            invariant
                s == self@.peers,
                i <= s.len(),
                forall|j: int| 0 <= j < i ==> !eligible(#[trigger] s[j].state, next, ignore),
            decreases s.len() - i,
        {
            assert(self.closest_peers@[i as int]@ == s[i as int]);
            let ok = match self.closest_peers[i].state {
                PeerState::NotContacted(p) => ignore || match p {
                    None => true,
                    Some(path) => path.0 == next,
                },
                _ => false,
            };
            if ok {
                proof {
                    assert(is_first_eligible(s, next, ignore, i as int));
                    let k2 = choose|k: int| is_first_eligible(s, next, ignore, k);
                    if k2 < i {
                    } else if k2 > i {
                    }
                }
                return Some(i);
            }
            i += 1;
        }
        None
    }

    /// Advances the state of the iterator, given which peers' deadlines
    /// have passed (`expired`, by position) and the deadline for a peer
    /// contacted now (`None`: too far to be represented).
    pub fn next_with(&mut self, expired: &Vec<bool>, deadline: Option<Instant>) -> (r: PeersIterState)
        requires
            old(self).wf(),
            expired@.len() == old(self)@.peers.len(),
        ensures
            final(self).wf(),
            (final(self)@, r@) == old(self)@.next_step(expired@, deadline),
    {
        let ghost before = self@;
        let ghost orig = self@.peers;
        if matches!(self.state, State::Finished) {
            return PeersIterState::Finished;
        }
        let at_capacity = self.at_capacity();
        let n = self.config.num_results;
        let ghost stop = scan_stop(orig, expired@, at_capacity, n, 0, Some(0));
        assert(orig == before.peers);
        assert(n == before.config.num_results);
        assert(at_capacity == before.at_capacity());
        assert(stop == scan_stop(before.peers, expired@, before.at_capacity(), before.config.num_results, 0, Some(0)));
        let mut result_counter: Option<usize> = Some(0);
        let mut i: usize = 0;
        assert(timed_out(orig, expired@, 0) =~= orig);
        while i < self.closest_peers.len()
            invariant
                self.wf(),
                self@ == (ClosestPeersIterView { peers: timed_out(orig, expired@, i as int), num_waiting: self@.num_waiting, ..before }),
                before.state != State::Finished,
                before == old(self)@,
                expired@.len() == old(self)@.peers.len(),
                orig == before.peers,
                stop == scan_stop(before.peers, expired@, before.at_capacity(), before.config.num_results, 0, Some(0)),
                at_capacity == before.at_capacity(),
                n == before.config.num_results,
                expired@.len() == orig.len(),
                i <= orig.len(),
                result_counter matches Some(c) ==> c <= i,
                stop == scan_stop(orig, expired@, at_capacity, n, i as int, match result_counter {
                    Some(c) => Some(c as nat),
                    None => None,
                }),
            decreases orig.len() - i,
        {
            let ghost cur = self@.peers;
            assert(cur[i as int] == orig[i as int]);
            assert(self.closest_peers@[i as int]@ == cur[i as int]);
            match self.closest_peers[i].state {
                PeerState::Waiting((_, path)) => {
                    if expired[i] {
                        proof {
                            Self::lemma_count_positive(cur, i as int);
                        }
                        self.set_peer_state(i, PeerState::Unresponsive(path));
                        assert(self@.peers =~= timed_out(orig, expired@, i + 1));
                    } else if at_capacity {
                        assert(cur =~= timed_out(orig, expired@, i as int));
                        assert(stop == Some((i as int, false)));
                        assert(self@.num_waiting == count_waiting(cur));
                        return PeersIterState::WaitingAtCapacity;
                    } else {
                        result_counter = None;
                        assert(cur =~= timed_out(orig, expired@, i + 1));
                    }
                },
                PeerState::Succeeded => {
                    assert(cur =~= timed_out(orig, expired@, i + 1));
                    match result_counter {
                        Some(c) => {
                            let c1 = c + 1;
                            if c1 >= n {
                                assert(cur =~= timed_out(orig, expired@, i as int));
                                assert(stop == Some((i as int, true)));
                                assert(self@.num_waiting == count_waiting(cur));
                                self.state = State::Finished;
                                return PeersIterState::Finished;
                            }
                            result_counter = Some(c1);
                        },
                        None => {},
                    }
                },
                PeerState::NotContacted(_) => {
                    result_counter = None;
                    assert(cur =~= timed_out(orig, expired@, i + 1));
                },
                _ => {
                    assert(cur =~= timed_out(orig, expired@, i + 1));
                },
            }
            i += 1;
        }
        let ghost peers1 = self@.peers;
        assert(peers1 == timed_out(orig, expired@, orig.len() as int));
        let next = self.next_disjoint_path.0;
        let ignore = self.config.disjoint_paths == 1;
        let any = self.first_eligible_pos(next, true);
        if any.is_some() && at_capacity {
            return PeersIterState::WaitingAtCapacity;
        }
        let pick = match self.first_eligible_pos(next, ignore) {
            Some(k) => Some(k),
            None => any,
        };
        match pick {
            Some(k) => {
                proof {
                    assert(eligible(peers1[k as int].state, next, true));
                    Self::lemma_count_le(peers1);
                }
                assert(self.closest_peers@[k as int]@ == peers1[k as int]);
                self.set_peer_state(k, PeerState::Waiting((deadline, PathId(next))));
                self.next_disjoint_path = PathId((next + 1) % self.config.disjoint_paths);
                let id = crate::record::copy_bytes(self.closest_peers[k].key.preimage());
                assert(self@.peers[k as int] == self.closest_peers@[k as int]@);
                assert(self.closest_peers@[k as int]@.id == peers1[k as int].id);
                PeersIterState::Waiting(Some(id))
            },
            None => {
                if self.num_waiting > 0 {
                    PeersIterState::Waiting(None)
                } else {
                    self.state = State::Finished;
                    PeersIterState::Finished
                }
            },
        }
    }

    /// Which peers' deadlines have passed at `now`, by position: only
    /// peers waited for with a deadline can have one that passed.
    fn expiries(&self, now: &Instant) -> (r: Vec<bool>)
        ensures
            r@ == expired_at(self@.peers, *now),
    {
        let ghost s = self@.peers;
        let mut r: Vec<bool> = Vec::new();
        let mut i: usize = 0;
        while i < self.closest_peers.len()
            invariant
                s == self@.peers,
                i <= s.len(),
                r@ == expired_at(s, *now).take(i as int),
            decreases s.len() - i,
        {
            assert(self.closest_peers@[i as int]@ == s[i as int]);
            let e = match &self.closest_peers[i].state {
                PeerState::Waiting((Some(t), _)) => instant_not_before(now, t),
                _ => false,
            };
            let ghost before = r@;
            r.push(e);
            proof {
                assert(r@ =~= expired_at(s, *now).take(i + 1));
            }
            i += 1;
        }
        assert(r@ =~= expired_at(s, *now));
        r
    }

    /// Advances the state of the iterator, potentially getting a new peer
    /// to contact, at the instant `now`: the peers waited for whose
    /// deadline is not after `now` time out, and a peer contacted now is
    /// waited for until `now` plus the peer timeout (no deadline where that
    /// instant cannot be represented). The step is the one `next_step`
    /// describes.
    pub fn next(&mut self, now: Instant) -> (r: PeersIterState)
        requires
            old(self).wf(),
        ensures
            final(self).wf(),
            (final(self)@, r@) == old(self)@.next_step(expired_at(old(self)@.peers, now), instant_plus(now, old(self)@.config.peer_timeout)),
    {
        let expired = self.expiries(&now);
        let deadline = instant_checked_add(now, self.config.peer_timeout);
        self.next_with(&expired, deadline)
    }
}

} // verus!
