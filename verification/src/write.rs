//! The second stage of storing a value: gathering the answers of the peers
//! that were asked to store it.

use vstd::prelude::*;
use crate::addresses::{same_bytes, byte_views};
use crate::record::copy_bytes;
use crate::record::keyed::{keys_unique, keyed_map, lemma_keyed_index, lemma_keyed_absent,
    lemma_keyed_update, lemma_keyed_push, lemma_keyed_len};

verus! {

/// What is known of one peer's answer.
#[derive(Copy, Clone, Debug, PartialEq, Eq, Structural)]
pub enum PeerState {
    /// No answer yet.
    Unknown,
    /// Storing the value failed.
    Failed,
    /// Storing the value succeeded.
    Succeeded,
}

/// The number of entries of `s` in state `st`.
pub open spec fn count_state(s: Seq<(Seq<u8>, PeerState)>, st: PeerState) -> nat
    decreases s.len(),
{
    if s.len() == 0 {
        0
    } else {
        count_state(s.drop_last(), st) + if s.last().1 == st { 1nat } else { 0nat }
    }
}

/// The state of the answers to the requests to store a value: one state per
/// peer asked, and the numbers of successes and failures so far.
pub struct WriteState<TTarget> {
    target: TTarget,
    peers: Vec<(Vec<u8>, PeerState)>,
    successes: usize,
    failures: usize,
}

/// What a `WriteState` holds.
pub struct WriteStateView<TTarget> {
    pub target: TTarget,
    /// The state of each peer asked, by its id.
    pub peers: Map<Seq<u8>, PeerState>,
    pub successes: nat,
    pub failures: nat,
}

/// The entries of a list of peers and states, as plain values.
pub open spec fn state_entries(v: Seq<(Vec<u8>, PeerState)>) -> Seq<(Seq<u8>, PeerState)> {
    v.map_values(|e: (Vec<u8>, PeerState)| (e.0@, e.1))
}

/// The peers of `m` in state `st`.
pub open spec fn peers_in(m: Map<Seq<u8>, PeerState>, st: PeerState) -> Set<Seq<u8>> {
    m.dom().filter(|p: Seq<u8>| m[p] == st)
}

impl<TTarget> View for WriteState<TTarget> {
    type V = WriteStateView<TTarget>;

    closed spec fn view(&self) -> WriteStateView<TTarget> {
        WriteStateView {
            target: self.target,
            peers: keyed_map(state_entries(self.peers@)),
            successes: self.successes as nat,
            failures: self.failures as nat,
        }
    }
}

impl<TTarget> WriteState<TTarget> {
    /// Each peer occurs once, and the counters count the peers in each
    /// final state.
    pub closed spec fn wf(&self) -> bool {
        let s = state_entries(self.peers@);
        &&& keys_unique(s)
        &&& self.successes == count_state(s, PeerState::Succeeded)
        &&& self.failures == count_state(s, PeerState::Failed)
    }

    /// The state of the answers of `peers` (each counted once, whatever
    /// times it occurs), none of which has answered yet.
    pub fn new(target: TTarget, peers: Vec<Vec<u8>>) -> (r: Self)
        ensures
            r.wf(),
            r@.target == target,
            r@.peers == Map::new(
                |p: Seq<u8>| byte_views(peers@).contains(p),
                |p: Seq<u8>| PeerState::Unknown,
            ),
            r@.successes == 0,
            r@.failures == 0,
    {
        let mut v: Vec<(Vec<u8>, PeerState)> = Vec::new();
        let mut i: usize = 0;
        while i < peers.len()
            invariant
                i <= peers.len(),
                keys_unique(state_entries(v@)),
                count_state(state_entries(v@), PeerState::Succeeded) == 0,
                count_state(state_entries(v@), PeerState::Failed) == 0,
                keyed_map(state_entries(v@)) == Map::new(
                    |p: Seq<u8>| byte_views(peers@.take(i as int)).contains(p),
                    |p: Seq<u8>| PeerState::Unknown,
                ),
            decreases peers.len() - i,
        {
            let ghost old_v = v@;
            let pos = Self::position(&v, &peers[i]);
            proof {
                let bt = byte_views(peers@.take(i as int));
                let x = peers@[i as int]@;
                assert(byte_views(peers@.take(i + 1)) =~= bt.push(x));
                assert forall|p: Seq<u8>| #[trigger] bt.push(x).contains(p) <==> (bt.contains(p) || p == x) by {
                    if bt.push(x).contains(p) {
                        let k = choose|k: int| 0 <= k < bt.push(x).len() && bt.push(x)[k] == p;
                        if k < bt.len() {
                            assert(bt[k] == p);
                        }
                    }
                    if bt.contains(p) {
                        let k = choose|k: int| 0 <= k < bt.len() && bt[k] == p;
                        assert(bt.push(x)[k] == p);
                    }
                    if p == x {
                        assert(bt.push(x)[bt.len() as int] == p);
                    }
                }
            }
            if pos.is_none() {
                let p = copy_bytes(&peers[i]);
                v.push((p, PeerState::Unknown));
                proof {
                    let s = state_entries(old_v);
                    assert(state_entries(v@) =~= s.push((peers@[i as int]@, PeerState::Unknown)));
                    lemma_keyed_push(s, peers@[i as int]@, PeerState::Unknown);
                    assert(state_entries(v@).drop_last() =~= s);
                    assert(keyed_map(state_entries(v@)) =~= Map::new(
                        |p: Seq<u8>| byte_views(peers@.take(i + 1)).contains(p),
                        |p: Seq<u8>| PeerState::Unknown,
                    ));
                }
            } else {
                proof {
                    let s = state_entries(v@);
                    let j = pos.unwrap() as int;
                    lemma_keyed_index(s, j);
                    assert(keyed_map(s) =~= Map::new(
                        |p: Seq<u8>| byte_views(peers@.take(i + 1)).contains(p),
                        |p: Seq<u8>| PeerState::Unknown,
                    ));
                }
            }
            i += 1;
        }
        proof {
            assert(peers@.take(peers.len() as int) =~= peers@);
        }
        WriteState { target, peers: v, successes: 0, failures: 0 }
    }

    /// The index of the entry of `peer` in `v`, if any.
    fn position(v: &Vec<(Vec<u8>, PeerState)>, peer: &Vec<u8>) -> (r: Option<usize>)
        ensures
            match r {
                Some(j) => j < v@.len() && state_entries(v@)[j as int].0 == peer@,
                None => forall|j: int| 0 <= j < v@.len() ==> state_entries(v@)[j].0 != peer@,
            },
    {
        let mut j: usize = 0;
        while j < v.len()
            invariant
                j <= v.len(),
                forall|k: int| 0 <= k < j ==> state_entries(v@)[k].0 != peer@,
            decreases v.len() - j,
        {
            if same_bytes(&v[j].0, peer) {
                return Some(j);
            }
            j += 1;
        }
        None
    }

    /// Sets the state of the entry at `j`, which has not answered yet, to
    /// `st`, a final state.
    proof fn lemma_answer(s: Seq<(Seq<u8>, PeerState)>, j: int, st: PeerState)
        requires
            keys_unique(s),
            0 <= j < s.len(),
            s[j].1 == PeerState::Unknown,
            st != PeerState::Unknown,
        ensures
            keys_unique(s.update(j, (s[j].0, st))),
            keyed_map(s.update(j, (s[j].0, st))) == keyed_map(s).insert(s[j].0, st),
            forall|x: PeerState| #[trigger] count_state(s.update(j, (s[j].0, st)), x) ==
                count_state(s, x) + (if x == st { 1int } else { 0int })
                    - (if x == PeerState::Unknown { 1int } else { 0int }),
    {
        lemma_keyed_update(s, j, st);
        assert forall|x: PeerState| #[trigger] count_state(s.update(j, (s[j].0, st)), x) ==
            count_state(s, x) + (if x == st { 1int } else { 0int })
                - (if x == PeerState::Unknown { 1int } else { 0int }) by {
            lemma_count_update(s, j, (s[j].0, st), x);
        }
    }

    /// Records that storing the value at `peer` succeeded. Only a peer that
    /// was asked and has not answered yet changes state.
    pub fn inject_write_success(&mut self, peer: &Vec<u8>)
        requires
            old(self).wf(),
        ensures
            final(self).wf(),
            final(self)@.target == old(self)@.target,
            if old(self)@.peers.contains_key(peer@) && old(self)@.peers[peer@] == PeerState::Unknown {
                &&& final(self)@.peers == old(self)@.peers.insert(peer@, PeerState::Succeeded)
                &&& final(self)@.successes == old(self)@.successes + 1
                &&& final(self)@.failures == old(self)@.failures
            } else {
                &&& final(self)@.peers == old(self)@.peers
                &&& final(self)@.successes == old(self)@.successes
                &&& final(self)@.failures == old(self)@.failures
            },
    {
        self.answer(peer, PeerState::Succeeded);
    }

    /// Records that storing the value at `peer` failed. Only a peer that
    /// was asked and has not answered yet changes state.
    pub fn inject_write_error(&mut self, peer: &Vec<u8>)
        requires
            old(self).wf(),
        ensures
            final(self).wf(),
            final(self)@.target == old(self)@.target,
            if old(self)@.peers.contains_key(peer@) && old(self)@.peers[peer@] == PeerState::Unknown {
                &&& final(self)@.peers == old(self)@.peers.insert(peer@, PeerState::Failed)
                &&& final(self)@.successes == old(self)@.successes
                &&& final(self)@.failures == old(self)@.failures + 1
            } else {
                &&& final(self)@.peers == old(self)@.peers
                &&& final(self)@.successes == old(self)@.successes
                &&& final(self)@.failures == old(self)@.failures
            },
    {
        self.answer(peer, PeerState::Failed);
    }

    /// Moves `peer` from `Unknown` to `st`, counting it.
    fn answer(&mut self, peer: &Vec<u8>, st: PeerState)
        requires
            old(self).wf(),
            st != PeerState::Unknown,
        ensures
            final(self).wf(),
            final(self)@.target == old(self)@.target,
            if old(self)@.peers.contains_key(peer@) && old(self)@.peers[peer@] == PeerState::Unknown {
                &&& final(self)@.peers == old(self)@.peers.insert(peer@, st)
                &&& final(self)@.successes == old(self)@.successes
                    + (if st == PeerState::Succeeded { 1int } else { 0int })
                &&& final(self)@.failures == old(self)@.failures
                    + (if st == PeerState::Failed { 1int } else { 0int })
            } else {
                &&& final(self)@.peers == old(self)@.peers
                &&& final(self)@.successes == old(self)@.successes
                &&& final(self)@.failures == old(self)@.failures
            },
    {
        let ghost s = state_entries(self.peers@);
        let pos = Self::position(&self.peers, peer);
        match pos {
            None => {
                proof {
                    lemma_keyed_absent(s, peer@);
                }
            },
            Some(j) => {
                proof {
                    lemma_keyed_index(s, j as int);
                }
                if self.peers[j].1 == PeerState::Unknown {
                    proof {
                        Self::lemma_answer(s, j as int, st);
                        lemma_count_total(s);
                        lemma_count_zero(s, PeerState::Unknown);
                        lemma_keyed_len(s);
                        assert(count_state(s, PeerState::Unknown) >= 1);
                    }
                    let n = self.peers.len();
                    assert(self.successes + self.failures < n);
                    let p = copy_bytes(&self.peers[j].0);
                    self.peers.set(j, (p, st));
                    proof {
                        assert(state_entries(self.peers@) =~= s.update(j as int, (s[j as int].0, st)));
                    }
                    if st == PeerState::Succeeded {
                        self.successes = self.successes + 1;
                    } else {
                        self.failures = self.failures + 1;
                    }
                }
            },
        }
    }

    /// Whether every peer asked has answered.
    pub fn done(&self) -> (r: bool)
        requires
            self.wf(),
        ensures
            r == (self@.successes + self@.failures == self@.peers.dom().len()),
            r == (forall|p: Seq<u8>| #[trigger] self@.peers.contains_key(p) ==>
                self@.peers[p] != PeerState::Unknown),
    {
        proof {
            Self::lemma_done(self);
            lemma_keyed_len(state_entries(self.peers@));
        }
        self.peers.len() == self.successes + self.failures
    }

    /// The target, and the numbers of successes and failures.
    pub fn into_inner(self) -> (r: (TTarget, usize, usize))
        ensures
            r.0 == self@.target,
            r.1 == self@.successes,
            r.2 == self@.failures,
    {
        (self.target, self.successes, self.failures)
    }

    /// The answers counted are never more than the peers asked, and all of
    /// them have answered exactly when the counts add up to their number.
    pub proof fn lemma_done(w: &Self)
        requires
            w.wf(),
        ensures
            w@.peers.dom().finite(),
            w@.successes + w@.failures <= w@.peers.dom().len(),
            (w@.successes + w@.failures == w@.peers.dom().len()) <==>
                (forall|p: Seq<u8>| #[trigger] w@.peers.contains_key(p) ==>
                    w@.peers[p] != PeerState::Unknown),
    {
        let s = state_entries(w.peers@);
        lemma_keyed_len(s);
        lemma_count_total(s);
        lemma_count_zero(s, PeerState::Unknown);
        if forall|p: Seq<u8>| #[trigger] w@.peers.contains_key(p) ==> w@.peers[p] != PeerState::Unknown {
            assert forall|i: int| 0 <= i < s.len() implies s[i].1 != PeerState::Unknown by {
                lemma_keyed_index(s, i);
                assert(w@.peers.contains_key(s[i].0));
            }
        }
        if count_state(s, PeerState::Unknown) == 0 {
            assert forall|p: Seq<u8>| #[trigger] w@.peers.contains_key(p) implies
                w@.peers[p] != PeerState::Unknown by {
                let i = choose|i: int| 0 <= i < s.len() && #[trigger] s[i].0 == p;
                lemma_keyed_index(s, i);
            }
        }
    }

    /// The counters count the peers whose storing succeeded and failed.
    pub proof fn lemma_counts(w: &Self)
        requires
            w.wf(),
        ensures
            peers_in(w@.peers, PeerState::Succeeded).finite(),
            peers_in(w@.peers, PeerState::Failed).finite(),
            w@.successes == peers_in(w@.peers, PeerState::Succeeded).len(),
            w@.failures == peers_in(w@.peers, PeerState::Failed).len(),
    {
        lemma_count_peers_in(state_entries(w.peers@), PeerState::Succeeded);
        lemma_count_peers_in(state_entries(w.peers@), PeerState::Failed);
    }
}

/// The entries of `s` in state `st` are as many as the keys that the map
/// of `s` sends to `st`.
proof fn lemma_count_peers_in(s: Seq<(Seq<u8>, PeerState)>, st: PeerState)
    requires
        keys_unique(s),
    ensures
        peers_in(keyed_map(s), st).finite(),
        peers_in(keyed_map(s), st).len() == count_state(s, st),
    decreases s.len(),
{
    if s.len() == 0 {
        assert(peers_in(keyed_map(s), st) =~= Set::empty());
    } else {
        let p = s.drop_last();
        let last = s.last();
        assert(keys_unique(p)) by {
            assert forall|a: int, b: int|
                0 <= a < p.len() && 0 <= b < p.len() && #[trigger] p[a].0 == #[trigger] p[b].0 implies a == b by {
                assert(p[a] == s[a] && p[b] == s[b]);
            }
        }
        assert forall|i: int| 0 <= i < p.len() implies p[i].0 != last.0 by {
            assert(p[i] == s[i]);
            assert(s[s.len() - 1] == last);
        }
        lemma_count_peers_in(p, st);
        lemma_keyed_push(p, last.0, last.1);
        assert(p.push((last.0, last.1)) =~= s);
        lemma_keyed_absent(p, last.0);
        let before = peers_in(keyed_map(p), st);
        if last.1 == st {
            assert(peers_in(keyed_map(s), st) =~= before.insert(last.0));
        } else {
            assert(peers_in(keyed_map(s), st) =~= before);
        }
    }
}

/// Replacing one entry changes the counts of its old and new states only.
proof fn lemma_count_update(s: Seq<(Seq<u8>, PeerState)>, j: int, e: (Seq<u8>, PeerState), x: PeerState)
    requires
        0 <= j < s.len(),
    ensures
        count_state(s.update(j, e), x) == count_state(s, x)
            + (if e.1 == x { 1int } else { 0int }) - (if s[j].1 == x { 1int } else { 0int }),
    decreases s.len(),
{
    let t = s.update(j, e);
    if j == s.len() - 1 {
        assert(t.drop_last() =~= s.drop_last());
    } else {
        assert(t.drop_last() =~= s.drop_last().update(j, e));
        lemma_count_update(s.drop_last(), j, e, x);
    }
}

/// Every entry is in exactly one state.
proof fn lemma_count_total(s: Seq<(Seq<u8>, PeerState)>)
    ensures
        count_state(s, PeerState::Unknown) + count_state(s, PeerState::Failed)
            + count_state(s, PeerState::Succeeded) == s.len(),
    decreases s.len(),
{
    if s.len() > 0 {
        lemma_count_total(s.drop_last());
    }
}

/// No entry is in state `st` exactly when none is counted.
proof fn lemma_count_zero(s: Seq<(Seq<u8>, PeerState)>, st: PeerState)
    ensures
        (count_state(s, st) == 0) <==> (forall|i: int| 0 <= i < s.len() ==> s[i].1 != st),
    decreases s.len(),
{
    if s.len() > 0 {
        lemma_count_zero(s.drop_last(), st);
        assert forall|i: int| 0 <= i < s.len() - 1 implies s.drop_last()[i] == s[i] by {}
        if count_state(s, st) == 0 {
            assert forall|i: int| 0 <= i < s.len() implies s[i].1 != st by {
                if i < s.len() - 1 {
                    assert(s.drop_last()[i] == s[i]);
                }
            }
        }
    }
}

} // verus!
