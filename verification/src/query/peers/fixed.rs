//! A peer iterator over a fixed list of peers.

use vstd::prelude::*;
use crate::query::peers::{PeersIterState, IterStep};
use crate::addresses::byte_views;

verus! {

/// The state of a peer the iterator emitted.
#[derive(Debug, Copy, Clone, PartialEq, Eq, Structural)]
pub enum PeerState {
    /// The iterator is waiting for a result to be reported back for the peer.
    Waiting,
    /// The iterator has been informed that the attempt to contact the peer failed.
    Failed,
    /// The iterator has been informed of a successful result from the peer.
    Succeeded,
}

/// The internal state of the iterator.
#[derive(Debug, Copy, Clone, PartialEq, Eq, Structural)]
pub enum State {
    /// The iterator runs; `num_waiting` peers were emitted and not yet
    /// answered successfully.
    Waiting { num_waiting: usize },
    /// The iterator is finished.
    Finished,
}

/// What the iterator holds: the permitted parallelism, the emitted peers
/// with their states, in the order emitted, the backlog of peers still to
/// emit, and its state.
pub struct FixedPeersIterView {
    pub parallelism: usize,
    pub peers: Seq<(Seq<u8>, PeerState)>,
    pub backlog: Seq<Seq<u8>>,
    pub state: State,
}

/// A peer iterator for a fixed set of peers.
pub struct FixedPeersIter {
    parallelism: usize,
    peers: Vec<(Vec<u8>, PeerState)>,
    backlog: Vec<Vec<u8>>,
    next: usize,
    state: State,
}

/// The emitted peers, each with its state.
pub open spec fn emitted(s: Seq<(Vec<u8>, PeerState)>) -> Seq<(Seq<u8>, PeerState)> {
    s.map_values(|e: (Vec<u8>, PeerState)| (e.0@, e.1))
}

/// Whether `p` was emitted.
pub open spec fn was_emitted(peers: Seq<(Seq<u8>, PeerState)>, p: Seq<u8>) -> bool {
    exists|i: int| 0 <= i < peers.len() && #[trigger] peers[i].0 == p
}

/// The position of the emitted peer `p`.
pub open spec fn emitted_index(peers: Seq<(Seq<u8>, PeerState)>, p: Seq<u8>) -> int {
    choose|i: int| 0 <= i < peers.len() && #[trigger] peers[i].0 == p
}

/// `k` is the first position of the backlog with a peer not yet emitted.
pub open spec fn is_first_new(backlog: Seq<Seq<u8>>, peers: Seq<(Seq<u8>, PeerState)>, k: int) -> bool {
    &&& 0 <= k < backlog.len()
    &&& !was_emitted(peers, backlog[k])
    &&& forall|j: int| 0 <= j < k ==> was_emitted(peers, #[trigger] backlog[j])
}

/// The number of emitted peers waited for.
pub open spec fn count_waiting(peers: Seq<(Seq<u8>, PeerState)>) -> nat
    decreases peers.len(),
{
    if peers.len() == 0 {
        0
    } else {
        count_waiting(peers.drop_last()) + if peers.last().1 == PeerState::Waiting { 1nat } else { 0nat }
    }
}

impl FixedPeersIterView {
    /// The iterator after a step, and what the step asks: a finished
    /// iterator stays so; at capacity it waits; else the next peer of the
    /// backlog not yet emitted is emitted; with none left it waits while
    /// peers are waited for and finishes when none is.
    pub open spec fn next_step(self) -> (FixedPeersIterView, IterStep) {
        match self.state {
            State::Finished => (self, IterStep::Finished),
            State::Waiting { num_waiting } => if num_waiting >= self.parallelism {
                (self, IterStep::WaitingAtCapacity)
            } else if exists|k: int| is_first_new(self.backlog, self.peers, k) {
                let k = choose|k: int| is_first_new(self.backlog, self.peers, k);
                (
                    FixedPeersIterView {
                        peers: self.peers.push((self.backlog[k], PeerState::Waiting)),
                        backlog: self.backlog.skip(k + 1),
                        state: State::Waiting { num_waiting: (num_waiting + 1) as usize },
                        ..self
                    },
                    IterStep::Waiting(Some(self.backlog[k])),
                )
            } else if num_waiting == 0 {
                (FixedPeersIterView { backlog: Seq::empty(), state: State::Finished, ..self }, IterStep::Finished)
            } else {
                (FixedPeersIterView { backlog: Seq::empty(), ..self }, IterStep::Waiting(None))
            },
        }
    }

    /// The iterator after a result for `peer`: unless finished, a peer
    /// waited for becomes `to`; a success also ends the wait for it.
    pub open spec fn after_result(self, peer: Seq<u8>, to: PeerState) -> FixedPeersIterView {
        match self.state {
            State::Finished => self,
            State::Waiting { num_waiting } => if was_emitted(self.peers, peer)
                && self.peers[emitted_index(self.peers, peer)].1 == PeerState::Waiting {
                FixedPeersIterView {
                    peers: self.peers.update(emitted_index(self.peers, peer), (peer, to)),
                    state: if to == PeerState::Succeeded {
                        State::Waiting { num_waiting: (num_waiting - 1) as usize }
                    } else {
                        self.state
                    },
                    ..self
                }
            } else {
                self
            },
        }
    }
}

impl View for FixedPeersIter {
    type V = FixedPeersIterView;

    closed spec fn view(&self) -> FixedPeersIterView {
        FixedPeersIterView {
            parallelism: self.parallelism,
            peers: emitted(self.peers@),
            backlog: byte_views(self.backlog@).skip(self.next as int),
            state: self.state,
        }
    }
}

impl FixedPeersIter {
    /// Emitted peers are distinct; the count of peers waited for covers
    /// the peers in that state and does not exceed the emitted ones.
    pub closed spec fn wf(&self) -> bool {
        &&& self.next <= self.backlog@.len()
        &&& forall|i: int, j: int|
            0 <= i < j < self.peers@.len() ==> (#[trigger] self.peers@[i]).0@ != (#[trigger] self.peers@[j]).0@
        &&& (self.state matches State::Waiting { num_waiting } ==> count_waiting(emitted(self.peers@)) <= num_waiting
            <= self.peers@.len())
    }

    /// Creates an iterator over `peers` with the given parallelism.
    pub fn new(peers: Vec<Vec<u8>>, parallelism: usize) -> (r: Self)
        ensures
            r.wf(),
            r@ == (FixedPeersIterView {
                parallelism,
                peers: Seq::empty(),
                backlog: byte_views(peers@),
                state: State::Waiting { num_waiting: 0 },
            }),
    {
        let r = FixedPeersIter { parallelism, peers: Vec::new(), backlog: peers, next: 0, state: State::Waiting { num_waiting: 0 } };
        assert(r@.peers =~= Seq::empty());
        assert(byte_views(r.backlog@).skip(0) =~= byte_views(r.backlog@));
        r
    }

    /// The position of the emitted peer `peer`, if it was emitted.
    fn position(&self, peer: &Vec<u8>) -> (r: Option<usize>)
        requires
            self.wf(),
        ensures
            match r {
                Some(i) => i < self@.peers.len() && self@.peers[i as int].0 == peer@ && was_emitted(self@.peers, peer@)
                    && emitted_index(self@.peers, peer@) == i,
                None => !was_emitted(self@.peers, peer@),
            },
    {
        let ghost es = emitted(self.peers@);
        let mut i: usize = 0;
        while i < self.peers.len()
            invariant
                self.wf(),
                es == emitted(self.peers@),
                i <= es.len(),
                forall|j: int| 0 <= j < i ==> es[j].0 != peer@,
            decreases es.len() - i,
        {
            if crate::addresses::same_bytes(&self.peers[i].0, peer) {
                proof {
                    assert(es[i as int].0 == peer@);
                    let k = emitted_index(es, peer@);
                    assert(es[k].0 == peer@);
                    assert(es[k].0 == self.peers@[k].0@);
                    assert(es[i as int].0 == self.peers@[i as int].0@);
                    if k < i {
                    } else if k > i {
                    }
                }
                return Some(i);
            }
            i += 1;
        }
        None
    }

    /// Delivers a result for `peer`: a peer waited for becomes `to`.
    fn deliver(&mut self, peer: &Vec<u8>, to: PeerState)
        requires
            old(self).wf(),
            to != PeerState::Waiting,
        ensures
            final(self).wf(),
            final(self)@ == old(self)@.after_result(peer@, to),
    {
        let ghost before = self@;
        match self.state {
            State::Finished => {},
            State::Waiting { num_waiting } => {
                match self.position(peer) {
                    Some(i) => {
                        if self.peers[i].1 == PeerState::Waiting {
                            let ghost es = emitted(self.peers@);
                            proof {
                                lemma_count_update(es, i as int, (peer@, to));
                                assert(es[i as int].1 == PeerState::Waiting);
                            }
                            let (id, _) = self.peers.remove(i);
                            self.peers.insert(i, (id, to));
                            proof {
                                assert(emitted(self.peers@) =~= es.update(i as int, (peer@, to)));
                                assert forall|a: int, b: int| 0 <= a < b < self.peers@.len() implies (#[trigger] self.peers@[a]).0@
                                    != (#[trigger] self.peers@[b]).0@ by {
                                    assert(emitted(self.peers@)[a].0 == self.peers@[a].0@);
                                    assert(emitted(self.peers@)[b].0 == self.peers@[b].0@);
                                    assert(es[a].0 == old(self).peers@[a].0@);
                                    assert(es[b].0 == old(self).peers@[b].0@);
                                }
                            }
                            if to == PeerState::Succeeded {
                                self.state = State::Waiting { num_waiting: num_waiting - 1 };
                            }
                        }
                    },
                    None => {},
                }
            },
        }
    }

    /// Callback for a successful result from `peer`: a peer waited for
    /// succeeds and is no longer waited for.
    pub fn on_success(&mut self, peer: &Vec<u8>)
        requires
            old(self).wf(),
        ensures
            final(self).wf(),
            final(self)@ == old(self)@.after_result(peer@, PeerState::Succeeded),
    {
        self.deliver(peer, PeerState::Succeeded);
    }

    /// Callback for a failed request to `peer`: a peer waited for fails.
    /// The count of peers waited for stays as it is.
    pub fn on_failure(&mut self, peer: &Vec<u8>)
        requires
            old(self).wf(),
        ensures
            final(self).wf(),
            final(self)@ == old(self)@.after_result(peer@, PeerState::Failed),
    {
        self.deliver(peer, PeerState::Failed);
    }

    /// Whether the iterator waits for a result from `peer`.
    pub fn is_waiting(&self, peer: &Vec<u8>) -> (r: bool)
        requires
            self.wf(),
        ensures
            r == (was_emitted(self@.peers, peer@) && self@.peers[emitted_index(self@.peers, peer@)].1
                == PeerState::Waiting),
    {
        match self.position(peer) {
            Some(i) => self.peers[i].1 == PeerState::Waiting,
            None => false,
        }
    }

    /// Finishes the iterator.
    pub fn finish(&mut self)
        requires
            old(self).wf(),
        ensures
            final(self).wf(),
            final(self)@ == (FixedPeersIterView { state: State::Finished, ..old(self)@ }),
    {
        self.state = State::Finished;
    }

    /// Advances the iterator, potentially emitting a new peer to contact.
    pub fn next(&mut self) -> (r: PeersIterState)
        requires
            old(self).wf(),
        ensures
            final(self).wf(),
            (final(self)@, r@) == old(self)@.next_step(),
    {
        let ghost before = self@;
        let num_waiting = match self.state {
            State::Finished => {
                return PeersIterState::Finished;
            },
            State::Waiting { num_waiting } => num_waiting,
        };
        if num_waiting >= self.parallelism {
            return PeersIterState::WaitingAtCapacity;
        }
        let ghost bl = byte_views(self.backlog@);
        let ghost start = self.next as int;
        while self.next < self.backlog.len()
            invariant
                self.wf(),
                before == old(self)@,
                self.state == (State::Waiting { num_waiting }),
                num_waiting < self.parallelism,
                self.parallelism == before.parallelism,
                before.state == (State::Waiting { num_waiting }),
                emitted(self.peers@) == before.peers,
                bl == byte_views(self.backlog@),
                before.backlog == bl.skip(start),
                0 <= start <= self.next <= bl.len(),
                forall|j: int| start <= j < self.next ==> was_emitted(before.peers, #[trigger] bl[j]),
            decreases bl.len() - self.next,
        {
            let k = self.next;
            assert(bl.len() == self.backlog@.len());
            assert(0 <= k - start < before.backlog.len());
            self.next = self.next + 1;
            assert(bl[k as int] == self.backlog@[k as int]@);
            match self.position(&self.backlog[k]) {
                Some(_) => {},
                None => {
                    let p = crate::record::copy_bytes(&self.backlog[k]);
                    let p2 = crate::record::copy_bytes(&self.backlog[k]);
                    let ghost es = emitted(self.peers@);
                    proof {
                        assert(is_first_new(before.backlog, before.peers, k - start)) by {
                            assert(before.backlog[k - start] == bl[k as int]);
                            assert forall|j: int| 0 <= j < k - start implies was_emitted(before.peers, #[trigger] before.backlog[j]) by {
                                assert(before.backlog[j] == bl[start + j]);
                            }
                        }
                        let k2 = choose|k2: int| is_first_new(before.backlog, before.peers, k2);
                        if k2 < k - start {
                            assert(before.backlog[k2] == bl[start + k2]);
                        } else if k2 > k - start {
                        }
                        assert(k2 == k - start);
                        lemma_count_push(es, (p@, PeerState::Waiting));
                    }
                    self.peers.push((p, PeerState::Waiting));
                    self.state = State::Waiting { num_waiting: num_waiting + 1 };
                    proof {
                        assert(emitted(self.peers@) =~= es.push((p@, PeerState::Waiting)));
                        assert(bl.skip(self.next as int) =~= before.backlog.skip(k - start + 1));
                        assert forall|a: int, b: int| 0 <= a < b < self.peers@.len() implies (#[trigger] self.peers@[a]).0@
                            != (#[trigger] self.peers@[b]).0@ by {
                            assert(emitted(self.peers@)[a].0 == self.peers@[a].0@);
                            assert(emitted(self.peers@)[b].0 == self.peers@[b].0@);
                            if b == self.peers@.len() - 1 {
                                assert(es[a].0 == emitted(self.peers@)[a].0);
                            }
                        }
                    }
                    proof {
                        let k2 = choose|k2: int| is_first_new(before.backlog, before.peers, k2);
                        assert(before.backlog[k2] == p@);
                        assert(self@.peers == before.peers.push((before.backlog[k2], PeerState::Waiting)));
                        assert(self@.backlog == before.backlog.skip(k2 + 1));
                        assert(self@ == before.next_step().0);
                    }
                    return PeersIterState::Waiting(Some(p2));
                },
            }
        }
        proof {
            assert(!exists|k: int| is_first_new(before.backlog, before.peers, k)) by {
                if exists|k: int| is_first_new(before.backlog, before.peers, k) {
                    let k = choose|k: int| is_first_new(before.backlog, before.peers, k);
                    assert(before.backlog[k] == bl[start + k]);
                }
            }
            assert(bl.skip(self.next as int) =~= Seq::<Seq<u8>>::empty());
        }
        if num_waiting == 0 {
            self.state = State::Finished;
            PeersIterState::Finished
        } else {
            PeersIterState::Waiting(None)
        }
    }

    /// Consumes the iterator, returning the peers that answered
    /// successfully, in the order they were emitted.
    pub fn into_result(self) -> (r: Vec<Vec<u8>>)
        requires
            self.wf(),
        ensures
            byte_views(r@) == succeeded(self@.peers),
    {
        let ghost es = self@.peers;
        let mut r: Vec<Vec<u8>> = Vec::new();
        let mut i: usize = 0;
        assert(byte_views(r@) =~= succeeded(es.take(0)));
        while i < self.peers.len()
            invariant
                es == emitted(self.peers@),
                i <= es.len(),
                byte_views(r@) == succeeded(es.take(i as int)),
            decreases es.len() - i,
        {
            let ghost r0 = r@;
            assert(es.take(i + 1).drop_last() =~= es.take(i as int));
            assert(es[i as int] == (self.peers@[i as int].0@, self.peers@[i as int].1));
            if self.peers[i].1 == PeerState::Succeeded {
                r.push(crate::record::copy_bytes(&self.peers[i].0));
                assert(byte_views(r@) =~= byte_views(r0).push(es[i as int].0));
            }
            i += 1;
        }
        assert(es.take(es.len() as int) =~= es);
        r
    }
}

/// The emitted peers that answered successfully, in order.
pub open spec fn succeeded(peers: Seq<(Seq<u8>, PeerState)>) -> Seq<Seq<u8>>
    decreases peers.len(),
{
    if peers.len() == 0 {
        Seq::empty()
    } else if peers.last().1 == PeerState::Succeeded {
        succeeded(peers.drop_last()).push(peers.last().0)
    } else {
        succeeded(peers.drop_last())
    }
}

/// The count of peers waited for after a change of one peer's state.
proof fn lemma_count_update(s: Seq<(Seq<u8>, PeerState)>, i: int, e: (Seq<u8>, PeerState))
    requires
        0 <= i < s.len(),
    ensures
        count_waiting(s.update(i, e)) + (if s[i].1 == PeerState::Waiting { 1int } else { 0int }) == count_waiting(s)
            + (if e.1 == PeerState::Waiting { 1int } else { 0int }),
    decreases s.len(),
{
    let t = s.update(i, e);
    if i == s.len() - 1 {
        assert(t.drop_last() =~= s.drop_last());
    } else {
        lemma_count_update(s.drop_last(), i, e);
        assert(t.drop_last() =~= s.drop_last().update(i, e));
    }
}

/// The count of peers waited for after appending one.
proof fn lemma_count_push(s: Seq<(Seq<u8>, PeerState)>, e: (Seq<u8>, PeerState))
    ensures
        count_waiting(s.push(e)) == count_waiting(s) + (if e.1 == PeerState::Waiting { 1int } else { 0int }),
{
    assert(s.push(e).drop_last() =~= s);
}

} // verus!
