//! Iterators over the peers that a query contacts.

use vstd::prelude::*;

pub mod closest;
pub mod disjoint_closest;
pub mod fixed;

verus! {

/// What a peer iterator asks of its caller after a step.
#[derive(Debug, Clone, PartialEq, Eq)]
pub enum PeersIterState {
    /// The iterator is waiting for results; with `Some(peer)`, it asks for
    /// a request to that peer.
    Waiting(Option<Vec<u8>>),
    /// The iterator is waiting for results and may not contact any further
    /// peer at the moment.
    WaitingAtCapacity,
    /// The iterator is finished.
    Finished,
}

/// What a step of a peer iterator asks, as values.
pub enum IterStep {
    Waiting(Option<Seq<u8>>),
    WaitingAtCapacity,
    Finished,
}

impl View for PeersIterState {
    type V = IterStep;

    open spec fn view(&self) -> IterStep {
        match self {
            PeersIterState::Waiting(Some(p)) => IterStep::Waiting(Some(p@)),
            PeersIterState::Waiting(None) => IterStep::Waiting(None),
            PeersIterState::WaitingAtCapacity => IterStep::WaitingAtCapacity,
            PeersIterState::Finished => IterStep::Finished,
        }
    }
}

} // verus!
