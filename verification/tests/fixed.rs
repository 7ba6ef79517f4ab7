use kad::query::peers::fixed::FixedPeersIter;
use kad::query::peers::PeersIterState;

fn peer(b: u8) -> Vec<u8> {
    vec![b; 4]
}

#[test]
fn fixed_emits_each_peer_once_in_order() {
    let mut iter = FixedPeersIter::new(vec![peer(1), peer(2), peer(1), peer(3)], 2);
    assert_eq!(iter.next(), PeersIterState::Waiting(Some(peer(1))));
    assert_eq!(iter.next(), PeersIterState::Waiting(Some(peer(2))));
    // Parallelism reached.
    assert_eq!(iter.next(), PeersIterState::WaitingAtCapacity);
    assert!(iter.is_waiting(&peer(1)));
    iter.on_success(&peer(1));
    assert!(!iter.is_waiting(&peer(1)));
    // The duplicate of peer 1 is skipped.
    assert_eq!(iter.next(), PeersIterState::Waiting(Some(peer(3))));
    iter.on_success(&peer(3));
    assert_eq!(iter.next(), PeersIterState::Waiting(None));
    iter.on_success(&peer(2));
    assert_eq!(iter.next(), PeersIterState::Finished);
    assert_eq!(iter.into_result(), vec![peer(1), peer(2), peer(3)]);
}

#[test]
fn fixed_failures_keep_their_slot() {
    let mut iter = FixedPeersIter::new(vec![peer(1), peer(2)], 1);
    assert_eq!(iter.next(), PeersIterState::Waiting(Some(peer(1))));
    iter.on_failure(&peer(1));
    assert!(!iter.is_waiting(&peer(1)));
    // A failure does not free the slot of the failed peer.
    assert_eq!(iter.next(), PeersIterState::WaitingAtCapacity);
    iter.finish();
    assert_eq!(iter.next(), PeersIterState::Finished);
    assert!(iter.into_result().is_empty());
}

#[test]
fn fixed_empty_list_finishes() {
    let mut iter = FixedPeersIter::new(vec![], 3);
    assert_eq!(iter.next(), PeersIterState::Finished);
    // Results for unknown peers are ignored.
    iter.on_success(&peer(9));
    assert!(iter.into_result().is_empty());
}
