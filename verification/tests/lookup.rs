use kad::high_level::lookup::{KadQueryEvent, QueryState, Round};
use kad::protocol::{ConnectionType, KadPeer};

fn peer(id: u8, addr: u8) -> KadPeer {
    KadPeer { node_id: vec![id], multiaddrs: vec![vec![addr]], connection_ty: ConnectionType::Connected }
}

#[test]
fn lookup_runs_to_completion() {
    let closest = vec![(vec![1u8], 1u32), (vec![2u8], 2), (vec![3u8], 3), (vec![4u8], 4)];
    let mut q = QueryState::new(closest, 2, 2);
    match q.start_round() {
        Round::Contact(ids) => assert_eq!(ids, vec![vec![1u8], vec![2u8]]),
        other => panic!("unexpected {:?}", other),
    }
    match q.on_response(0, vec![(peer(5, 50), 0)]) {
        KadQueryEvent::NewKnownMultiaddrs(known) => assert_eq!(known, vec![(vec![5u8], vec![vec![50u8]])]),
        other => panic!("unexpected {:?}", other),
    }
    // Peer 5 is closer than the closest result: still in the first step,
    // one request left to make.
    match q.start_round() {
        Round::Contact(ids) => assert_eq!(ids, vec![vec![5u8]]),
        other => panic!("unexpected {:?}", other),
    }
    q.on_failure(0);
    q.on_response(0, vec![]);
    match q.start_round() {
        Round::Finished(ids) => assert_eq!(ids, vec![vec![5u8], vec![1u8]]),
        other => panic!("unexpected {:?}", other),
    }
    assert!(matches!(q.start_round(), Round::Ended));
    assert!(matches!(q.start_round(), Round::Ended));
}

#[test]
fn lookup_moves_to_second_step_and_skips_failed_peers() {
    let closest = vec![(vec![1u8], 1u32), (vec![2u8], 2), (vec![3u8], 3), (vec![4u8], 4)];
    let mut q = QueryState::new(closest, 1, 3);
    assert!(matches!(q.start_round(), Round::Contact(ref ids) if ids == &vec![vec![1u8]]));
    // The response brings nothing as close as peer 1: second step, which
    // contacts up to three peers at a time.
    q.on_response(0, vec![(peer(6, 60), 5)]);
    match q.start_round() {
        Round::Contact(ids) => assert_eq!(ids, vec![vec![2u8], vec![3u8], vec![4u8]]),
        other => panic!("unexpected {:?}", other),
    }
    q.on_failure(0);
    // Peer 3 reports peer 2, which failed: it is not contacted again.
    q.on_response(0, vec![(peer(2, 20), 2)]);
    match q.start_round() {
        Round::Contact(ids) => assert_eq!(ids, vec![vec![6u8]]),
        other => panic!("unexpected {:?}", other),
    }
    q.on_response(1, vec![]);
    match q.start_round() {
        Round::Finished(ids) => assert_eq!(ids, vec![vec![1u8], vec![3u8], vec![6u8]]),
        other => panic!("unexpected {:?}", other),
    }
}

#[test]
fn lookup_without_peers_finishes_empty() {
    let mut q = QueryState::new(vec![], 3, 20);
    assert!(matches!(q.start_round(), Round::NoPeerLeft));
    match q.start_round() {
        Round::Finished(ids) => assert!(ids.is_empty()),
        other => panic!("unexpected {:?}", other),
    }
    assert!(matches!(q.start_round(), Round::Ended));
}
