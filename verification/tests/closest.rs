use kad::kbucket::key::{Key, KeyBytes};
use kad::query::peers::closest::{ClosestPeersIter, ClosestPeersIterConfig, PeerState, State};
use kad::query::peers::PeersIterState;
use rand::{thread_rng, Rng};
use std::time::{Duration, Instant};

fn random_peer() -> Vec<u8> {
    let mut id = vec![0x00, 0x24, 0x08, 0x01, 0x12, 0x20];
    id.extend((0..32).map(|_| thread_rng().gen::<u8>()));
    id
}

fn random_peers(n: usize) -> Vec<Vec<u8>> {
    (0..n).map(|_| random_peer()).collect()
}

fn random_target() -> KeyBytes {
    Key::new(random_peer()).into_key_bytes()
}

fn random_iter_with_paths<G: Rng>(g: &mut G, paths: Option<u8>) -> ClosestPeersIter {
    let known_closest_peers = random_peers(g.gen_range(1..60)).into_iter().map(Key::new).collect();
    let target = random_target();
    let config = ClosestPeersIterConfig {
        parallelism: g.gen_range(1..10),
        num_results: g.gen_range(1..25),
        peer_timeout: Duration::from_secs(g.gen_range(10..30)),
        disjoint_paths: paths.unwrap_or_else(|| g.gen_range(1..10)),
    };
    ClosestPeersIter::with_config(config, target, known_closest_peers)
}

fn random_iter<G: Rng>(g: &mut G) -> ClosestPeersIter {
    random_iter_with_paths(g, None)
}

fn sorted(target: &KeyBytes, peers: &Vec<Key>) -> bool {
    peers.windows(2).all(|w| target.distance(&w[0]) < target.distance(&w[1]))
}

fn known_keys(iter: &ClosestPeersIter) -> Vec<Key> {
    iter.closest_peers().iter().map(|p| p.key().clone()).collect()
}

fn all_contacted(iter: &ClosestPeersIter) -> bool {
    iter.closest_peers().iter().all(|e| match e.state() {
        PeerState::NotContacted(_) | PeerState::Waiting { .. } => false,
        _ => true,
    })
}

#[test]
fn new_iter() {
    let iter = random_iter(&mut thread_rng());
    let target = iter.target().clone();

    let keys = known_keys(&iter);
    let none_contacted = iter
        .closest_peers()
        .iter()
        .all(|e| matches!(e.state(), PeerState::NotContacted(_)));

    assert!(none_contacted, "Unexpected peer state in new iterator.");
    assert!(sorted(&target, &keys), "Closest peers in new iterator not sorted by distance to target.");
    assert_eq!(iter.num_waiting(), 0, "Unexpected peers in progress in new iterator.");
    assert_eq!(iter.into_result().len(), 0, "Unexpected closest peers in new iterator");
}

#[test]
fn termination_and_parallelism() {
    for _ in 0..10 {
        let mut iter = random_iter_with_paths(&mut thread_rng(), Some(1));
        let now = Instant::now();
        let mut rng = thread_rng();

        let mut expected = known_keys(&iter);
        let num_known = expected.len();
        let max_parallelism = usize::min(iter.config().parallelism, num_known);

        let target = iter.target().clone();
        let mut remaining;
        let mut num_failures = 0;

        'finished: loop {
            if expected.len() == 0 {
                break;
            } else if expected.len() < max_parallelism {
                remaining = Vec::new();
            } else {
                remaining = expected.split_off(max_parallelism);
            }

            // Advance for maximum parallelism.
            for k in expected.iter() {
                match iter.next(now) {
                    PeersIterState::Finished => break 'finished,
                    PeersIterState::Waiting(Some(p)) => assert_eq!(&p, k.preimage()),
                    PeersIterState::Waiting(None) => panic!("Expected another peer."),
                    PeersIterState::WaitingAtCapacity => panic!("Unexpectedly reached capacity."),
                }
            }
            let num_waiting = iter.num_waiting();
            assert_eq!(num_waiting, expected.len());

            // Check the bounded parallelism.
            if iter.at_capacity() {
                assert_eq!(iter.next(now), PeersIterState::WaitingAtCapacity)
            }

            // Report results back to the iterator.
            for (i, k) in expected.iter().enumerate() {
                if rng.gen_bool(0.75) {
                    let num_closer = rng.gen_range(0..iter.config().num_results + 1);
                    let closer_peers = random_peers(num_closer);
                    remaining.extend(closer_peers.iter().cloned().map(Key::new));
                    iter.on_success(k.preimage(), closer_peers);
                } else {
                    num_failures += 1;
                    iter.on_failure(k.preimage());
                }
                assert_eq!(iter.num_waiting(), num_waiting - (i + 1));
            }

            // Re-sort the remaining expected peers for the next "round".
            remaining.sort_by_key(|k| target.distance(k));

            expected = remaining
        }

        // The iterator must be finished.
        assert_eq!(iter.next(now), PeersIterState::Finished);
        assert_eq!(iter.state(), State::Finished);

        let all_contacted = all_contacted(&iter);

        let target = iter.target().clone();
        let num_results = iter.config().num_results;
        let result = iter.into_result();
        let closest = result.into_iter().map(Key::new).collect::<Vec<_>>();

        assert!(sorted(&target, &closest));

        if closest.len() < num_results {
            assert!(num_known < num_results || num_failures > 0);
            assert!(all_contacted, "Not all peers have been contacted.");
        } else {
            assert_eq!(num_results, closest.len(), "Too  many results.");
        }
    }
}

#[test]
fn termination_and_parallelism_disjoint() {
    for _ in 0..10 {
        let mut iter = random_iter(&mut thread_rng());
        let now = Instant::now();
        let mut rng = thread_rng();

        let mut not_yet_contacted = known_keys(&iter);
        let num_known = not_yet_contacted.len();

        let mut in_flight: Vec<Key> = vec![];
        let mut num_failures = 0;

        'finished: loop {
            if not_yet_contacted.is_empty() && in_flight.is_empty() {
                break;
            }

            loop {
                if not_yet_contacted.is_empty() {
                    break;
                }

                match iter.next(now) {
                    PeersIterState::Finished => break 'finished,
                    PeersIterState::Waiting(Some(p)) => {
                        match not_yet_contacted.iter().position(|k| &p == k.preimage()) {
                            Some(pos) => {
                                in_flight.push(not_yet_contacted.remove(pos));
                            }
                            None => panic!("expected one of {:?} but got {:?}", not_yet_contacted, &p),
                        }
                    }
                    PeersIterState::Waiting(None) => panic!("Expected another peer."),
                    PeersIterState::WaitingAtCapacity => {
                        break;
                    }
                }
            }

            let num_waiting = iter.num_waiting();
            assert_eq!(num_waiting, in_flight.len());

            // Check the bounded parallelism.
            if iter.at_capacity() {
                assert_eq!(iter.next(now), PeersIterState::WaitingAtCapacity)
            }

            for (i, k) in in_flight.drain(0..).enumerate() {
                if rng.gen_bool(0.75) {
                    let num_closer = rng.gen_range(0..iter.config().num_results + 1);
                    let closer_peers = random_peers(num_closer);
                    not_yet_contacted.extend(closer_peers.iter().cloned().map(Key::new));
                    iter.on_success(k.preimage(), closer_peers);
                } else {
                    num_failures += 1;
                    iter.on_failure(k.preimage());
                }
                assert_eq!(iter.num_waiting(), num_waiting - (i + 1));
            }

            assert!(in_flight.is_empty());
        }

        // The iterator must be finished.
        assert_eq!(iter.next(now), PeersIterState::Finished);
        assert_eq!(iter.state(), State::Finished);

        let all_contacted = all_contacted(&iter);

        let target = iter.target().clone();
        let num_results = iter.config().num_results;
        let result = iter.into_result();
        let closest = result.into_iter().map(Key::new).collect::<Vec<_>>();

        assert!(sorted(&target, &closest));

        if closest.len() < num_results {
            assert!(num_known < num_results || num_failures > 0);
            assert!(all_contacted, "Not all peers have been contacted.");
        } else {
            assert_eq!(num_results, closest.len(), "Too  many results.");
        }
    }
}

#[test]
fn no_duplicates() {
    for _ in 0..10 {
        let mut iter = random_iter(&mut thread_rng());
        let now = Instant::now();
        let closer = random_peers(1);

        // A first peer reports a "closer" peer.
        let peer1 = match iter.next(now) {
            PeersIterState::Waiting(Some(p)) => p,
            _ => panic!("No peer."),
        };
        iter.on_success(&peer1, closer.clone());
        // Duplicate result from the same peer.
        iter.on_success(&peer1, closer.clone());

        // If there is a second peer, let it also report the same "closer" peer.
        match iter.next(now) {
            PeersIterState::Waiting(Some(p)) => {
                let peer2 = p;
                iter.on_success(&peer2, closer.clone())
            }
            PeersIterState::Finished => {}
            _ => panic!("Unexpectedly iter state."),
        };

        // The "closer" peer must only be in the iterator once.
        let n = iter
            .closest_peers()
            .iter()
            .filter(|e| e.key().preimage() == &closer[0])
            .count();
        assert_eq!(n, 1);
    }
}

#[test]
fn timeout() {
    for _ in 0..10 {
        let mut iter = random_iter(&mut thread_rng());
        let mut now = Instant::now();
        let peer = iter.closest_peers()[0].key().preimage().clone();

        // Poll the iterator for the first peer to be in progress.
        match iter.next(now) {
            PeersIterState::Waiting(Some(id)) => assert_eq!(&id, &peer),
            _ => panic!(),
        }

        // Artificially advance the clock.
        now = now + iter.config().peer_timeout;

        // Advancing the iterator again should mark the first peer as unresponsive.
        let _ = iter.next(now);
        let first = &iter.closest_peers()[0];
        match first.state() {
            PeerState::Unresponsive(_) => {
                assert_eq!(first.key().preimage(), &peer);
            }
            state => panic!("Unexpected peer state: {:?}", state),
        }

        let finished = iter.finished();
        iter.on_success(&peer, vec![]);
        let closest = iter.into_result();

        if finished {
            // Delivering results when the iterator already finished must have
            // no effect.
            assert_eq!(Vec::<Vec<u8>>::new(), closest)
        } else {
            // Unresponsive peers can still deliver results while the iterator
            // is not finished.
            assert_eq!(vec![peer], closest)
        }
    }
}

#[test]
fn closest_s_kademlia_disjoint_paths() {
    let target: KeyBytes = random_target();

    let mut pool = (0..12).map(|_| Key::new(random_peer())).collect::<Vec<_>>();
    pool.sort_unstable_by(|a, b| target.distance(a).cmp(&target.distance(b)));
    let known_closest_peers = pool.split_off(pool.len() - 3);

    let mut config = ClosestPeersIterConfig::default();
    config.disjoint_paths = 3;

    let mut closest_peers_iter = ClosestPeersIter::with_config(config, target, known_closest_peers.clone());

    for i in 0..3 {
        assert_eq!(
            PeersIterState::Waiting(Some(known_closest_peers[i].preimage().clone())),
            closest_peers_iter.next(Instant::now()),
        );
    }

    // At capacity.
    assert_eq!(PeersIterState::WaitingAtCapacity, closest_peers_iter.next(Instant::now()));

    let response_2 = pool.split_off(pool.len() - 3);
    let response_3 = pool.split_off(pool.len() - 3);
    // Keys are closer than any of the previous two responses from honest node 1 and 2.
    let malicious_response_1 = pool.split_off(pool.len() - 3);

    // Response from malicious peer 1.
    closest_peers_iter.on_success(
        known_closest_peers[0].preimage(),
        malicious_response_1.clone().into_iter().map(|k| k.preimage().clone()).collect(),
    );

    // Response from peer 2.
    closest_peers_iter.on_success(
        known_closest_peers[1].preimage(),
        response_2.clone().into_iter().map(|k| k.preimage().clone()).collect(),
    );

    // Response from peer 3.
    closest_peers_iter.on_success(
        known_closest_peers[2].preimage(),
        response_3.clone().into_iter().map(|k| k.preimage().clone()).collect(),
    );

    assert_eq!(
        PeersIterState::Waiting(Some(malicious_response_1[0].preimage().clone())),
        closest_peers_iter.next(Instant::now()),
    );

    assert_eq!(
        PeersIterState::Waiting(Some(response_2[0].preimage().clone())),
        closest_peers_iter.next(Instant::now()),
    );

    assert_eq!(
        PeersIterState::Waiting(Some(response_3[0].preimage().clone())),
        closest_peers_iter.next(Instant::now()),
    );

    // At capacity.
    assert_eq!(PeersIterState::WaitingAtCapacity, closest_peers_iter.next(Instant::now()));
}

/// Kademlia's iterative query should proceed until the k closest nodes were queried
/// successfully, or there are no further nodes to query that have not succeeded, failed or
/// timed out.
#[test]
fn continue_until_k_closest_peers_succeed() {
    let now = Instant::now();
    let target: KeyBytes = random_target();
    let default_num_results = ClosestPeersIterConfig::default().num_results;

    let mut pool = (0..default_num_results + 1)
        .map(|_| Key::new(random_peer()))
        .collect::<Vec<_>>();

    pool.sort_unstable_by(|a, b| target.distance(a).cmp(&target.distance(b)));

    let closest_peer = pool.remove(0);

    // Instantiate iterator with all but closest-peer.
    let mut closest_peers_iter = ClosestPeersIter::new(target, pool);

    // Make all peers in iterator return successfully, with the last one returning the not yet
    // discovered closest-peer.
    for i in 0..default_num_results {
        match closest_peers_iter.next(now) {
            PeersIterState::Waiting(Some(peer_id)) => {
                closest_peers_iter.on_success(
                    &peer_id,
                    if i != default_num_results - 1 {
                        vec![]
                    } else {
                        vec![closest_peer.preimage().clone()]
                    },
                );
            }
            PeersIterState::Waiting(None) => panic!("Expect iterator to have more peers to query."),
            PeersIterState::WaitingAtCapacity => panic!("Expect iterator not to be at capacity."),
            PeersIterState::Finished => panic!(
                "Expect iterator not to finish before querying available closest peer or \
                 reaching the timeout."
            ),
        }
    }

    assert_eq!(
        PeersIterState::Waiting(Some(closest_peer.preimage().clone())),
        closest_peers_iter.next(now),
        "Expect iterator to return closest-peer.",
    );

    assert_eq!(
        PeersIterState::Waiting(None),
        closest_peers_iter.next(now),
        "Expect iterator to wait for response from closest-peer."
    );

    assert_eq!(
        PeersIterState::Finished,
        closest_peers_iter.next(now + closest_peers_iter.config().peer_timeout),
        "Expect iterator to finish once query for closest-peer timed out and no other peers are \
         available."
    );
}

#[test]
fn failure_marks_the_peer_failed() {
    let target = random_target();
    let peers = random_peers(3);
    let mut iter = ClosestPeersIter::new(target, peers.iter().cloned().map(Key::new).collect());
    let first = match iter.next(Instant::now()) {
        PeersIterState::Waiting(Some(p)) => p,
        _ => panic!(),
    };
    assert!(iter.is_waiting(&first));
    assert_eq!(iter.waiting(), vec![&first]);
    iter.on_failure(&first);
    assert!(!iter.is_waiting(&first));
    assert_eq!(iter.num_waiting(), 0);
    let failed = iter.closest_peers().iter().find(|p| p.key().preimage() == &first).unwrap();
    assert_eq!(failed.state(), PeerState::Failed);
    iter.finish();
    assert!(iter.finished());
    assert_eq!(iter.next(Instant::now()), PeersIterState::Finished);
}
