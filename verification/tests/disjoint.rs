use kad::kbucket::key::{Key, KeyBytes};
use kad::query::peers::closest::disjoint::ClosestDisjointPeersIter;
use kad::query::peers::closest::{ClosestPeersIter, ClosestPeersIterConfig};
use kad::query::peers::PeersIterState;
use kad::K_VALUE;
use rand::seq::SliceRandom;
use rand::{thread_rng, Rng};
use std::collections::{HashMap, HashSet};
use std::time::Instant;

fn random_peer() -> Vec<u8> {
    let mut id = vec![0x00, 0x24, 0x08, 0x01, 0x12, 0x20];
    id.extend((0..32).map(|_| thread_rng().gen::<u8>()));
    id
}

fn random_peers(n: usize) -> Vec<Vec<u8>> {
    (0..n).map(|_| random_peer()).collect()
}

#[test]
fn disjoint_s_kademlia_disjoint_paths() {
    let now = Instant::now();
    let target: KeyBytes = Key::new(random_peer()).into_key_bytes();

    let mut pool = (0..12).map(|_| Key::new(random_peer())).collect::<Vec<_>>();

    pool.sort_unstable_by(|a, b| target.distance(a).cmp(&target.distance(b)));

    let known_closest_peers = pool.split_off(pool.len() - 3);

    let config = ClosestPeersIterConfig {
        parallelism: 3,
        num_results: 3,
        ..ClosestPeersIterConfig::default()
    };

    let mut peers_iter = ClosestDisjointPeersIter::with_config(config.clone(), target, known_closest_peers.clone());

    ////////////////////////////////////////////////////////////////////////
    // First round.

    for _ in 0..3 {
        if let PeersIterState::Waiting(Some(peer)) = peers_iter.next(now) {
            assert!(known_closest_peers.contains(&Key::new(peer)));
        } else {
            panic!("Expected iterator to return peer to query.");
        }
    }

    assert_eq!(PeersIterState::WaitingAtCapacity, peers_iter.next(now));

    let response_2 = pool.split_off(pool.len() - 3);
    let response_3 = pool.split_off(pool.len() - 3);
    // Keys are closer than any of the previous two responses from honest node 1 and 2.
    let malicious_response_1 = pool.split_off(pool.len() - 3);

    // Response from malicious peer 1.
    peers_iter.on_success(
        known_closest_peers[0].preimage(),
        malicious_response_1.clone().into_iter().map(|k| k.preimage().clone()).collect(),
    );

    // Response from peer 2.
    peers_iter.on_success(
        known_closest_peers[1].preimage(),
        response_2.clone().into_iter().map(|k| k.preimage().clone()).collect(),
    );

    // Response from peer 3.
    peers_iter.on_success(
        known_closest_peers[2].preimage(),
        response_3.clone().into_iter().map(|k| k.preimage().clone()).collect(),
    );

    ////////////////////////////////////////////////////////////////////////
    // Second round.

    let mut next_to_query = vec![];
    for _ in 0..3 {
        if let PeersIterState::Waiting(Some(peer)) = peers_iter.next(now) {
            next_to_query.push(peer)
        } else {
            panic!("Expected iterator to return peer to query.");
        }
    }

    // Expect a peer from each disjoint path.
    assert!(next_to_query.contains(malicious_response_1[0].preimage()));
    assert!(next_to_query.contains(response_2[0].preimage()));
    assert!(next_to_query.contains(response_3[0].preimage()));

    for peer in next_to_query {
        peers_iter.on_success(&peer, vec![]);
    }

    // Mark all remaining peers as succeeded.
    for _ in 0..6 {
        if let PeersIterState::Waiting(Some(peer)) = peers_iter.next(now) {
            peers_iter.on_success(&peer, vec![]);
        } else {
            panic!("Expected iterator to return peer to query.");
        }
    }

    assert_eq!(PeersIterState::Finished, peers_iter.next(now));

    let final_peers: Vec<_> = peers_iter.into_result();

    // Expect final result to contain peer from each disjoint path, even though not all are
    // among the best ones.
    assert_eq!(config.num_results, final_peers.len());
    assert!(final_peers.contains(malicious_response_1[0].preimage()));
    assert!(final_peers.contains(response_2[0].preimage()));
    assert!(final_peers.contains(response_3[0].preimage()));
}

#[derive(Clone)]
struct Graph(HashMap<Vec<u8>, Peer>);

#[derive(Debug, Clone)]
struct Peer {
    known_peers: Vec<(Vec<u8>, Key)>,
}

impl Peer {
    fn get_closest_peers(&mut self, target: &KeyBytes) -> Vec<Vec<u8>> {
        self.known_peers
            .sort_unstable_by(|(_, a), (_, b)| target.distance(a).cmp(&target.distance(b)));

        self.known_peers.iter().take(K_VALUE).map(|(id, _)| id).cloned().collect()
    }
}

fn arbitrary_graph() -> Graph {
    let mut g = thread_rng();
    let mut peer_ids = random_peers(g.gen_range(K_VALUE..200))
        .into_iter()
        .map(|peer_id| (peer_id.clone(), Key::new(peer_id)))
        .collect::<Vec<_>>();

    let mut peers = peer_ids
        .clone()
        .into_iter()
        .map(|(peer_id, key)| {
            peer_ids.sort_unstable_by(|(_, a), (_, b)| key.distance(a).cmp(&key.distance(b)));

            assert_eq!(peer_id, peer_ids[0].0);

            let known_peers = peer_ids.iter().skip(1).take(K_VALUE).cloned().collect::<Vec<_>>();

            (peer_id, Peer { known_peers })
        })
        .collect::<HashMap<_, _>>();

    for (peer_id, peer) in peers.iter_mut() {
        peer_ids.shuffle(&mut g);

        let num_peers = g.gen_range(K_VALUE..peer_ids.len() + 1);
        let mut random_peer_ids = peer_ids
            .choose_multiple(&mut g, num_peers)
            .filter(|(id, _)| peer_id != id)
            .cloned()
            .collect::<Vec<_>>();

        peer.known_peers.append(&mut random_peer_ids);
        let mut seen = HashSet::new();
        peer.known_peers.retain(|(id, _)| seen.insert(id.clone()));
    }

    Graph(peers)
}

impl Graph {
    fn get_closest_peer(&self, target: &KeyBytes) -> Vec<u8> {
        self.0
            .iter()
            .map(|(peer_id, _)| (target.distance(&Key::new(peer_id.clone())), peer_id))
            .fold(None, |acc, (distance_b, peer_id_b)| match acc {
                None => Some((distance_b, peer_id_b)),
                Some((distance_a, peer_id_a)) => {
                    if distance_a < distance_b {
                        Some((distance_a, peer_id_a))
                    } else {
                        Some((distance_b, peer_id_b))
                    }
                }
            })
            .expect("Graph to have at least one peer.")
            .1
            .clone()
    }
}

enum PeerIterator {
    Disjoint(ClosestDisjointPeersIter),
    Closest(ClosestPeersIter),
}

impl PeerIterator {
    fn next(&mut self, now: Instant) -> PeersIterState {
        match self {
            PeerIterator::Disjoint(iter) => iter.next(now),
            PeerIterator::Closest(iter) => iter.next(now),
        }
    }

    fn on_success(&mut self, peer: &Vec<u8>, closer_peers: Vec<Vec<u8>>) {
        match self {
            PeerIterator::Disjoint(iter) => iter.on_success(peer, closer_peers),
            PeerIterator::Closest(iter) => iter.on_success(peer, closer_peers),
        }
    }

    fn into_result(self) -> Vec<Vec<u8>> {
        match self {
            PeerIterator::Disjoint(iter) => iter.into_result(),
            PeerIterator::Closest(iter) => iter.into_result(),
        }
    }
}

fn drive_to_finish(mut iter: PeerIterator, mut graph: Graph, target: &KeyBytes) -> HashSet<Vec<u8>> {
    let now = Instant::now();
    loop {
        match iter.next(now) {
            PeersIterState::Waiting(Some(peer_id)) => {
                let closest_peers = graph.0.get_mut(&peer_id).unwrap().get_closest_peers(target);
                iter.on_success(&peer_id, closest_peers);
            }
            PeersIterState::WaitingAtCapacity | PeersIterState::Waiting(None) => {
                panic!("There is never more than one request in flight.")
            }
            PeersIterState::Finished => break,
        }
    }

    let mut result = iter.into_result().into_iter().map(Key::new).collect::<Vec<_>>();
    result.sort_unstable_by(|a, b| target.distance(a).cmp(&target.distance(b)));
    result.into_iter().map(|k| k.into_preimage()).collect()
}

#[test]
fn closest_and_disjoint_closest_yield_same_result() {
    let mut tested = 0;
    while tested < 10 {
        let graph = arbitrary_graph();
        let parallelism = thread_rng().gen_range(1..10usize);
        let num_results = thread_rng().gen_range(1..K_VALUE);
        if parallelism > num_results {
            continue;
        }
        tested += 1;

        let target: KeyBytes = Key::new(random_peer()).into_key_bytes();
        let closest_peer = graph.get_closest_peer(&target);

        let mut known_closest_peers = graph
            .0
            .iter()
            .take(K_VALUE)
            .map(|(key, _peers)| Key::new(key.clone()))
            .collect::<Vec<_>>();
        known_closest_peers.sort_unstable_by(|a, b| target.distance(a).cmp(&target.distance(b)));

        let cfg = ClosestPeersIterConfig {
            parallelism,
            num_results,
            ..ClosestPeersIterConfig::default()
        };

        let closest = drive_to_finish(
            PeerIterator::Closest(ClosestPeersIter::with_config(cfg.clone(), target.clone(), known_closest_peers.clone())),
            graph.clone(),
            &target,
        );

        let disjoint = drive_to_finish(
            PeerIterator::Disjoint(ClosestDisjointPeersIter::with_config(cfg, target.clone(), known_closest_peers.clone())),
            graph.clone(),
            &target,
        );

        assert!(closest.contains(&closest_peer), "Expected ClosestPeersIter to find closest peer.");
        assert!(disjoint.contains(&closest_peer), "Expected ClosestDisjointPeersIter to find closest peer.");

        assert_eq!(closest.len(), disjoint.len());

        if closest != disjoint {
            let closest_only = closest.difference(&disjoint).collect::<Vec<_>>();
            let disjoint_only = disjoint.difference(&closest).collect::<Vec<_>>();

            panic!(
                "Expected both iterators to derive same peer set, but only `ClosestPeersIter` \
                 got {:?} and only `ClosestDisjointPeersIter` got {:?}.",
                closest_only, disjoint_only,
            );
        };
    }
}

#[test]
fn failures_reach_every_awaiting_iterator() {
    let now = Instant::now();
    let target: KeyBytes = Key::new(random_peer()).into_key_bytes();
    let known = (0..2).map(|_| Key::new(random_peer())).collect::<Vec<_>>();
    let config = ClosestPeersIterConfig {
        parallelism: 2,
        num_results: 2,
        ..ClosestPeersIterConfig::default()
    };
    let mut iter = ClosestDisjointPeersIter::with_config(config, target, known);
    let first = match iter.next(now) {
        PeersIterState::Waiting(Some(p)) => p,
        other => panic!("unexpected {:?}", other),
    };
    assert!(iter.is_waiting(&first));
    iter.on_failure(&first);
    assert!(!iter.is_waiting(&first));
    // Unknown peers are ignored.
    iter.on_failure(&random_peer());
    iter.on_success(&random_peer(), vec![random_peer()]);
    iter.finish();
    assert_eq!(iter.next(now), PeersIterState::Finished);
    assert!(iter.into_result().is_empty());
}
