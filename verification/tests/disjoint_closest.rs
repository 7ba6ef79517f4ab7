use kad::kbucket::key::{Key, KeyBytes};
use kad::query::peers::disjoint_closest::{
    split_inputs_per_disjoint_path, DisjointClosestPeersIter, DisjointClosestPeersIterConfig,
};
use kad::query::peers::PeersIterState;
use rand::{thread_rng, Rng};
use std::time::{Duration, Instant};

fn random_peer() -> Vec<u8> {
    let mut id = vec![0x00, 0x24, 0x08, 0x01, 0x12, 0x20];
    id.extend((0..32).map(|_| thread_rng().gen::<u8>()));
    id
}

fn arbitrary_config() -> DisjointClosestPeersIterConfig {
    let mut g = thread_rng();
    DisjointClosestPeersIterConfig {
        parallelism: g.gen::<u16>() as usize,
        num_results: g.gen::<u16>() as usize,
        disjoint_paths: g.gen::<u16>() as usize,
        peer_timeout: Duration::from_secs(1),
    }
}

fn arbitrary_peers() -> Vec<Key> {
    (0..thread_rng().gen_range(1..60)).map(|_| Key::new(random_peer())).collect()
}

#[test]
fn split_inputs_per_disjoint_path_quickcheck() {
    let mut tested = 0;
    while tested < 100 {
        let config = arbitrary_config();
        let peers = arbitrary_peers();
        if config.parallelism == 0 || config.num_results == 0 || config.disjoint_paths == 0 || peers.len() == 0 {
            continue;
        }
        tested += 1;

        let mut iters = split_inputs_per_disjoint_path(&config, peers.clone());

        // Ensure the sum of each resource of each disjoint path equals the allowed input.
        assert_eq!(config.parallelism, iters.iter().fold(0, |acc, (config, _)| acc + config.parallelism));
        assert_eq!(config.num_results, iters.iter().fold(0, |acc, (config, _)| acc + config.num_results));
        assert_eq!(peers.len(), iters.iter().fold(0, |acc, (_, peers)| acc + peers.len()));

        // Ensure 'best-effort' fairness, the highest and lowest are never more than 1 apart.
        iters.sort_by(|(a_config, _), (b_config, _)| a_config.parallelism.cmp(&b_config.parallelism));
        assert!(iters[iters.len() - 1].0.parallelism - iters[0].0.parallelism <= 1);

        iters.sort_by(|(a_config, _), (b_config, _)| a_config.num_results.cmp(&b_config.num_results));
        assert!(iters[iters.len() - 1].0.num_results - iters[0].0.num_results <= 1);

        iters.sort_by(|(_, a_peers), (_, b_peers)| a_peers.len().cmp(&b_peers.len()));
        assert!(iters[iters.len() - 1].1.len() - iters[0].1.len() <= 1);
    }
}

#[test]
fn split_ten_peers_over_four_paths() {
    let config = DisjointClosestPeersIterConfig {
        parallelism: 10,
        num_results: 10,
        disjoint_paths: 4,
        peer_timeout: Duration::from_secs(1),
    };
    let peers = (0..10).map(|_| Key::new(random_peer())).collect::<Vec<_>>();
    let parts = split_inputs_per_disjoint_path(&config, peers.clone());
    let sizes: Vec<usize> = parts.iter().map(|(_, p)| p.len()).collect();
    assert_eq!(sizes, vec![3, 3, 2, 2]);
    let pars: Vec<usize> = parts.iter().map(|(c, _)| c.parallelism).collect();
    assert_eq!(pars, vec![3, 3, 2, 2]);
    // The first path takes the last peers.
    assert_eq!(parts[0].1, peers[7..].to_vec());
    assert_eq!(parts[3].1, peers[..2].to_vec());
}

#[test]
fn disjoint_closest_s_kademlia_disjoint_paths() {
    let now = Instant::now();
    let target: KeyBytes = Key::new(random_peer()).into_key_bytes();

    let mut pool = (0..12).map(|_| Key::new(random_peer())).collect::<Vec<_>>();

    pool.sort_unstable_by(|a, b| target.distance(a).cmp(&target.distance(b)));

    let known_closest_peers = pool.split_off(pool.len() - 3);

    let config = DisjointClosestPeersIterConfig {
        parallelism: 3,
        disjoint_paths: 3,
        num_results: 3,
        ..DisjointClosestPeersIterConfig::default()
    };

    let mut peers_iter = DisjointClosestPeersIter::with_config(config, target, known_closest_peers.clone());

    // First round.
    for _ in 0..3 {
        if let PeersIterState::Waiting(Some(peer)) = peers_iter.next(now) {
            assert!(known_closest_peers.contains(&Key::new(peer)));
        } else {
            panic!("Expected iterator to return peer to query.");
        }
    }

    assert_eq!(PeersIterState::WaitingAtCapacity, peers_iter.next(now));

    let response_2 = pool.split_off(pool.len() - 3);
    let response_3 = pool.split_off(pool.len() - 3);
    // Keys are closer than any of the previous two responses from honest node 1 and 2.
    let malicious_response_1 = pool.split_off(pool.len() - 3);

    // Response from malicious peer 1.
    peers_iter.on_success(
        known_closest_peers[0].preimage(),
        malicious_response_1.clone().into_iter().map(|k| k.preimage().clone()).collect(),
    );

    // Response from peer 2.
    peers_iter.on_success(
        known_closest_peers[1].preimage(),
        response_2.clone().into_iter().map(|k| k.preimage().clone()).collect(),
    );

    // Response from peer 3.
    peers_iter.on_success(
        known_closest_peers[2].preimage(),
        response_3.clone().into_iter().map(|k| k.preimage().clone()).collect(),
    );

    // Second round.
    let mut next_to_query = vec![];
    for _ in 0..3 {
        if let PeersIterState::Waiting(Some(peer)) = peers_iter.next(now) {
            next_to_query.push(peer)
        } else {
            panic!("Expected iterator to return peer to query.");
        }
    }

    // Expect a peer from each disjoint path.
    assert!(next_to_query.contains(malicious_response_1[0].preimage()));
    assert!(next_to_query.contains(response_2[0].preimage()));
    assert!(next_to_query.contains(response_3[0].preimage()));

    for peer in next_to_query {
        peers_iter.on_success(&peer, vec![]);
    }

    assert_eq!(PeersIterState::Finished, peers_iter.next(now));

    let final_peers: Vec<_> = peers_iter.into_result();

    // Expect final result to contain peer from each disjoint path, even though not all are
    // among the best ones.
    assert!(final_peers.contains(malicious_response_1[0].preimage()));
    assert!(final_peers.contains(response_2[0].preimage()));
    assert!(final_peers.contains(response_3[0].preimage()));
}

#[test]
fn a_peer_is_used_on_one_path_only() {
    let now = Instant::now();
    let target: KeyBytes = Key::new(random_peer()).into_key_bytes();
    let known = (0..3).map(|_| Key::new(random_peer())).collect::<Vec<_>>();
    let config = DisjointClosestPeersIterConfig {
        parallelism: 3,
        disjoint_paths: 3,
        num_results: 9,
        ..DisjointClosestPeersIterConfig::default()
    };
    let mut iter = DisjointClosestPeersIter::with_config(config, target, known);
    let mut first = vec![];
    for _ in 0..3 {
        match iter.next(now) {
            PeersIterState::Waiting(Some(p)) => first.push(p),
            other => panic!("unexpected {:?}", other),
        }
    }
    // Every path reports the same new peer: only one path may contact it.
    let shared = random_peer();
    for p in &first {
        iter.on_success(p, vec![shared.clone()]);
    }
    assert!(!iter.is_waiting(&first[0]));
    let mut contacted = vec![];
    loop {
        match iter.next(now) {
            PeersIterState::Waiting(Some(p)) => contacted.push(p),
            _ => break,
        }
    }
    assert_eq!(contacted, vec![shared.clone()]);
    iter.on_failure(&shared);
    iter.finish();
    assert_eq!(iter.next(now), PeersIterState::Finished);
    assert_eq!(iter.into_result().len(), 3);
}
