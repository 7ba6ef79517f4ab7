use kad::kbucket::bucket::InsertResult;
use kad::kbucket::key::Key;
use kad::kbucket::sub_bucket::{Node, NodeStatus};
use kad::kbucket::weighted::Weighted;
use kad::W_VALUE;
use rand::Rng;
use std::collections::HashMap;
use std::time::Duration;

fn random_key() -> Key {
    let preimage: Vec<u8> = (0..38).map(|_| rand::thread_rng().gen::<u8>()).collect();
    Key::new(preimage)
}

fn random_weight_status() -> Vec<(u32, NodeStatus)> {
    let n = rand::thread_rng().gen_range(0..60);
    (0..n)
        .map(|_| {
            let w = rand::thread_rng().gen_range(0..5u32);
            let s = if rand::thread_rng().gen::<bool>() { NodeStatus::Connected } else { NodeStatus::Disconnected };
            (w, s)
        })
        .collect()
}

#[test]
fn simple_insert() {
    for _ in 0..50 {
        let weight_status = random_weight_status();
        let mut bucket = Weighted::new(Duration::from_secs(100000));
        for (i, (weight, status)) in weight_status.into_iter().enumerate() {
            let key = random_key();
            let node = Node { key: key.clone(), value: (), weight };

            let result = bucket.insert(node, status);
            if i < W_VALUE {
                assert_eq!(result, InsertResult::Inserted, "position {}", i);
            } else {
                match result {
                    InsertResult::Pending { .. } => {
                        assert_eq!(status, NodeStatus::Connected, "Only Connected nodes could become pending");
                        assert!(bucket.pending().is_some());
                    }
                    InsertResult::Inserted => {
                        assert!(false, "There shouldn't be a place in the bucket. {} {:?}", i, status);
                    }
                    InsertResult::Full => {}
                }
            }
        }
    }
}

#[test]
fn weight_priority() {
    for _ in 0..50 {
        let weight_status = random_weight_status();
        let mut bucket = Weighted::new(Duration::from_secs(100000));

        let mut map: HashMap<u32, Vec<(Node<Key, ()>, NodeStatus)>> = HashMap::new();
        for (weight, status) in weight_status {
            let node: Node<Key, ()> = Node { key: random_key(), value: (), weight };

            match bucket.insert(node.clone(), status.clone()) {
                InsertResult::Inserted => {
                    let nodes = map.entry(node.weight).or_insert(Vec::new());
                    let position = match status {
                        NodeStatus::Connected => nodes.len(),
                        NodeStatus::Disconnected => nodes.iter().filter(|t| t.1 == NodeStatus::Disconnected).count(),
                    };

                    nodes.insert(position, (node, status))
                }
                _ => {}
            }
        }

        let mut expected = map.into_iter().collect::<Vec<_>>();
        expected.sort_by_key(|(k, _)| *k);
        let expected = expected
            .into_iter()
            .flat_map(|(_, ns)| ns)
            .map(|(n, s)| (n.key, n.weight, s))
            .collect::<Vec<_>>();

        let bucket_nodes = bucket
            .iter()
            .into_iter()
            .map(|(n, s)| (n.key.clone(), n.weight, s))
            .collect::<Vec<_>>();

        assert_eq!(expected.len(), bucket_nodes.len());
        for i in 0..expected.len() {
            assert_eq!(expected[i], bucket_nodes[i], "\n\nposition {}", i);
        }
        assert!(expected == bucket_nodes);
    }
}

#[test]
fn weighted_pending_needs_a_lighter_node() {
    // A full weighted part accepts a connected pending node only if some
    // node weighs less.
    let mut bucket = Weighted::new(Duration::from_secs(100000));
    for _ in 0..W_VALUE {
        let n = Node { key: random_key(), value: (), weight: 5 };
        assert_eq!(bucket.insert(n, NodeStatus::Disconnected), InsertResult::Inserted);
    }
    let heavy = Node { key: random_key(), value: (), weight: 5 };
    assert_eq!(bucket.insert(heavy, NodeStatus::Connected), InsertResult::Full);
    let heavier = Node { key: random_key(), value: (), weight: 6 };
    match bucket.insert(heavier, NodeStatus::Connected) {
        InsertResult::Pending { .. } => {}
        x => panic!("Expected Pending, got {:?}", x),
    }
    assert!(bucket.pending().is_some());
    assert_eq!(bucket.num_entries(), W_VALUE);
}
