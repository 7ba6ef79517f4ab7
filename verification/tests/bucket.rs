use kad::kbucket::bucket::{AppliedPending, InsertResult, KBucket};
use kad::kbucket::key::{KadKey, Key};
use kad::kbucket::sub_bucket::{Node, NodeStatus};
use kad::K_VALUE;
use rand::Rng;
use std::collections::VecDeque;
use std::time::{Duration, Instant};

fn random_key() -> Key {
    let preimage: Vec<u8> = (0..38).map(|_| rand::thread_rng().gen::<u8>()).collect();
    Key::new(preimage)
}

fn random_status() -> NodeStatus {
    if rand::thread_rng().gen::<bool>() {
        NodeStatus::Connected
    } else {
        NodeStatus::Disconnected
    }
}

fn node(key: Key, weight: u32) -> Node<Key, ()> {
    Node { key, value: (), weight }
}

// Fill a bucket with random nodes with the given status.
fn fill_bucket(bucket: &mut KBucket<Key, ()>, status: NodeStatus) {
    let num_entries_start = bucket.num_entries();
    for i in 0..K_VALUE - num_entries_start {
        let n = node(random_key(), 0);
        assert_eq!(InsertResult::Inserted, bucket.insert(n, status));
        assert_eq!(bucket.num_entries(), num_entries_start + i + 1);
    }
}

fn random_bucket() -> KBucket<Key, ()> {
    let mut bucket = KBucket::<Key, ()>::new(Duration::from_secs(1));
    let num = rand::thread_rng().gen_range(1..=K_VALUE);
    for _ in 0..num {
        match bucket.insert(node(random_key(), 0), random_status()) {
            InsertResult::Inserted => {}
            _ => panic!(),
        }
    }
    bucket
}

#[test]
fn ordering() {
    for _ in 0..50 {
        let mut bucket = KBucket::<Key, ()>::new(Duration::from_secs(1));

        // The expected lists of connected and disconnected nodes.
        let mut connected = VecDeque::new();
        let mut disconnected = VecDeque::new();

        let n = rand::thread_rng().gen_range(0..40);
        for _ in 0..n {
            let status = random_status();
            let key = random_key();
            let full = bucket.num_entries() == K_VALUE;
            match bucket.insert(node(key.clone(), 0), status) {
                InsertResult::Inserted => {
                    let vec = match status {
                        NodeStatus::Connected => &mut connected,
                        NodeStatus::Disconnected => &mut disconnected,
                    };
                    if full {
                        vec.pop_front();
                    }
                    vec.push_back((status, key.clone()));
                }
                _ => {}
            }
        }

        // Get all nodes from the bucket, together with their status.
        let mut nodes = bucket
            .iter()
            .into_iter()
            .map(|(n, s)| (s, n.key.clone()))
            .collect::<Vec<_>>();

        // Split the list of nodes at the first connected node.
        let first_connected_pos = nodes.iter().position(|(s, _)| *s == NodeStatus::Connected);
        let tail = first_connected_pos.map_or(Vec::new(), |p| nodes.split_off(p));

        // All nodes before the first connected node must be disconnected and
        // in insertion order. Similarly, all remaining nodes must be connected
        // and in insertion order.
        assert!(nodes == Vec::from(disconnected) && tail == Vec::from(connected));
    }
}

#[test]
fn full_bucket() {
    let mut bucket = KBucket::<Key, ()>::new(Duration::from_secs(1));

    // Fill the bucket with disconnected nodes.
    fill_bucket(&mut bucket, NodeStatus::Disconnected);

    // Trying to insert another disconnected node fails.
    match bucket.insert(node(random_key(), 0), NodeStatus::Disconnected) {
        InsertResult::Full => {}
        x => panic!("Expected Full, got {:?}", x),
    }

    // One-by-one fill the bucket with connected nodes, replacing the disconnected ones.
    for _i in 0..K_VALUE {
        let (first, first_status) = bucket.iter()[0];
        let first_disconnected = first.clone();
        assert_eq!(first_status, NodeStatus::Disconnected);

        // Add a connected node, which is expected to be pending, scheduled to
        // replace the first (i.e. least-recently connected) node.
        let key = random_key();
        let n = node(key.clone(), 0);
        match bucket.insert(n.clone(), NodeStatus::Connected) {
            InsertResult::Pending { disconnected } => {
                assert_eq!(disconnected, first_disconnected.key)
            }
            x => panic!("Expected Pending, got {:?}", x),
        }

        // Trying to insert another connected node fails.
        match bucket.insert(n.clone(), NodeStatus::Connected) {
            InsertResult::Full => {}
            x => panic!("Expected Full, got {:?}", x),
        }

        assert!(!bucket.pending().is_empty());

        // Apply the pending node.
        let pending = bucket.pending_mut(&key).expect("No pending node.");
        pending.set_ready_at(Instant::now() - Duration::from_secs(1));
        let result = bucket.apply_pending();
        assert_eq!(
            result,
            vec![AppliedPending {
                inserted: n.clone(),
                evicted: Some(first_disconnected)
            }]
        );
        assert_eq!(Some((&n, NodeStatus::Connected)), bucket.iter().last().cloned());
        assert!(bucket.pending().is_empty());
    }

    assert!(bucket.pending().is_empty());
    assert_eq!(K_VALUE, bucket.num_entries());

    // Trying to insert another connected node fails.
    match bucket.insert(node(random_key(), 0), NodeStatus::Connected) {
        InsertResult::Full => {}
        x => panic!("{:?}", x),
    }
}

#[test]
fn full_bucket_discard_pending() {
    let mut bucket = KBucket::<Key, ()>::new(Duration::from_secs(1));
    fill_bucket(&mut bucket, NodeStatus::Disconnected);
    let (first, _) = bucket.iter()[0];
    let first_disconnected = first.clone();

    // Add a connected pending node.
    let key = random_key();
    if let InsertResult::Pending { disconnected } = bucket.insert(node(key.clone(), 0), NodeStatus::Connected) {
        assert_eq!(&disconnected, &first_disconnected.key);
    } else {
        panic!()
    }
    assert!(!bucket.pending().is_empty());

    // Update the status of the first disconnected node to be connected.
    bucket.update(&first_disconnected.key, NodeStatus::Connected);

    // The pending node has been discarded.
    assert!(bucket.pending().is_empty());
    assert!(bucket.iter().iter().all(|(n, _)| &n.key != &key));

    // The initially disconnected node is now the most-recently connected.
    assert_eq!(
        Some((&first_disconnected, NodeStatus::Connected)),
        bucket.iter().last().cloned()
    );

    let entries = bucket.iter();
    let num_connected = entries.iter().filter(|(_, s)| *s == NodeStatus::Connected).count();
    let num_disconnected = entries.iter().filter(|(_, s)| *s == NodeStatus::Disconnected).count();
    let position = entries
        .iter()
        .position(|(n, _)| n.key.key_bytes() == first_disconnected.key.key_bytes());

    assert_eq!(1, num_connected);
    assert_eq!(K_VALUE - 1, num_disconnected);
    assert_eq!(position, Some(num_disconnected));
}

#[test]
fn bucket_update() {
    for _ in 0..100 {
        let mut bucket = random_bucket();
        let status = random_status();
        let mut nodes = bucket
            .iter()
            .into_iter()
            .map(|(n, s)| (n.clone(), s))
            .collect::<Vec<_>>();

        // Record the (ordered) list of status of all nodes in the bucket.
        let mut expected = nodes
            .iter()
            .map(|(n, s)| (n.key.clone(), *s))
            .collect::<Vec<_>>();

        // Capture position and key of the random node to update.
        let pos = rand::thread_rng().gen::<usize>() % bucket.num_entries();
        let key = expected.iter().nth(pos).unwrap().0.clone();

        // Update the node in the bucket.
        bucket.update(&key, status);

        nodes.remove(pos);
        // Check that the bucket now contains the node with the new status,
        // preserving the status and relative order of all other nodes.
        let expected_pos = match status {
            NodeStatus::Connected => nodes.len(),
            NodeStatus::Disconnected => nodes
                .iter()
                .filter(|(_, s)| *s == NodeStatus::Disconnected)
                .count(),
        };
        expected.remove(pos);
        expected.insert(expected_pos, (key.clone(), status));

        let actual = bucket
            .iter()
            .into_iter()
            .map(|(n, s)| (n.key.clone(), s))
            .collect::<Vec<_>>();

        assert_eq!(expected, actual, "pos was {}", pos);
    }
}

#[test]
fn weighted_nodes_go_to_the_weighted_part() {
    let mut bucket = KBucket::<Key, ()>::new(Duration::from_secs(1));
    let a = node(random_key(), 3);
    let b = node(random_key(), 0);
    let c = node(random_key(), 1);
    assert_eq!(bucket.insert(a.clone(), NodeStatus::Connected), InsertResult::Inserted);
    assert_eq!(bucket.insert(b.clone(), NodeStatus::Connected), InsertResult::Inserted);
    assert_eq!(bucket.insert(c.clone(), NodeStatus::Disconnected), InsertResult::Inserted);
    assert_eq!(bucket.num_entries(), 3);
    let weighted: Vec<Key> = bucket.weighted().into_iter().map(|(n, _)| n.key.clone()).collect();
    assert_eq!(weighted, vec![c.key.clone(), a.key.clone()]);
    let swamp: Vec<Key> = bucket.swamp().into_iter().map(|(n, _)| n.key.clone()).collect();
    assert_eq!(swamp, vec![b.key.clone()]);
    // The weighted part comes first.
    let all: Vec<Key> = bucket.iter().into_iter().map(|(n, _)| n.key.clone()).collect();
    assert_eq!(all, vec![c.key.clone(), a.key.clone(), b.key.clone()]);
    assert_eq!(bucket.status(&a.key), Some(NodeStatus::Connected));
    assert_eq!(bucket.status(&c.key), Some(NodeStatus::Disconnected));
    assert_eq!(bucket.status(&random_key()), None);
}

#[test]
fn insert_result_description() {
    assert_eq!(InsertResult::<Key>::Inserted.description(), "InsertResult::Inserted");
    assert_eq!(InsertResult::<Key>::Full.description(), "InsertResult::Full");
    assert_eq!(
        InsertResult::Pending { disconnected: random_key() }.description(),
        "InsertResult::Pending"
    );
}
