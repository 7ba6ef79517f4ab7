use kad::kbucket::bucket::{AppliedPending, InsertResult, KBucket};
use kad::kbucket::closest::{BucketIndex, ClosestBucketsIter};
use kad::kbucket::key::{Distance, KadKey, Key, KeyBytes};
use kad::kbucket::sub_bucket::{Node, NodeStatus};
use kad::kbucket::table::{Entry, KBucketRef, KBucketsTable};
use kad::K_VALUE;
use rand::Rng;
use std::time::Duration;

fn random_key() -> Key {
    let preimage: Vec<u8> = (0..38).map(|_| rand::thread_rng().gen::<u8>()).collect();
    Key::new(preimage)
}

fn random_status() -> NodeStatus {
    if rand::thread_rng().gen::<bool>() {
        NodeStatus::Connected
    } else {
        NodeStatus::Disconnected
    }
}

/// Adds one to a 256-bit big-endian number; `None` on overflow.
fn plus_one(a: [u8; 32]) -> Option<[u8; 32]> {
    let mut out = a;
    for i in (0..32).rev() {
        if out[i] == 0xff {
            out[i] = 0;
        } else {
            out[i] += 1;
            return Some(out);
        }
    }
    None
}

/// Subtracts one from a 256-bit big-endian number; `None` on underflow.
fn minus_one(a: [u8; 32]) -> Option<[u8; 32]> {
    let mut out = a;
    for i in (0..32).rev() {
        if out[i] == 0 {
            out[i] = 0xff;
        } else {
            out[i] -= 1;
            return Some(out);
        }
    }
    None
}

/// A table of random nodes, as many in each bucket as fit.
fn random_table() -> KBucketsTable<KeyBytes, ()> {
    let local_key = KeyBytes::from_unchecked(rand::thread_rng().gen::<[u8; 32]>());
    let timeout = Duration::from_secs(rand::thread_rng().gen_range(1..360));
    let mut table = KBucketsTable::<KeyBytes, ()>::new(local_key, timeout);
    let mut num_total = rand::thread_rng().gen_range(0..100);
    for i in (0..256).rev() {
        let ix = BucketIndex(i);
        let num = rand::thread_rng().gen_range(0..usize::min(K_VALUE, num_total) + 1);
        num_total -= num;
        for _ in 0..num {
            let distance = ix.rand_distance();
            let key = local_key.for_distance(distance);
            match table.entry(&key) {
                Entry::Absent(e) => match e.insert(&mut table, (), random_status(), 0) {
                    InsertResult::Inserted => {}
                    _ => panic!(),
                },
                _ => {}
            }
        }
    }
    table
}

#[test]
fn buckets_are_non_overlapping_and_exhaustive() {
    let local_key = random_key();
    let timeout = Duration::from_secs(0);
    let mut table = KBucketsTable::<Key, ()>::new(local_key, timeout);

    let mut prev_max = [0u8; 32];

    for bucket in table.iter() {
        let (min, max) = bucket.range();
        assert_eq!(Distance::from_bytes(plus_one(prev_max).unwrap()), min);
        prev_max = max.to_bytes();
    }

    assert_eq!([0xffu8; 32], prev_max);
}

#[test]
fn bucket_contains_range() {
    for ix in 0..256usize {
        let bucket = KBucket::<Key, ()>::new(Duration::from_secs(0));
        let bucket_ref = KBucketRef { index: BucketIndex(ix), bucket: &bucket };

        let (min, max) = bucket_ref.range();

        assert!(min <= max);

        assert!(bucket_ref.contains(&min));
        assert!(bucket_ref.contains(&max));

        assert!(!bucket_ref.contains(&Distance::from_bytes(minus_one(min.to_bytes()).unwrap())));
        if let Some(above) = plus_one(max.to_bytes()) {
            assert!(!bucket_ref.contains(&Distance::from_bytes(above)));
        }
    }
}

#[test]
fn rand_distance() {
    for ix in 0..256usize {
        for _ in 0..4 {
            let d = BucketIndex(ix).rand_distance();
            let (lower, upper) = BucketIndex(ix).range();
            assert!(lower <= d && d <= upper);
            assert_eq!(d.ilog2(), Some(ix as u32));
        }
    }
}

#[test]
fn entry_inserted() {
    let local_key = random_key();
    let other_id = random_key();

    let mut table = KBucketsTable::<_, ()>::new(local_key, Duration::from_secs(5));
    if let Entry::Absent(entry) = table.entry(&other_id) {
        match entry.insert(&mut table, (), NodeStatus::Connected, 0) {
            InsertResult::Inserted => (),
            _ => panic!(),
        }
    } else {
        panic!()
    }

    let res = table.closest_keys(&other_id);
    assert_eq!(res.len(), 1);
    assert_eq!(res[0], other_id);
}

#[test]
fn entry_self() {
    let local_key = random_key();
    let mut table = KBucketsTable::<_, ()>::new(local_key.clone(), Duration::from_secs(5));
    match table.entry(&local_key) {
        Entry::SelfEntry => (),
        _ => panic!(),
    }
}

#[test]
fn closest() {
    let local_key = random_key();
    let mut table = KBucketsTable::<_, ()>::new(local_key, Duration::from_secs(5));
    let mut count = 0;
    loop {
        if count == 100 {
            break;
        }
        let key = random_key();
        if let Entry::Absent(e) = table.entry(&key) {
            match e.insert(&mut table, (), NodeStatus::Connected, 0) {
                InsertResult::Inserted => count += 1,
                _ => continue,
            }
        } else {
            panic!("entry exists")
        }
    }

    let mut expected_keys: Vec<Key> = table
        .iter()
        .into_iter()
        .flat_map(|t| t.iter().into_iter().map(|(n, _)| n.key.clone()).collect::<Vec<_>>())
        .collect();

    for _ in 0..10 {
        let target_key = random_key();
        let keys = table.closest_keys(&target_key);
        // The list of keys is expected to match the result of a full-table scan.
        expected_keys.sort_by_key(|k| k.distance(&target_key));
        assert_eq!(keys, expected_keys);
        // The entries come in the same order.
        let entries: Vec<Key> = table.closest(&target_key).into_iter().map(|e| e.node.key).collect();
        assert_eq!(entries, expected_keys);
    }
}

#[test]
fn applied_pending() {
    let local_key = random_key();
    let mut table = KBucketsTable::<_, ()>::new(local_key.clone(), Duration::from_millis(0));
    let expected_applied;
    loop {
        let key = random_key();
        if let Entry::Absent(e) = table.entry(&key) {
            match e.insert(&mut table, (), NodeStatus::Disconnected, 0) {
                InsertResult::Full => {
                    if let Entry::Absent(e) = table.entry(&key) {
                        match e.insert(&mut table, (), NodeStatus::Connected, 0) {
                            InsertResult::Pending { disconnected } => {
                                expected_applied = AppliedPending {
                                    inserted: Node { key: key.clone(), value: (), weight: 0 },
                                    evicted: Some(Node { key: disconnected, value: (), weight: 0 }),
                                };
                                break;
                            }
                            _ => panic!(),
                        }
                    } else {
                        panic!()
                    }
                }
                _ => continue,
            }
        } else {
            panic!("entry exists")
        }
    }

    // The timeout of the pending entry has passed: looking at its bucket applies it.
    match table.entry(&expected_applied.inserted.key) {
        Entry::Present(_, NodeStatus::Connected) => {}
        x => panic!("Unexpected entry: {:?}", x),
    }

    match table.entry(&expected_applied.evicted.as_ref().unwrap().key) {
        Entry::Absent(_) => {}
        x => panic!("Unexpected entry: {:?}", x),
    }

    assert_eq!(Some(expected_applied), table.take_applied_pending());
    assert_eq!(None, table.take_applied_pending());
}

#[test]
fn count_nodes_between() {
    for _ in 0..10 {
        let table = random_table();
        let local_key = *table.local_key();
        let target = random_key();
        let num_to_target = table.count_nodes_between(&target);
        let distance = local_key.distance(&target);
        let mut iter = ClosestBucketsIter::new(distance);
        while let Some(i) = iter.next() {
            // Flip the distance bit related to the bucket.
            let mut bytes = distance.to_bytes();
            bytes[31 - i.get() / 8] ^= 1u8 << (i.get() % 8);
            let d = Distance::from_bytes(bytes);
            let k = local_key.for_distance(d);
            if distance.bit(i.get()) {
                // Bit flip `1` -> `0`, the key must be closer than `target`.
                assert!(d < distance && table.count_nodes_between(&k) <= num_to_target);
            } else {
                // Bit flip `0` -> `1`, the key must be farther than `target`.
                assert!(d > distance && table.count_nodes_between(&k) >= num_to_target);
            }
        }
    }
}

#[test]
fn weighted_first() {
    let local_key = random_key();
    let mut table = KBucketsTable::<_, ()>::new(local_key.clone(), Duration::from_secs(5));

    let mut insert = |table: &mut KBucketsTable<Key, ()>, id: Key, weight: u32| {
        if let Entry::Absent(e) = table.entry(&id) {
            if let InsertResult::Inserted = e.insert(table, (), NodeStatus::Connected, weight) {
                return Some(id);
            }
        }
        None
    };

    let target_min_distance = 250;
    // Generate weighted target
    let target = loop {
        let id = random_key();
        let distance = local_key.distance(&id);
        let idx = BucketIndex::new(&distance).unwrap_or(BucketIndex(0)).get();
        if idx > target_min_distance {
            let target = insert(&mut table, id, 10).expect("inserted");
            break target;
        }
    };

    let mut swamp = 100;
    let max_distance = 252;
    while swamp > 0 {
        let id = random_key();
        let distance = local_key.distance(&id);
        let idx = BucketIndex::new(&distance).unwrap_or(BucketIndex(0)).get();
        if idx < max_distance && insert(&mut table, id, 0).is_some() {
            swamp -= 1;
        }
    }

    // Start from bucket 0
    let closest = table.closest_keys(&local_key).into_iter().take(1).collect::<Vec<_>>();
    assert!(closest.contains(&target));

    // Start from target
    let closest = table.closest_keys(&target).into_iter().take(1).collect::<Vec<_>>();
    assert!(closest.contains(&target));

    // Start from random
    let random = random_key();
    let closest = table.closest_keys(&random).into_iter().take(1).collect::<Vec<_>>();
    assert!(closest.contains(&target));
}

#[test]
fn weighted_groups_interleave_with_the_swamp() {
    // Five weighted nodes and three swamp nodes, all in the bucket of the
    // target: groups of four weighted nodes, each full group followed by a
    // swamp node.
    let local = KeyBytes::from_unchecked([0u8; 32]);
    let mut table = KBucketsTable::<KeyBytes, ()>::new(local, Duration::from_secs(5));
    let mut weighted = Vec::new();
    let mut swamp = Vec::new();
    for j in 1..=8u8 {
        let mut b = [0u8; 32];
        b[0] = 0x80;
        b[31] = j;
        let k = KeyBytes::from_unchecked(b);
        let w = if j <= 5 { 1 } else { 0 };
        match table.entry(&k) {
            Entry::Absent(e) => assert_eq!(e.insert(&mut table, (), NodeStatus::Connected, w), InsertResult::Inserted),
            _ => panic!(),
        }
        if w > 0 {
            weighted.push(k);
        } else {
            swamp.push(k);
        }
    }
    let mut t = [0u8; 32];
    t[0] = 0x80;
    let target = KeyBytes::from_unchecked(t);
    let keys = table.closest_keys(&target);
    let expected = vec![
        weighted[0], weighted[1], weighted[2], weighted[3], swamp[0], weighted[4], swamp[1], swamp[2],
    ];
    assert_eq!(keys, expected);
}

fn bucket_order(low: u8) -> Vec<usize> {
    let mut bytes = [0u8; 32];
    bytes[31] = low;
    let mut iter = ClosestBucketsIter::new(Distance::from_bytes(bytes));
    let mut out = Vec::new();
    while let Some(i) = iter.next() {
        out.push(i.get());
    }
    out
}

#[test]
fn buckets_visited_once_by_distance() {
    let mut expected = vec![2usize, 0, 1];
    expected.extend(3..256);
    assert_eq!(bucket_order(5), expected);
    for low in [0u8, 1, 2, 3, 4, 6, 255] {
        let mut order = bucket_order(low);
        assert_eq!(order.len(), 256);
        order.sort();
        assert_eq!(order, (0..256).collect::<Vec<_>>());
    }
    let mut expected = vec![0usize];
    expected.extend(1..256);
    assert_eq!(bucket_order(0), expected);
    assert_eq!(bucket_order(1), expected);
}
