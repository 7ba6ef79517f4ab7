use kad::addresses::Addresses;
use kad::behaviour::kademlia::{Kademlia, KademliaAction, PollStep};
use kad::behaviour::{KademliaConfig, KademliaEvent, QueryInfo};
use kad::kbucket::bucket::{InsertResult, KBucket};
use kad::kbucket::key::{KadKey, Key};
use kad::kbucket::sub_bucket::{Node, NodeStatus};
use kad::kbucket::swamp::Swamp;
use kad::kbucket::table::{Entry, KBucketsTable};
use kad::kbucket::weighted::Weighted;
use kad::record::store::memory::MemoryStore;
use kad::query::{QueryConfig, QueryPool, QueryPoolState};
use kad::{K_VALUE, W_VALUE};
use std::time::{Duration, Instant};

fn key_of(i: u32) -> Key {
    Key::new(i.to_be_bytes().to_vec())
}

fn node(id: Vec<u8>) -> Kademlia {
    Kademlia::with_config(id.clone(), MemoryStore::new(id), KademliaConfig::default())
}

#[test]
fn full_swamp_takes_a_pending_node_with_its_deadline() {
    let mut swamp: Swamp<Key, ()> = Swamp::new(Duration::from_secs(60));
    for i in 0..K_VALUE as u32 {
        assert_eq!(swamp.insert(Node { key: key_of(i), value: (), weight: 0 }, NodeStatus::Disconnected), InsertResult::Inserted);
    }
    let before = Instant::now();
    let r = swamp.insert(Node { key: key_of(1000), value: (), weight: 0 }, NodeStatus::Connected);
    assert_eq!(r, InsertResult::Pending { disconnected: key_of(0) });
    let p = swamp.pending().expect("pending node");
    assert_eq!(p.node.key, key_of(1000));
    assert_eq!(p.status, NodeStatus::Connected);
    assert!(p.replace >= before + Duration::from_secs(60));
    assert_eq!(swamp.num_entries(), K_VALUE);
}

#[test]
fn weighted_reconnect_cancels_pending() {
    let mut wt: Weighted<Key, ()> = Weighted::new(Duration::from_secs(60));
    for i in 0..W_VALUE as u32 {
        assert_eq!(wt.insert(Node { key: key_of(i), value: (), weight: 1 }, NodeStatus::Disconnected), InsertResult::Inserted);
    }
    let r = wt.insert(Node { key: key_of(500), value: (), weight: 3 }, NodeStatus::Connected);
    assert_eq!(r, InsertResult::Pending { disconnected: key_of(0) });
    assert!(wt.pending().is_some());
    let n0 = wt.num_entries();
    assert!(wt.update(&key_of(0), NodeStatus::Connected));
    assert!(wt.pending().is_none());
    assert_eq!(wt.status(&key_of(0)), Some(NodeStatus::Connected));
    assert_eq!(wt.num_entries(), n0);
}

#[test]
fn weighted_update_of_another_node_keeps_pending() {
    let mut wt: Weighted<Key, ()> = Weighted::new(Duration::from_secs(60));
    for i in 0..W_VALUE as u32 {
        assert_eq!(wt.insert(Node { key: key_of(i), value: (), weight: 1 }, NodeStatus::Disconnected), InsertResult::Inserted);
    }
    let r = wt.insert(Node { key: key_of(500), value: (), weight: 3 }, NodeStatus::Connected);
    assert_eq!(r, InsertResult::Pending { disconnected: key_of(0) });
    assert!(wt.update(&key_of(5), NodeStatus::Connected));
    assert!(wt.pending().is_some());
}

#[test]
fn weighted_pending_names_only_a_disconnected_node() {
    let mut wt: Weighted<Key, ()> = Weighted::new(Duration::from_secs(60));
    for i in 0..W_VALUE as u32 {
        assert_eq!(wt.insert(Node { key: key_of(i), value: (), weight: 1 }, NodeStatus::Connected), InsertResult::Inserted);
    }
    let r = wt.insert(Node { key: key_of(500), value: (), weight: 3 }, NodeStatus::Connected);
    assert_eq!(r, InsertResult::Full);
    assert!(wt.pending().is_none());
}

#[test]
fn applied_pending_hands_back_the_pending_node() {
    let mut bucket = KBucket::<Key, u32>::new(Duration::from_secs(60));
    for i in 0..K_VALUE as u32 {
        let _ = bucket.insert(Node { key: key_of(i), value: i, weight: 0 }, NodeStatus::Disconnected);
    }
    let n = Node { key: key_of(900), value: 77u32, weight: 0 };
    assert!(matches!(bucket.insert(n.clone(), NodeStatus::Connected), InsertResult::Pending { .. }));
    bucket.pending_mut(&key_of(900)).expect("pending").set_ready_at(Instant::now() - Duration::from_secs(1));
    let applied = bucket.apply_pending();
    assert_eq!(applied.len(), 1);
    assert_eq!(applied[0].inserted, n);
    assert_eq!(applied[0].evicted.as_ref().map(|e| e.key.clone()), Some(key_of(0)));
}

#[test]
fn bucket_ref_reports_a_pending_node() {
    let local = Key::new(vec![0u8]);
    let mut table = KBucketsTable::<Key, ()>::new(local.clone(), Duration::from_secs(60));
    let mut count = 0;
    let mut i: u32 = 0;
    let mut bucket_key: Option<usize> = None;
    while count <= K_VALUE {
        let k = key_of(i);
        i += 1;
        let d = local.distance(&k);
        let idx = kad::kbucket::closest::BucketIndex::new(&d).unwrap().get();
        if idx != 255 {
            continue;
        }
        bucket_key = Some(idx);
        if let Entry::Absent(e) = table.entry(&k) {
            let status = if count < K_VALUE { NodeStatus::Disconnected } else { NodeStatus::Connected };
            let r = e.insert(&mut table, (), status, 0);
            if count == K_VALUE {
                assert!(matches!(r, InsertResult::Pending { .. }));
            }
        }
        count += 1;
    }
    let idx = bucket_key.unwrap();
    let refs = table.iter();
    assert!(refs[idx].has_pending());
    assert!(!refs[0].has_pending());
}

#[test]
fn add_address_enters_the_routing_table() {
    let mut k = node(vec![1u8, 2, 3]);
    k.add_address(vec![9u8, 9], vec![4u8], false);
    match k.queued_events() {
        [KademliaAction::GenerateEvent(KademliaEvent::RoutingUpdated { peer, addresses, old_peer })] => {
            assert_eq!(peer, &vec![9u8, 9]);
            assert_eq!(addresses.iter(), &[vec![4u8]][..]);
            assert!(old_peer.is_none());
        }
        other => panic!("unexpected {:?}", other),
    }
    // The same address again changes nothing.
    k.add_address(vec![9u8, 9], vec![4u8], false);
    assert_eq!(k.queued_events().len(), 1);
    // A new address is added and reported.
    k.add_address(vec![9u8, 9], vec![5u8], true);
    assert_eq!(k.queued_events().len(), 2);
    match &k.queued_events()[1] {
        KademliaAction::GenerateEvent(KademliaEvent::RoutingUpdated { addresses, .. }) => {
            assert_eq!(addresses.iter(), &[vec![4u8], vec![5u8]][..]);
        }
        other => panic!("unexpected {:?}", other),
    }
    // The local id is never added.
    k.add_address(vec![1u8, 2, 3], vec![6u8], true);
    assert_eq!(k.queued_events().len(), 2);
}

#[test]
fn poll_step_drains_queued_actions_in_order() {
    let mut k = node(vec![1u8]);
    assert!(matches!(k.poll_step(&vec![], Instant::now()), PollStep::Pending));
    k.add_address(vec![2u8], vec![7u8], false);
    k.add_address(vec![3u8], vec![8u8], false);
    match k.poll_step(&vec![], Instant::now()) {
        PollStep::Ready(KademliaAction::GenerateEvent(KademliaEvent::RoutingUpdated { peer, .. })) => assert_eq!(peer, vec![2u8]),
        other => panic!("unexpected {:?}", other),
    }
    match k.poll_step(&vec![], Instant::now()) {
        PollStep::Ready(KademliaAction::GenerateEvent(KademliaEvent::RoutingUpdated { peer, .. })) => assert_eq!(peer, vec![3u8]),
        other => panic!("unexpected {:?}", other),
    }
    assert!(k.queued_events().is_empty());
}

#[test]
fn poll_step_asks_to_dial_an_unconnected_peer() {
    let mut k = node(vec![1u8]);
    k.add_address(vec![2u8], vec![7u8], false);
    let _ = k.poll_step(&vec![], Instant::now());
    k.get_closest_peers(vec![5u8]);
    let step = k.poll_step(&vec![], Instant::now());
    assert!(matches!(step, PollStep::Continue));
    match k.queued_events() {
        [KademliaAction::DialPeer { peer_id }] => assert_eq!(peer_id, &vec![2u8]),
        other => panic!("unexpected {:?}", other),
    }
    k.get_closest_peers(vec![6u8]);
    let _ = k.poll_step(&vec![], Instant::now());
    let step = k.poll_step(&vec![vec![2u8]], Instant::now());
    assert!(matches!(step, PollStep::Continue));
    assert!(matches!(k.queued_events(), [KademliaAction::SendEvent { .. }]));
}

#[test]
fn bootstrap_refresh_looks_up_every_farther_bucket() {
    let mut k = node(vec![1u8]);
    // No peer known: every bucket is empty and nothing is refreshed.
    let candidates: Vec<Vec<Vec<u8>>> = (0..256u32).map(|i| vec![i.to_be_bytes().to_vec()]).collect();
    k.bootstrap_refresh(candidates.clone());
    assert_eq!(k.queries().iter().len(), 0);
    // One peer known, in bucket `b`: the buckets after it are refreshed.
    k.add_address(vec![2u8], vec![7u8], false);
    let b = Key::new(vec![1u8]).distance(&Key::new(vec![2u8]));
    let idx = kad::kbucket::closest::BucketIndex::new(&b).unwrap().get();
    k.bootstrap_refresh(candidates.clone());
    let qs = k.queries().iter();
    assert_eq!(qs.len(), 255 - idx);
    for (j, q) in qs.iter().enumerate() {
        match &q.inner {
            QueryInfo::Bootstrap { peer } => assert_eq!(peer, &candidates[idx + 1 + j][0]),
            other => panic!("unexpected {:?}", other),
        }
    }
}

#[test]
fn addresses_duplicate_is_equal() {
    let mut a = Addresses::new(vec![1u8]);
    let _ = a.insert(vec![2u8]);
    let b = a.duplicate();
    assert_eq!(b.iter(), a.iter());
}

fn peer(id: Vec<u8>) -> kad::protocol::KadPeer {
    kad::protocol::KadPeer { node_id: id, multiaddrs: vec![vec![1u8, 1]], connection_ty: kad::protocol::ConnectionType::Connected }
}

#[test]
fn find_node_request_is_answered_without_the_source() {
    let mut k = node(vec![1u8]);
    for i in 2..6u8 {
        k.add_address(vec![i], vec![i, i], i % 2 == 0);
    }
    while let PollStep::Ready(_) = k.poll_step(&vec![], Instant::now()) {}
    let rid = kad::handler::RequestId { connec_unique_id: 9 };
    k.on_find_node_req(vec![3u8], vec![42u8], rid);
    match k.queued_events() {
        [KademliaAction::SendEvent { peer_id, event: kad::handler::HandlerIn::FindNodeRes { closer_peers, request_id } }] => {
            assert_eq!(peer_id, &vec![3u8]);
            assert_eq!(*request_id, rid);
            let ids: Vec<Vec<u8>> = closer_peers.iter().map(|p| p.node_id.clone()).collect();
            assert_eq!(ids.len(), 3);
            assert!(!ids.contains(&vec![3u8]));
            for p in closer_peers {
                let expected = if p.node_id[0] % 2 == 0 {
                    kad::protocol::ConnectionType::Connected
                } else {
                    kad::protocol::ConnectionType::NotConnected
                };
                assert_eq!(p.connection_ty, expected);
                assert_eq!(p.multiaddrs, vec![vec![p.node_id[0], p.node_id[0]]]);
            }
            // Sorted by distance to the target.
            let target = Key::new(vec![42u8]);
            for w in ids.windows(2) {
                assert!(target.distance(&Key::new(w[0].clone())) <= target.distance(&Key::new(w[1].clone())));
            }
        }
        other => panic!("unexpected {:?}", other),
    }
}

#[test]
fn find_node_response_reports_discovered_peers_except_the_local_one() {
    let mut k = node(vec![1u8]);
    k.on_find_node_res(vec![2u8], vec![peer(vec![3u8]), peer(vec![1u8]), peer(vec![4u8])], kad::query::QueryId(0));
    let ids: Vec<Vec<u8>> = k
        .queued_events()
        .iter()
        .map(|a| match a {
            KademliaAction::GenerateEvent(KademliaEvent::Discovered { peer_id, addresses, .. }) => {
                assert_eq!(addresses, &vec![vec![1u8, 1]]);
                peer_id.clone()
            }
            other => panic!("unexpected {:?}", other),
        })
        .collect();
    assert_eq!(ids, vec![vec![3u8], vec![4u8]]);
}

#[test]
fn provider_announcement_only_from_the_provider_itself() {
    let mut k = node(vec![1u8]);
    let key = kad::record::Key::new(b"p");
    k.on_add_provider(vec![2u8], key.clone(), peer(vec![3u8]));
    assert!(k.queued_events().is_empty());
    assert!(k.store().providers(&key).is_empty());
    k.on_add_provider(vec![3u8], key.clone(), peer(vec![3u8]));
    assert_eq!(k.queued_events().len(), 1);
    let ps = k.store().providers(&key);
    assert_eq!(ps.len(), 1);
    assert_eq!(ps[0].provider, vec![3u8]);
    assert!(ps[0].expires.is_some());
}

#[test]
fn put_record_request_is_stored_and_acknowledged() {
    let mut k = node(vec![1u8]);
    let rid = kad::handler::RequestId { connec_unique_id: 4 };
    let rec = kad::record::Record::new(kad::record::Key::new(b"r"), vec![5u8]);
    let before = Instant::now();
    k.on_put_record(vec![2u8], rec, rid);
    let stored = k.store().get(&kad::record::Key::new(b"r")).expect("stored").clone();
    assert_eq!(stored.value, vec![5u8]);
    // The default time to live, with no node beyond the replication factor.
    let exp = stored.expires.expect("expiry");
    assert!(exp >= before + Duration::from_secs(36 * 60 * 60));
    match k.queued_events() {
        [KademliaAction::SendEvent { peer_id, event: kad::handler::HandlerIn::PutRecordRes { key, value, request_id } }] => {
            assert_eq!(peer_id, &vec![2u8]);
            assert_eq!(key, &kad::record::Key::new(b"r"));
            assert_eq!(value, &vec![5u8]);
            assert_eq!(*request_id, rid);
        }
        other => panic!("unexpected {:?}", other),
    }
    // A record too large for the store resets the request.
    let big = kad::record::Record::new(kad::record::Key::new(b"b"), vec![0u8; 65 * 1024]);
    k.on_put_record(vec![2u8], big, rid);
    assert!(matches!(k.queued_events().last(), Some(KademliaAction::SendEvent { event: kad::handler::HandlerIn::Reset(_), .. })));
}

#[test]
fn get_record_request_answers_from_the_store() {
    let mut k = node(vec![1u8]);
    let rid = kad::handler::RequestId { connec_unique_id: 5 };
    k.on_put_record(vec![2u8], kad::record::Record::new(kad::record::Key::new(b"r"), vec![5u8]), rid);
    k.on_get_record_req(vec![2u8], kad::record::Key::new(b"r"), rid);
    match k.queued_events().last() {
        Some(KademliaAction::SendEvent { event: kad::handler::HandlerIn::GetRecordRes { record: Some(r), closer_peers, .. }, .. }) => {
            assert_eq!(r.value, vec![5u8]);
            assert!(closer_peers.is_empty());
        }
        other => panic!("unexpected {:?}", other),
    }
    k.on_get_record_req(vec![2u8], kad::record::Key::new(b"none"), rid);
    assert!(matches!(
        k.queued_events().last(),
        Some(KademliaAction::SendEvent { event: kad::handler::HandlerIn::GetRecordRes { record: None, .. }, .. })
    ));
}

#[test]
fn record_time_to_live_halves_per_node_beyond() {
    assert_eq!(kad::time::duration_as_secs(Duration::from_secs(80)), 80);
    let secs: u64 = 80;
    assert_eq!(secs >> 1u64, 40);
    assert_eq!(secs >> 3u64, 10);
}

#[test]
fn put_record_response_counts_only_for_storing_queries() {
    let mut k = node(vec![1u8]);
    k.add_address(vec![2u8], vec![7u8], true);
    k.put_record(kad::record::Record::new(kad::record::Key::new(b"r"), vec![5u8]), kad::behaviour::Quorum::One);
    let id = k.queries().iter()[0].id();
    k.on_put_record_res(vec![2u8], id);
    assert_eq!(k.queries().iter().len(), 1);
    assert!(matches!(k.queries().iter()[0].inner, QueryInfo::PreparePutRecord { quorum: 1, .. }));
    // An unknown query changes nothing.
    k.on_put_record_res(vec![2u8], kad::query::QueryId(99));
    assert_eq!(k.queries().iter().len(), 1);
}

#[test]
fn query_error_on_unknown_query_changes_nothing() {
    let mut k = node(vec![1u8]);
    k.get_closest_peers(vec![3u8]);
    k.on_query_error(vec![2u8], kad::query::QueryId(42));
    assert_eq!(k.queries().iter().len(), 1);
    assert!(k.queued_events().is_empty());
}

#[test]
fn get_record_response_joins_the_lookup() {
    let mut k = node(vec![1u8]);
    k.add_address(vec![2u8], vec![7u8], true);
    k.get_record(&kad::record::Key::new(b"r"), kad::behaviour::Quorum::N(2));
    let id = k.queries().iter()[0].id();
    let rec = kad::record::Record::new(kad::record::Key::new(b"r"), vec![5u8]);
    let before = k.queued_events().len();
    k.on_get_record_res(vec![2u8], Some(rec), vec![peer(vec![3u8])], id);
    match &k.queries().iter()[0].inner {
        QueryInfo::GetRecord { records, quorum, .. } => {
            assert_eq!(records.len(), 1);
            assert_eq!(records[0].value, vec![5u8]);
            assert_eq!(*quorum, 2);
        }
        other => panic!("unexpected {:?}", other),
    }
    assert_eq!(k.queued_events().len(), before + 1);
    assert!(matches!(
        k.queued_events().last(),
        Some(KademliaAction::GenerateEvent(KademliaEvent::Discovered { .. }))
    ));
}

#[test]
fn providers_response_joins_the_lookup() {
    let mut k = node(vec![1u8]);
    k.add_address(vec![2u8], vec![7u8], true);
    k.get_providers(kad::record::Key::new(b"p"));
    let id = k.queries().iter()[0].id();
    let before = k.queued_events().len();
    k.on_get_providers_res(vec![2u8], vec![peer(vec![3u8])], vec![peer(vec![4u8]), peer(vec![1u8])], id);
    match &k.queries().iter()[0].inner {
        QueryInfo::GetProviders { providers, .. } => assert_eq!(providers, &vec![vec![4u8], vec![1u8]]),
        other => panic!("unexpected {:?}", other),
    }
    // The local node is not reported as discovered.
    assert_eq!(k.queued_events().len(), before + 2);
}

#[test]
fn fresh_table_records_no_applied_entries() {
    let mut table = KBucketsTable::<Key, ()>::new(Key::new(vec![0u8]), Duration::from_secs(5));
    {
        let refs = table.iter();
        assert_eq!(refs.len(), 256);
        assert!(refs.iter().all(|b| b.num_entries() == 0));
    }
    assert!(table.take_applied_pending().is_none());
}

#[test]
fn weights_partition_the_bucket() {
    let mut bucket = KBucket::<Key, ()>::new(Duration::from_secs(60));
    for i in 0..30u32 {
        let _ = bucket.insert(Node { key: key_of(i), value: (), weight: i % 3 }, NodeStatus::Connected);
    }
    bucket.update(&key_of(3), NodeStatus::Disconnected);
    assert!(bucket.weighted().iter().all(|(n, _)| n.weight > 0));
    assert!(bucket.swamp().iter().all(|(n, _)| n.weight == 0));
    let all: Vec<u32> = bucket.iter().iter().map(|(n, _)| n.weight).collect();
    let w = bucket.weighted().len();
    assert!(all[..w].iter().all(|x| *x > 0));
    assert!(all[w..].iter().all(|x| *x == 0));
}

#[test]
fn insert_into_fresh_table_then_closest_keys() {
    let local = Key::new(vec![0u8]);
    let mut table = KBucketsTable::<Key, ()>::new(local.clone(), Duration::from_secs(5));
    assert!(matches!(table.entry(&local), Entry::SelfEntry));
    let k = key_of(77);
    match table.entry(&k) {
        Entry::Absent(e) => assert_eq!(e.insert(&mut table, (), NodeStatus::Connected, 0), InsertResult::Inserted),
        _ => panic!("expected an absent entry"),
    }
    assert_eq!(table.closest_keys(&key_of(5)), vec![k]);
}

#[test]
fn pool_poll_reports_the_first_query_asking_for_a_peer() {
    let mut pool: QueryPool<u32> = QueryPool::new(QueryConfig::default());
    assert!(matches!(pool.poll(Instant::now()), QueryPoolState::Idle));
    let target = Key::new(vec![9u8]).into_key_bytes();
    pool.add_iter_closest(target, vec![Key::new(vec![1u8])], 7);
    match pool.poll(Instant::now()) {
        QueryPoolState::Waiting(Some((q, peer))) => {
            assert_eq!(peer, vec![1u8]);
            assert_eq!(q.inner, 7);
        }
        _ => panic!("expected a request"),
    }
    // The only peer is awaited: nothing more to ask for yet.
    assert!(matches!(pool.poll(Instant::now()), QueryPoolState::Waiting(None)));
}

#[test]
fn kbuckets_entries_lists_the_added_peers() {
    let mut k = Kademlia::new(vec![1u8], MemoryStore::new(vec![1u8]));
    assert!(k.kbuckets_entries().is_empty());
    k.add_address(vec![2u8], vec![7u8], false);
    k.add_address(vec![3u8], vec![8u8], true);
    let mut ids = k.kbuckets_entries();
    ids.sort();
    assert_eq!(ids, vec![vec![2u8], vec![3u8]]);
}

#[test]
fn providers_request_is_answered_with_known_providers() {
    let mut k = node(vec![1u8]);
    let key = kad::record::Key::new(b"p");
    k.add_address(vec![3u8], vec![9u8], true);
    k.on_add_provider(vec![3u8], key.clone(), peer(vec![3u8]));
    k.on_add_provider(vec![4u8], key.clone(), peer(vec![4u8]));
    let n = k.queued_events().len();
    let rid = kad::handler::RequestId { connec_unique_id: 2 };
    k.on_get_providers_req(vec![5u8], key.clone(), rid);
    assert_eq!(k.queued_events().len(), n + 1);
    match k.queued_events().last() {
        Some(KademliaAction::SendEvent { peer_id, event: kad::handler::HandlerIn::GetProvidersRes { closer_peers, provider_peers, request_id } }) => {
            assert_eq!(peer_id, &vec![5u8]);
            assert_eq!(*request_id, rid);
            // Only the provider in the routing table is given, with its addresses.
            assert_eq!(provider_peers.len(), 1);
            assert_eq!(provider_peers[0].node_id, vec![3u8]);
            assert_eq!(provider_peers[0].multiaddrs, vec![vec![9u8]]);
            assert_eq!(provider_peers[0].connection_ty, kad::protocol::ConnectionType::Connected);
            assert_eq!(closer_peers.len(), 1);
        }
        other => panic!("unexpected {:?}", other),
    }
    // The source itself is never given as a provider.
    k.on_get_providers_req(vec![3u8], key, rid);
    match k.queued_events().last() {
        Some(KademliaAction::SendEvent { event: kad::handler::HandlerIn::GetProvidersRes { provider_peers, closer_peers, .. }, .. }) => {
            assert!(provider_peers.is_empty());
            assert!(closer_peers.is_empty());
        }
        other => panic!("unexpected {:?}", other),
    }
}

#[test]
fn present_entry_value_can_be_changed() {
    let local = Key::new(vec![0u8]);
    let mut table = KBucketsTable::<Key, u32>::new(local, Duration::from_secs(5));
    let k = key_of(12);
    match table.entry(&k) {
        Entry::Absent(e) => assert_eq!(e.insert(&mut table, 5u32, NodeStatus::Connected, 0), InsertResult::Inserted),
        _ => panic!("expected an absent entry"),
    }
    match table.entry(&k) {
        Entry::Present(e, NodeStatus::Connected) => {
            let v = e.value(&mut table).expect("present");
            assert_eq!(*v, 5);
            *v = 9;
        }
        _ => panic!("expected a present entry"),
    }
    match table.entry(&k) {
        Entry::Present(e, _) => assert_eq!(*e.value(&mut table).unwrap(), 9),
        _ => panic!("expected a present entry"),
    }
}

#[test]
fn weighted_iter_sorts_a_bucket_by_distance() {
    let local = Key::new(vec![0u8]);
    let mut table = KBucketsTable::<Key, ()>::new(local.clone(), Duration::from_secs(5));
    for i in 0..6u32 {
        if let Entry::Absent(e) = table.entry(&key_of(i)) {
            let _ = e.insert(&mut table, (), NodeStatus::Connected, 0);
        }
    }
    let target = key_of(3);
    let d = local.distance(&target);
    let mut bucket = KBucket::<Key, ()>::new(Duration::from_secs(5));
    for i in 0..6u32 {
        let _ = bucket.insert(Node { key: key_of(i), value: (), weight: 0 }, NodeStatus::Connected);
    }
    let entries = bucket.iter();
    let it = kad::kbucket::weighted_iter::WeightedIter::new(&table, d, target.key_bytes());
    let sorted = it.sort_bucket(&entries);
    assert_eq!(sorted.len(), 6);
    assert_eq!(sorted[0].0.key, target);
    for w in sorted.windows(2) {
        assert!(target.distance(&w[0].0.key) <= target.distance(&w[1].0.key));
    }
}
