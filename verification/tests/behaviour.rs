use kad::handler::HandlerIn;
use kad::protocol::{ConnectionType, KadPeer};
use kad::query::QueryId;
use kad::behaviour::{
    accepts_provider, query_finished, query_timeout, AddProviderContext, AddProviderError, GetClosestPeersError,
    GetProvidersError, GetRecordError, KademliaConfig, KademliaEvent, PutRecordContext,
    PutRecordError, QueryInfo, Quorum,
};
use kad::kbucket::key::Key as KbKey;
use kad::query::{QueryConfig, QueryPool, QueryResult};
use kad::record::store::Error;
use kad::record::{Key, Record};
use std::time::Duration;

#[test]
fn quorum_one_is_one() {
    assert_eq!(Quorum::One.eval(1), 1);
    assert_eq!(Quorum::One.eval(20), 1);
}

#[test]
fn quorum_majority_is_more_than_half() {
    assert_eq!(Quorum::Majority.eval(1), 1);
    assert_eq!(Quorum::Majority.eval(2), 2);
    assert_eq!(Quorum::Majority.eval(3), 2);
    assert_eq!(Quorum::Majority.eval(20), 11);
}

#[test]
fn quorum_all_is_total() {
    assert_eq!(Quorum::All.eval(7), 7);
}

#[test]
fn quorum_n_is_capped_by_total() {
    assert_eq!(Quorum::N(3).eval(10), 3);
    assert_eq!(Quorum::N(30).eval(10), 10);
    assert_eq!(Quorum::N(10).eval(10), 10);
}

#[test]
fn config_default_values() {
    let c = KademliaConfig::default();
    assert_eq!(c.query_config().replication_factor, 20);
    assert_eq!(c.record_ttl(), Some(Duration::from_secs(36 * 60 * 60)));
}

#[test]
fn config_setters_chain() {
    let mut c = KademliaConfig::default();
    c.set_replication_factor(5)
        .set_query_timeout(Duration::from_secs(7))
        .set_record_ttl(None);
    assert_eq!(c.query_config().replication_factor, 5);
    assert_eq!(c.query_config().timeout, Duration::from_secs(7));
    assert_eq!(c.record_ttl(), None);
}

#[test]
fn get_record_error_keys() {
    let k = Key::new(b"abc");
    let e = GetRecordError::NotFound { key: k.clone(), closest_peers: vec![] };
    assert_eq!(e.key().to_vec(), b"abc".to_vec());
    let e = GetRecordError::QuorumFailed {
        key: k.clone(),
        records: vec![Record::new(Key::new(b"abc"), vec![1])],
        quorum: 2,
    };
    assert_eq!(e.into_key().to_vec(), b"abc".to_vec());
    let e = GetRecordError::Timeout { key: k, records: vec![], quorum: 1 };
    assert_eq!(e.key().to_vec(), b"abc".to_vec());
}

#[test]
fn put_record_error_keys() {
    let e = PutRecordError::LocalStorageError { key: Key::new(b"xy"), cause: Error::MaxRecords };
    assert_eq!(e.key().to_vec(), b"xy".to_vec());
    let e = PutRecordError::QuorumFailed { key: Key::new(b"q"), num_results: 1, quorum: 3 };
    assert_eq!(e.into_key().to_vec(), b"q".to_vec());
    let e = PutRecordError::Timeout { key: Key::new(b"t"), num_results: 0, quorum: 1 };
    assert_eq!(e.into_key().to_vec(), b"t".to_vec());
}

#[test]
fn other_error_keys() {
    let e = GetClosestPeersError::Timeout { key: vec![4, 5], peers: vec![] };
    assert_eq!(e.key(), &vec![4u8, 5]);
    assert_eq!(e.into_key(), vec![4u8, 5]);
    let e = GetProvidersError::Timeout { key: Key::new(b"p"), providers: vec![], closest_peers: vec![] };
    assert_eq!(e.key().to_vec(), b"p".to_vec());
    assert_eq!(e.into_key().to_vec(), b"p".to_vec());
    let e = AddProviderError::Timeout { key: Key::new(b"a") };
    assert_eq!(e.key().to_vec(), b"a".to_vec());
    let e = AddProviderError::LocalStorageError { key: Key::new(b"b"), cause: Error::MaxProvidedKeys };
    assert_eq!(e.into_key().to_vec(), b"b".to_vec());
}

fn record(key: &[u8], value: u8) -> Record {
    Record::new(Key::new(key), vec![value])
}

#[test]
fn timeout_of_closest_peers_lookup_reports_peers() {
    let r = QueryResult {
        inner: QueryInfo::GetClosestPeers { key: vec![1, 2] },
        peers: vec![vec![3], vec![4]],
    };
    match query_timeout(r) {
        Some(KademliaEvent::GetClosestPeersResult(Err(GetClosestPeersError::Timeout { key, peers }))) => {
            assert_eq!(key, vec![1u8, 2]);
            assert_eq!(peers, vec![vec![3u8], vec![4u8]]);
        }
        other => panic!("unexpected {:?}", other),
    }
}

#[test]
fn timeout_of_put_record_by_context() {
    let info = |context| QueryInfo::PutRecord { record: record(b"k", 1), quorum: 3, num_results: 2, context };
    match query_timeout(QueryResult { inner: info(PutRecordContext::Publish), peers: vec![] }) {
        Some(KademliaEvent::PutRecordResult(Err(PutRecordError::Timeout { key, num_results, quorum }))) => {
            assert_eq!(key.to_vec(), b"k".to_vec());
            assert_eq!((num_results, quorum), (2, 3));
        }
        other => panic!("unexpected {:?}", other),
    }
    assert!(matches!(
        query_timeout(QueryResult { inner: info(PutRecordContext::Republish), peers: vec![] }),
        Some(KademliaEvent::RepublishRecordResult(Err(PutRecordError::Timeout { .. })))
    ));
    assert!(query_timeout(QueryResult { inner: info(PutRecordContext::Replicate), peers: vec![] }).is_none());
    assert!(query_timeout(QueryResult { inner: info(PutRecordContext::Cache), peers: vec![] }).is_none());
}

#[test]
fn timeout_of_provider_announcement() {
    let r = QueryResult {
        inner: QueryInfo::PrepareAddProvider { key: Key::new(b"p"), context: AddProviderContext::Republish },
        peers: vec![],
    };
    assert!(matches!(
        query_timeout(r),
        Some(KademliaEvent::RepublishProviderResult(Err(AddProviderError::Timeout { .. })))
    ));
}

#[test]
fn finished_bootstrap_of_local_key_asks_for_refresh() {
    let mut pool: QueryPool<QueryInfo> = QueryPool::new(QueryConfig::default());
    let local = vec![9u8, 9];
    let r = QueryResult { inner: QueryInfo::Bootstrap { peer: local.clone() }, peers: vec![] };
    let (event, refresh) = query_finished(&mut pool, r, &local, vec![]);
    assert!(refresh);
    assert!(matches!(event, Some(KademliaEvent::BootstrapResult(Ok(_)))));
    let r = QueryResult { inner: QueryInfo::Bootstrap { peer: vec![1] }, peers: vec![] };
    let (_, refresh) = query_finished(&mut pool, r, &local, vec![]);
    assert!(!refresh);
    assert_eq!(pool.iter().len(), 0);
}

#[test]
fn finished_record_lookup_by_quorum() {
    let mut pool: QueryPool<QueryInfo> = QueryPool::new(QueryConfig::default());
    let local = vec![0u8];
    let lookup = |records: Vec<Record>, quorum| QueryInfo::GetRecord {
        key: Key::new(b"k"),
        records,
        quorum,
        cache_at: Some(KbKey::new(vec![5u8])),
    };
    let r = QueryResult { inner: lookup(vec![], 1), peers: vec![vec![7]] };
    match query_finished(&mut pool, r, &local, vec![]) {
        (Some(KademliaEvent::GetRecordResult(Err(GetRecordError::NotFound { closest_peers, .. }))), false) => {
            assert_eq!(closest_peers, vec![vec![7u8]]);
        }
        other => panic!("unexpected {:?}", other),
    }
    let r = QueryResult { inner: lookup(vec![record(b"k", 1)], 2), peers: vec![] };
    assert!(matches!(
        query_finished(&mut pool, r, &local, vec![]),
        (Some(KademliaEvent::GetRecordResult(Err(GetRecordError::QuorumFailed { quorum: 2, .. }))), false)
    ));
    assert_eq!(pool.iter().len(), 0);
    let r = QueryResult { inner: lookup(vec![record(b"k", 1), record(b"k", 2)], 2), peers: vec![] };
    match query_finished(&mut pool, r, &local, vec![]) {
        (Some(KademliaEvent::GetRecordResult(Ok(ok))), false) => assert_eq!(ok.records.len(), 2),
        other => panic!("unexpected {:?}", other),
    }
    assert_eq!(pool.iter().len(), 1);
    match &pool.iter()[0].inner {
        QueryInfo::PutRecord { record, quorum, num_results, context } => {
            assert_eq!(record.value, vec![1u8]);
            assert_eq!((*quorum, *num_results, *context), (1, 0, PutRecordContext::Cache));
        }
        other => panic!("unexpected {:?}", other),
    }
}

#[test]
fn finished_preparation_starts_the_announcement() {
    let mut pool: QueryPool<QueryInfo> = QueryPool::new(QueryConfig::default());
    let r = QueryResult {
        inner: QueryInfo::PrepareAddProvider { key: Key::new(b"p"), context: AddProviderContext::Publish },
        peers: vec![vec![1], vec![2]],
    };
    let (event, refresh) = query_finished(&mut pool, r, &vec![42u8], vec![vec![8, 8]]);
    assert!(event.is_none() && !refresh);
    assert_eq!(pool.iter().len(), 1);
    match &pool.iter()[0].inner {
        QueryInfo::AddProvider { key, provider_id, external_addresses, context } => {
            assert_eq!(key.to_vec(), b"p".to_vec());
            assert_eq!(provider_id, &vec![42u8]);
            assert_eq!(external_addresses, &vec![vec![8u8, 8]]);
            assert_eq!(*context, AddProviderContext::Publish);
        }
        other => panic!("unexpected {:?}", other),
    }
    let r = QueryResult {
        inner: QueryInfo::AddProvider {
            key: Key::new(b"p"),
            provider_id: vec![42],
            external_addresses: vec![],
            context: AddProviderContext::Publish,
        },
        peers: vec![],
    };
    assert!(matches!(
        query_finished(&mut pool, r, &vec![42u8], vec![]),
        (Some(KademliaEvent::StartProvidingResult(Ok(_))), false)
    ));
}

#[test]
fn finished_put_record_by_quorum() {
    let mut pool: QueryPool<QueryInfo> = QueryPool::new(QueryConfig::default());
    let put = |num_results| QueryInfo::PutRecord {
        record: record(b"k", 1),
        quorum: 2,
        num_results,
        context: PutRecordContext::Publish,
    };
    assert!(matches!(
        query_finished(&mut pool, QueryResult { inner: put(2), peers: vec![] }, &vec![], vec![]),
        (Some(KademliaEvent::PutRecordResult(Ok(_))), false)
    ));
    assert!(matches!(
        query_finished(&mut pool, QueryResult { inner: put(1), peers: vec![] }, &vec![], vec![]),
        (Some(KademliaEvent::PutRecordResult(Err(PutRecordError::QuorumFailed { num_results: 1, quorum: 2, .. }))), false)
    ));
    let prep = QueryInfo::PreparePutRecord { record: record(b"k", 1), quorum: 2, context: PutRecordContext::Replicate };
    let (event, _) = query_finished(&mut pool, QueryResult { inner: prep, peers: vec![vec![3]] }, &vec![], vec![]);
    assert!(event.is_none());
    assert_eq!(pool.iter().len(), 1);
    assert!(matches!(
        pool.iter()[0].inner,
        QueryInfo::PutRecord { quorum: 2, num_results: 0, context: PutRecordContext::Replicate, .. }
    ));
}

#[test]
fn query_requests() {
    let info = QueryInfo::AddProvider {
        key: Key::new(b"p"),
        provider_id: vec![4],
        external_addresses: vec![vec![1, 2]],
        context: AddProviderContext::Publish,
    };
    match info.to_request(QueryId(5)) {
        HandlerIn::AddProvider { key, provider, query_id } => {
            assert_eq!(key.to_vec(), b"p".to_vec());
            assert_eq!(provider.node_id, vec![4u8]);
            assert_eq!(provider.multiaddrs, vec![vec![1u8, 2]]);
            assert_eq!(provider.connection_ty, ConnectionType::Connected);
            assert_eq!(query_id, QueryId(5));
        }
        other => panic!("unexpected {:?}", other),
    }
    let info = QueryInfo::PreparePutRecord { record: record(b"r", 3), quorum: 1, context: PutRecordContext::Publish };
    match info.to_request(QueryId(6)) {
        HandlerIn::FindNodeReq { key, query_id } => {
            assert_eq!(key, b"r".to_vec());
            assert_eq!(query_id, QueryId(6));
        }
        other => panic!("unexpected {:?}", other),
    }
    let info = QueryInfo::PutRecord { record: record(b"r", 3), quorum: 1, num_results: 0, context: PutRecordContext::Publish };
    match info.to_request(QueryId(8)) {
        HandlerIn::PutRecord { record, query_id } => {
            assert_eq!(record.value, vec![3u8]);
            assert_eq!(query_id, QueryId(8));
        }
        other => panic!("unexpected {:?}", other),
    }
}


#[test]
fn record_answers_count_towards_the_quorum() {
    let mut info = QueryInfo::GetRecord { key: Key::new(b"k"), records: vec![], quorum: 2, cache_at: None };
    assert!(!info.on_get_record_res(&vec![1], Some(record(b"k", 1))));
    assert!(!info.on_get_record_res(&vec![2], None));
    assert!(info.on_get_record_res(&vec![3], Some(record(b"k", 2))));
    match info {
        QueryInfo::GetRecord { records, cache_at, .. } => {
            assert_eq!(records.len(), 2);
            assert!(cache_at.is_none());
        }
        other => panic!("unexpected {:?}", other),
    }
}

#[test]
fn closest_peer_without_record_is_noted_for_caching() {
    let key = Key::new(b"k");
    let target = KbKey::new(b"k".to_vec());
    let mut info = QueryInfo::GetRecord { key, records: vec![], quorum: 1, cache_at: None };
    assert!(!info.on_get_record_res(&vec![1], None));
    let first = match &info {
        QueryInfo::GetRecord { cache_at: Some(c), .. } => c.clone(),
        other => panic!("unexpected {:?}", other),
    };
    assert_eq!(first.preimage(), &vec![1u8]);
    // Another peer replaces the noted one exactly when it is closer.
    let second = KbKey::new(vec![2u8]);
    let closer = second.distance(&target).lt(&first.distance(&target));
    info.on_get_record_res(&vec![2], None);
    match &info {
        QueryInfo::GetRecord { cache_at: Some(c), .. } => {
            let expected: Vec<u8> = if closer { vec![2] } else { vec![1] };
            assert_eq!(c.preimage(), &expected);
        }
        other => panic!("unexpected {:?}", other),
    }
}

#[test]
fn store_answers_count_towards_the_quorum() {
    let mut info = QueryInfo::PutRecord { record: record(b"k", 1), quorum: 2, num_results: 0, context: PutRecordContext::Publish };
    assert!(!info.on_put_record_res());
    assert!(info.on_put_record_res());
    assert!(matches!(info, QueryInfo::PutRecord { num_results: 2, .. }));
    let mut other = QueryInfo::GetClosestPeers { key: vec![1] };
    assert!(!other.on_put_record_res());
}

#[test]
fn providers_found_are_kept() {
    let mut info = QueryInfo::GetProviders { key: Key::new(b"p"), providers: vec![vec![1]] };
    let peer = |id: u8| KadPeer { node_id: vec![id], multiaddrs: vec![], connection_ty: ConnectionType::Connected };
    info.on_get_providers_res(vec![peer(2), peer(3)]);
    match info {
        QueryInfo::GetProviders { providers, .. } => assert_eq!(providers, vec![vec![1u8], vec![2u8], vec![3u8]]),
        other => panic!("unexpected {:?}", other),
    }
    let p = peer(4);
    assert!(accepts_provider(&vec![4], &p));
    assert!(!accepts_provider(&vec![5], &p));
}
