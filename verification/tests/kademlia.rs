use kad::behaviour::kademlia::{Kademlia, KademliaAction, PollStep};
use kad::behaviour::{KademliaConfig, KademliaEvent, PutRecordError, QueryInfo, Quorum};
use kad::record::store::memory::MemoryStore;
use kad::record::store::Error;
use kad::record::{Key, Record};

fn node() -> Kademlia {
    let id = vec![7u8, 7, 7];
    Kademlia::with_config(id.clone(), MemoryStore::new(id), KademliaConfig::default())
}

#[test]
fn put_record_stores_locally_and_starts_a_query() {
    let mut k = node();
    k.put_record(Record::new(Key::new(b"k"), vec![1, 2]), Quorum::One);
    let stored = k.store().get(&Key::new(b"k")).expect("stored");
    assert_eq!(stored.value, vec![1u8, 2]);
    assert_eq!(stored.publisher, Some(vec![7u8, 7, 7]));
    assert_eq!(k.queries().iter().len(), 1);
    assert!(matches!(k.queries().iter()[0].inner, QueryInfo::PreparePutRecord { quorum: 1, .. }));
    assert!(k.queued_events().is_empty());
}

#[test]
fn put_record_too_large_reports_the_error() {
    let mut k = node();
    k.put_record(Record::new(Key::new(b"k"), vec![0; 65 * 1024]), Quorum::One);
    assert!(k.store().get(&Key::new(b"k")).is_none());
    assert_eq!(k.queries().iter().len(), 0);
    assert!(matches!(
        k.queued_events(),
        [KademliaAction::GenerateEvent(KademliaEvent::PutRecordResult(Err(PutRecordError::LocalStorageError { cause: Error::ValueTooLarge, .. })))]
    ));
}

#[test]
fn get_record_with_quorum_one_answers_from_the_store() {
    let mut k = node();
    k.put_record(Record::new(Key::new(b"k"), vec![3]), Quorum::One);
    k.get_record(&Key::new(b"k"), Quorum::One);
    assert_eq!(k.queries().iter().len(), 1);
    match k.queued_events() {
        [KademliaAction::GenerateEvent(KademliaEvent::GetRecordResult(Ok(ok)))] => assert_eq!(ok.records[0].value, vec![3u8]),
        other => panic!("unexpected {:?}", other),
    }
    k.get_record(&Key::new(b"other"), Quorum::All);
    assert_eq!(k.queries().iter().len(), 2);
    assert!(matches!(k.queries().iter()[1].inner, QueryInfo::GetRecord { quorum: 20, .. }));
}

#[test]
fn remove_record_only_of_own_records() {
    let mut k = node();
    k.put_record(Record::new(Key::new(b"k"), vec![3]), Quorum::One);
    k.remove_record(&Key::new(b"k"));
    assert!(k.store().get(&Key::new(b"k")).is_none());
}

#[test]
fn providing_and_lookups() {
    let mut k = node();
    k.start_providing(Key::new(b"p"));
    assert_eq!(k.store().providers(&Key::new(b"p")).len(), 1);
    k.stop_providing(&Key::new(b"p"));
    assert_eq!(k.store().providers(&Key::new(b"p")).len(), 0);
    k.get_providers(Key::new(b"p"));
    k.get_closest_peers(vec![1, 2]);
    k.bootstrap();
    let qs = k.queries().iter();
    assert_eq!(qs.len(), 4);
    assert!(matches!(qs[0].inner, QueryInfo::PrepareAddProvider { .. }));
    assert!(matches!(qs[1].inner, QueryInfo::GetProviders { .. }));
    assert!(matches!(qs[2].inner, QueryInfo::GetClosestPeers { .. }));
    match &qs[3].inner {
        QueryInfo::Bootstrap { peer } => assert_eq!(peer, &vec![7u8, 7, 7]),
        other => panic!("unexpected {:?}", other),
    }
}
