use kad::record::store::memory::{MemoryStore, MemoryStoreConfig};
use kad::record::store::Error;
use kad::record::{Key, ProviderRecord, Record};
use rand::Rng;
use std::time::{Duration, Instant};

fn random_peer() -> Vec<u8> {
    let mut id = vec![0x00, 0x24, 0x08, 0x01, 0x12, 0x20];
    id.extend((0..32).map(|_| rand::thread_rng().gen::<u8>()));
    id
}

fn random_multihash() -> Vec<u8> {
    let mut mh = vec![0x12, 0x20];
    mh.extend((0..32).map(|_| rand::thread_rng().gen::<u8>()));
    mh
}

fn arbitrary_record() -> Record {
    let mut g = rand::thread_rng();
    let len = g.gen_range(0..100);
    Record {
        key: Key::from_vec(random_multihash()),
        value: (0..len).map(|_| g.gen::<u8>()).collect(),
        publisher: if g.gen() { Some(random_peer()) } else { None },
        expires: if g.gen() {
            Some(Instant::now() + Duration::from_secs(g.gen_range(0..60)))
        } else {
            None
        },
    }
}

fn arbitrary_provider_record() -> ProviderRecord {
    let mut g = rand::thread_rng();
    ProviderRecord {
        key: Key::from_vec(random_multihash()),
        provider: random_peer(),
        expires: if g.gen() {
            Some(Instant::now() + Duration::from_secs(g.gen_range(0..60)))
        } else {
            None
        },
        addresses: vec![],
    }
}

#[test]
fn put_get_remove_record() {
    for _ in 0..100 {
        let r = arbitrary_record();
        let mut store = MemoryStore::new(random_peer());
        assert!(store.put(r.clone()).is_ok());
        assert_eq!(Some(&r), store.get(&r.key));
        store.remove(&r.key);
        assert!(store.get(&r.key).is_none());
    }
}

#[test]
fn add_get_remove_provider() {
    for _ in 0..100 {
        let r = arbitrary_provider_record();
        let mut store = MemoryStore::new(random_peer());
        assert!(store.add_provider(r.clone()).is_ok());
        assert!(store.providers(&r.key).contains(&r));
        store.remove_provider(&r.key, &r.provider);
        assert!(!store.providers(&r.key).contains(&r));
    }
}

#[test]
fn provided() {
    let id = random_peer();
    let mut store = MemoryStore::new(id.clone());
    let key = random_multihash();
    let rec = ProviderRecord::new(Key::from_vec(key), id.clone(), Vec::new());
    assert!(store.add_provider(rec.clone()).is_ok());
    assert_eq!(vec![&rec], store.provided());
    store.remove_provider(&rec.key, &id);
    assert_eq!(store.provided().len(), 0);
}

#[test]
fn update_provider() {
    let mut store = MemoryStore::new(random_peer());
    let key = random_multihash();
    let prv = random_peer();
    let mut rec = ProviderRecord::new(Key::from_vec(key), prv, Vec::new());
    assert!(store.add_provider(rec.clone()).is_ok());
    assert_eq!(vec![rec.clone()], store.providers(&rec.key).to_vec());
    rec.expires = Some(Instant::now());
    assert!(store.add_provider(rec.clone()).is_ok());
    assert_eq!(vec![rec.clone()], store.providers(&rec.key).to_vec());
}

#[test]
fn update_provided() {
    let prv = random_peer();
    let mut store = MemoryStore::new(prv.clone());
    let key = random_multihash();
    let mut rec = ProviderRecord::new(Key::from_vec(key), prv, Vec::new());
    assert!(store.add_provider(rec.clone()).is_ok());
    assert_eq!(vec![&rec], store.provided());
    rec.expires = Some(Instant::now());
    assert!(store.add_provider(rec.clone()).is_ok());
    assert_eq!(vec![&rec], store.provided());
}

#[test]
fn max_providers_per_key() {
    let config = MemoryStoreConfig::default();
    let key = Key::from_vec(random_multihash());

    let mut store = MemoryStore::with_config(random_peer(), config.clone());
    let peers = (0..config.max_providers_per_key)
        .map(|_| random_peer())
        .collect::<Vec<_>>();
    for peer in peers {
        let rec = ProviderRecord::new(key.clone(), peer, Vec::new());
        assert!(store.add_provider(rec).is_ok());
    }

    // The new provider cannot be added because the key is already saturated.
    let peer = random_peer();
    let rec = ProviderRecord::new(key.clone(), peer, Vec::new());
    assert!(store.add_provider(rec.clone()).is_ok());
    assert!(!store.providers(&rec.key).contains(&rec));
}

#[test]
fn max_provided_keys() {
    let mut store = MemoryStore::new(random_peer());
    for _ in 0..MemoryStoreConfig::default().max_provided_keys {
        let key = random_multihash();
        let prv = random_peer();
        let rec = ProviderRecord::new(Key::from_vec(key), prv, Vec::new());
        let _ = store.add_provider(rec);
    }
    let key = random_multihash();
    let prv = random_peer();
    let rec = ProviderRecord::new(Key::from_vec(key), prv, Vec::new());
    match store.add_provider(rec) {
        Err(Error::MaxProvidedKeys) => {}
        _ => panic!("Unexpected result"),
    }
}

#[test]
fn value_too_large_and_max_records() {
    let config = MemoryStoreConfig {
        max_records: 2,
        max_value_bytes: 4,
        max_providers_per_key: 1,
        max_provided_keys: 1,
    };
    let mut store = MemoryStore::with_config(random_peer(), config);
    let big = Record::new(Key::new(b"a"), vec![0; 4]);
    assert_eq!(store.put(big), Err(Error::ValueTooLarge));
    assert!(store.put(Record::new(Key::new(b"a"), vec![1])).is_ok());
    assert!(store.put(Record::new(Key::new(b"b"), vec![2])).is_ok());
    assert_eq!(store.put(Record::new(Key::new(b"c"), vec![3])), Err(Error::MaxRecords));
    // Replacing a stored key is still allowed.
    assert!(store.put(Record::new(Key::new(b"a"), vec![4])).is_ok());
    assert_eq!(store.get(&Key::new(b"a")).unwrap().value, vec![4]);
    assert_eq!(store.records().len(), 2);
}

#[test]
fn retain_keeps_what_the_predicate_accepts() {
    let mut store = MemoryStore::new(random_peer());
    for i in 0..10u8 {
        assert!(store.put(Record::new(Key::new(&[i]), vec![i])).is_ok());
    }
    store.retain(|_, r| r.value[0] % 2 == 0);
    assert_eq!(store.records().len(), 5);
    assert!(store.get(&Key::new(&[4])).is_some());
    assert!(store.get(&Key::new(&[5])).is_none());
}

#[test]
fn removing_the_last_provider_drops_the_key() {
    let mut store = MemoryStore::new(random_peer());
    let key = Key::new(b"k");
    let a = ProviderRecord::new(key.clone(), b"a".to_vec(), vec![b"/ip4/1.2.3.4".to_vec()]);
    let b = ProviderRecord::new(key.clone(), b"b".to_vec(), vec![]);
    assert!(store.add_provider(a.clone()).is_ok());
    assert!(store.add_provider(b.clone()).is_ok());
    let listed = store.providers(&key);
    assert_eq!(listed, vec![a.clone(), b.clone()]);
    assert_eq!(listed[0].addresses, vec![b"/ip4/1.2.3.4".to_vec()]);
    store.remove_provider(&key, &b"a".to_vec());
    assert_eq!(store.providers(&key), vec![b.clone()]);
    store.remove_provider(&key, &b"b".to_vec());
    assert!(store.providers(&key).is_empty());
}

#[test]
fn record_expiry() {
    let mut r = Record::new(Key::new(b"x"), vec![]);
    assert!(!r.is_expired(Instant::now()));
    r.expires = Some(Instant::now());
    assert!(r.is_expired(Instant::now() + Duration::from_secs(1)));
    assert_eq!(Key::new(b"x").to_vec(), b"x".to_vec());
}

#[test]
fn store_error_descriptions() {
    assert_eq!(Error::MaxRecords.description(), "the store cannot contain any more records");
    assert_eq!(Error::MaxProvidedKeys.description(), "the store cannot contain any more provider records");
    assert_eq!(Error::ValueTooLarge.description(), "the value is too large to be stored");
}

#[test]
fn provider_record_expiry() {
    let now = Instant::now();
    let mut p = ProviderRecord::new(Key::new(b"k"), vec![1], vec![]);
    assert!(!p.is_expired(now));
    p.expires = Some(now);
    assert!(p.is_expired(now));
    if let Some(earlier) = now.checked_sub(Duration::from_millis(1)) {
        assert!(!p.is_expired(earlier));
    }
}
