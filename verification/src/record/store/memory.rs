//! An in-memory record store.

use vstd::prelude::*;
use crate::kbucket::key::Key as TableKey;
use crate::record::{Key, Record, RecordView, ProviderRecord, ProviderView};
use crate::record::keyed::{keys_unique, keyed_map, lemma_keyed_index, lemma_keyed_absent,
    lemma_keyed_update, lemma_keyed_push, lemma_keyed_remove, lemma_keyed_len};
use crate::record::store::Error;
use crate::K_VALUE;

verus! {

/// Configuration for a `MemoryStore`.
#[derive(Debug, Clone, Copy)]
pub struct MemoryStoreConfig {
    /// The maximum number of records.
    pub max_records: usize,
    /// The maximum size of record values, in bytes.
    pub max_value_bytes: usize,
    /// The maximum number of providers stored for a key.
    ///
    /// This should match up with the chosen replication factor.
    pub max_providers_per_key: usize,
    /// The maximum number of provider records for which the
    /// local node is the provider.
    pub max_provided_keys: usize,
}

impl Default for MemoryStoreConfig {
    /// At most 1024 records of values under 65 KiB, 1024 keys with
    /// providers, and `K_VALUE` providers per key.
    fn default() -> (r: Self)
        ensures
            r.max_records == 1024,
            r.max_value_bytes == 65 * 1024,
            r.max_provided_keys == 1024,
            r.max_providers_per_key == K_VALUE,
    {
        MemoryStoreConfig {
            max_records: 1024,
            max_value_bytes: 65 * 1024,
            max_provided_keys: 1024,
            max_providers_per_key: K_VALUE,
        }
    }
}

/// The records of a list, each under its key.
pub open spec fn record_entries(s: Seq<Record>) -> Seq<(Seq<u8>, RecordView)> {
    s.map_values(|r: Record| (r.key@, r@))
}

/// The values of a list of provider records.
pub open spec fn provider_views(s: Seq<ProviderRecord>) -> Seq<ProviderView> {
    s.map_values(|p: ProviderRecord| p@)
}

/// The provider lists of a list of entries, each under its key.
pub open spec fn provider_entries(s: Seq<(Key, Vec<ProviderRecord>)>) -> Seq<(Seq<u8>, Seq<ProviderView>)> {
    s.map_values(|e: (Key, Vec<ProviderRecord>)| (e.0@, provider_views(e.1@)))
}

/// What a store holds: its owner, its configuration, the records by key
/// and the provider records by key.
pub struct MemoryStoreView {
    pub local: Seq<u8>,
    pub config: MemoryStoreConfig,
    pub records: Map<Seq<u8>, RecordView>,
    pub providers: Map<Seq<u8>, Seq<ProviderView>>,
}

/// Whether `p` is the position of a record of `provider` in `list`.
pub open spec fn provider_at(list: Seq<ProviderView>, provider: Seq<u8>, p: int) -> bool {
    0 <= p < list.len() && list[p].provider == provider
}

/// `list` after adding `rec`: the record of the same provider is replaced,
/// else `rec` is appended unless the list already holds `max` records.
pub open spec fn added(list: Seq<ProviderView>, rec: ProviderView, max: nat) -> Seq<ProviderView> {
    if exists|p: int| provider_at(list, rec.provider, p) {
        list.update(choose|p: int| provider_at(list, rec.provider, p), rec)
    } else if list.len() == max {
        list
    } else {
        list.push(rec)
    }
}

/// `list` without the record of `provider`, if it has one.
pub open spec fn dropped(list: Seq<ProviderView>, provider: Seq<u8>) -> Seq<ProviderView> {
    if exists|p: int| provider_at(list, provider, p) {
        list.remove(choose|p: int| provider_at(list, provider, p))
    } else {
        list
    }
}

impl MemoryStoreView {
    /// The record stored under `k`.
    pub open spec fn lookup(self, k: Seq<u8>) -> Option<RecordView> {
        if self.records.contains_key(k) {
            Some(self.records[k])
        } else {
            None
        }
    }

    /// What storing `r` answers: too large a value is refused, and so is a
    /// new key when the store holds `max_records` records.
    pub open spec fn put_outcome(self, r: RecordView) -> Result<(), Error> {
        if r.value.len() >= self.config.max_value_bytes {
            Err(Error::ValueTooLarge)
        } else if !self.records.contains_key(r.key) && self.records.dom().len()
            >= self.config.max_records {
            Err(Error::MaxRecords)
        } else {
            Ok(())
        }
    }

    /// The store with `r` stored under its key.
    pub open spec fn with_record(self, r: RecordView) -> MemoryStoreView {
        MemoryStoreView { records: self.records.insert(r.key, r), ..self }
    }

    /// The store without a record under `k`.
    pub open spec fn without_record(self, k: Seq<u8>) -> MemoryStoreView {
        MemoryStoreView { records: self.records.remove(k), ..self }
    }

    /// The provider records of `k`, in the order they were added.
    pub open spec fn providers_of(self, k: Seq<u8>) -> Seq<ProviderView> {
        if self.providers.contains_key(k) {
            self.providers[k]
        } else {
            Seq::empty()
        }
    }

    /// What adding `rec` answers: a key with no providers yet is refused
    /// when `max_provided_keys` keys have providers.
    pub open spec fn add_provider_outcome(self, rec: ProviderView) -> Result<(), Error> {
        if !self.providers.contains_key(rec.key) && self.providers.dom().len()
            == self.config.max_provided_keys {
            Err(Error::MaxProvidedKeys)
        } else {
            Ok(())
        }
    }

    /// The store after adding `rec` to the providers of its key.
    pub open spec fn with_provider(self, rec: ProviderView) -> MemoryStoreView {
        MemoryStoreView {
            providers: self.providers.insert(
                rec.key,
                added(self.providers_of(rec.key), rec, self.config.max_providers_per_key as nat),
            ),
            ..self
        }
    }

    /// The store without the record of `provider` among the providers of
    /// `k`; a key left with no providers is dropped.
    pub open spec fn without_provider(self, k: Seq<u8>, provider: Seq<u8>) -> MemoryStoreView {
        if !self.providers.contains_key(k) {
            self
        } else if dropped(self.providers[k], provider).len() == 0 {
            MemoryStoreView { providers: self.providers.remove(k), ..self }
        } else {
            MemoryStoreView { providers: self.providers.insert(k, dropped(self.providers[k], provider)), ..self }
        }
    }

    /// The provider records whose provider is the local node.
    pub open spec fn provided(self) -> Set<ProviderView> {
        Set::new(|p: ProviderView| exists|k: Seq<u8>|
            #[trigger] self.providers.contains_key(k) && self.providers[k].contains(p)
                && p.provider == self.local)
    }

    /// A record stored under its key is what a read of that key gives back.
    pub proof fn lemma_get_after_put(self, r: RecordView)
        ensures
            self.with_record(r).lookup(r.key) == Some(r),
    {
    }

    /// Storing a record leaves what the other keys give back.
    pub proof fn lemma_put_keeps_others(self, r: RecordView, k: Seq<u8>)
        requires
            k != r.key,
        ensures
            self.with_record(r).lookup(k) == self.lookup(k),
    {
    }

    /// After a removal, the key gives back nothing, and the other keys give
    /// back what they did.
    pub proof fn lemma_get_after_remove(self, k: Seq<u8>, other: Seq<u8>)
        requires
            other != k,
        ensures
            self.without_record(k).lookup(k) is None,
            self.without_record(k).lookup(other) == self.lookup(other),
    {
    }

    /// After adding a provider record, the key lists it, unless the key was
    /// saturated (already `max_providers_per_key` providers, none of them
    /// its provider), in which case the providers of the key are unchanged.
    pub proof fn lemma_providers_after_add(self, rec: ProviderView)
        requires
            self.inv(),
        ensures
            ({
                let list = self.providers_of(rec.key);
                let saturated = list.len() == self.config.max_providers_per_key
                    && forall|p: int| !provider_at(list, rec.provider, p);
                &&& !saturated ==> self.with_provider(rec).providers_of(rec.key).contains(rec)
                &&& saturated ==> self.with_provider(rec).providers_of(rec.key) == list
            }),
    {
        let list = self.providers_of(rec.key);
        let max = self.config.max_providers_per_key as nat;
        let after = self.with_provider(rec).providers_of(rec.key);
        assert(after == added(list, rec, max));
        if exists|p: int| provider_at(list, rec.provider, p) {
            let p = choose|p: int| provider_at(list, rec.provider, p);
            assert(after[p] == rec);
        } else if list.len() != max {
            assert(after[list.len() as int] == rec);
        }
    }

    /// After removing the record of a provider from a key, no record of
    /// that provider is left under the key.
    pub proof fn lemma_providers_after_remove(self, k: Seq<u8>, provider: Seq<u8>)
        requires
            self.inv(),
        ensures
            forall|i: int|
                0 <= i < self.without_provider(k, provider).providers_of(k).len() ==> (#[trigger] self.without_provider(
                    k,
                    provider,
                ).providers_of(k)[i]).provider != provider,
    {
        if self.providers.contains_key(k) {
            let list = self.providers[k];
            let d = dropped(list, provider);
            if exists|p: int| provider_at(list, provider, p) {
                let p = choose|p: int| provider_at(list, provider, p);
                assert forall|i: int| 0 <= i < d.len() implies (#[trigger] d[i]).provider != provider by {
                    let i2 = if i < p { i } else { i + 1 };
                    assert(d[i] == list[i2]);
                    assert(i2 != p);
                }
            } else {
                assert forall|i: int| 0 <= i < d.len() implies (#[trigger] d[i]).provider != provider by {
                    assert(!provider_at(list, provider, i));
                }
            }
        }
    }

    /// What every store keeps: records under their own keys; per key,
    /// records of that key, of distinct providers, at most
    /// `max_providers_per_key` of them; at most `max_provided_keys` keys
    /// with providers.
    pub open spec fn inv(self) -> bool {
        &&& forall|k: Seq<u8>| #[trigger] self.records.contains_key(k) ==> self.records[k].key == k
        &&& forall|k: Seq<u8>| #[trigger] self.providers.contains_key(k) ==> {
            let list = self.providers[k];
            &&& list.len() <= self.config.max_providers_per_key
            &&& forall|i: int| 0 <= i < list.len() ==> #[trigger] list[i].key == k
            &&& forall|i: int, j: int|
                0 <= i < list.len() && 0 <= j < list.len() && #[trigger] list[i].provider
                    == #[trigger] list[j].provider ==> i == j
        }
        &&& self.providers.dom().finite()
        &&& self.providers.dom().len() <= self.config.max_provided_keys
    }
}

/// The position of the record of `provider` in `list`, if there is one.
fn provider_position(list: &Vec<ProviderRecord>, provider: &Vec<u8>) -> (r: Option<usize>)
    ensures
        match r {
            Some(j) => provider_at(provider_views(list@), provider@, j as int),
            None => forall|j: int| !provider_at(provider_views(list@), provider@, j),
        },
{
    let mut i: usize = 0;
    while i < list.len()
        invariant
            i <= list@.len(),
            forall|j: int| 0 <= j < i ==> list@[j].provider@ != provider@,
        decreases list@.len() - i,
    {
        if crate::addresses::same_bytes(&list[i].provider, provider) {
            return Some(i);
        }
        i += 1;
    }
    None
}

/// The records of `list` are of key `k`, of distinct providers, and at
/// most `max` of them.
pub open spec fn list_ok(list: Seq<ProviderView>, k: Seq<u8>, max: nat) -> bool {
    &&& list.len() <= max
    &&& forall|i: int| 0 <= i < list.len() ==> #[trigger] list[i].key == k
    &&& forall|i: int, j: int|
        0 <= i < list.len() && 0 <= j < list.len() && #[trigger] list[i].provider
            == #[trigger] list[j].provider ==> i == j
}

/// Adds `record` to `list`: replaces the record of the same provider, or
/// appends it unless the list holds `max` records.
fn add_to_list(list: &mut Vec<ProviderRecord>, record: ProviderRecord, max: usize)
    requires
        list_ok(provider_views(old(list)@), record@.key, max as nat),
    ensures
        provider_views(final(list)@) == added(provider_views(old(list)@), record@, max as nat),
        list_ok(provider_views(final(list)@), record@.key, max as nat),
{
    let ghost views = provider_views(list@);
    let ghost rv = record@;
    match provider_position(list, &record.provider) {
        Some(j) => {
            proof {
                let p = choose|p: int| provider_at(views, rv.provider, p);
                assert(views[p].provider == views[j as int].provider);
            }
            list.set(j, record);
            assert(provider_views(list@) =~= views.update(j as int, rv));
        },
        None => {
            if list.len() == max {
            } else {
                list.push(record);
                assert(provider_views(list@) =~= views.push(rv));
                assert forall|i: int, j: int|
                    0 <= i < list@.len() && 0 <= j < list@.len() && #[trigger] provider_views(list@)[i].provider
                        == #[trigger] provider_views(list@)[j].provider implies i == j by {
                    if i < views.len() && j < views.len() {
                    } else if i < views.len() {
                        assert(!provider_at(views, rv.provider, i));
                    } else if j < views.len() {
                        assert(!provider_at(views, rv.provider, j));
                    }
                }
            }
        },
    }
}

/// Removes the record of `provider` from `list`, if there is one.
fn drop_from_list(list: &mut Vec<ProviderRecord>, provider: &Vec<u8>, Ghost(k): Ghost<Seq<u8>>, Ghost(max): Ghost<nat>)
    requires
        list_ok(provider_views(old(list)@), k, max),
    ensures
        provider_views(final(list)@) == dropped(provider_views(old(list)@), provider@),
        list_ok(provider_views(final(list)@), k, max),
{
    let ghost views = provider_views(list@);
    match provider_position(list, provider) {
        Some(j) => {
            proof {
                let p = choose|p: int| provider_at(views, provider@, p);
                assert(views[p].provider == views[j as int].provider);
            }
            list.remove(j);
            assert(provider_views(list@) =~= views.remove(j as int));
            assert forall|a: int, b: int|
                0 <= a < list@.len() && 0 <= b < list@.len() && #[trigger] provider_views(list@)[a].provider
                    == #[trigger] provider_views(list@)[b].provider implies a == b by {
                let a2 = if a < j { a } else { a + 1 };
                let b2 = if b < j { b } else { b + 1 };
                assert(provider_views(list@)[a] == views[a2]);
                assert(provider_views(list@)[b] == views[b2]);
            }
            assert forall|a: int| 0 <= a < list@.len() implies #[trigger] provider_views(list@)[a].key == k by {
                let a2 = if a < j { a } else { a + 1 };
                assert(provider_views(list@)[a] == views[a2]);
            }
        },
        None => {},
    }
}

/// Whether `p` is a record of the local node `local` in `s` before the
/// position `(e, j)` (entry `e`, record `j`).
pub open spec fn provided_before(
    s: Seq<(Seq<u8>, Seq<ProviderView>)>,
    e: int,
    j: int,
    local: Seq<u8>,
    p: ProviderView,
) -> bool {
    exists|a: int, b: int|
        0 <= a < s.len() && 0 <= b < s[a].1.len() && (a < e || (a == e && b < j))
            && #[trigger] s[a].1[b] == p && p.provider == local
}

/// In-memory implementation of a record store.
pub struct MemoryStore {
    /// The identity of the peer owning the store.
    local_key: TableKey,
    /// The configuration of the store.
    config: MemoryStoreConfig,
    /// The stored (regular) records, with distinct keys.
    records: Vec<Record>,
    /// The stored provider records, by key, with distinct keys.
    providers: Vec<(Key, Vec<ProviderRecord>)>,
}

impl View for MemoryStore {
    type V = MemoryStoreView;

    closed spec fn view(&self) -> MemoryStoreView {
        MemoryStoreView {
            local: self.local_key.spec_preimage(),
            config: self.config,
            records: keyed_map(record_entries(self.records@)),
            providers: keyed_map(provider_entries(self.providers@)),
        }
    }
}

/// The records of each entry are of its key, of distinct providers, and
/// at most `max` of them.
pub open spec fn lists_ok(s: Seq<(Seq<u8>, Seq<ProviderView>)>, max: nat) -> bool {
    forall|e: int| 0 <= e < s.len() ==> {
        let list = #[trigger] s[e].1;
        &&& list.len() <= max
        &&& forall|i: int| 0 <= i < list.len() ==> #[trigger] list[i].key == s[e].0
        &&& forall|i: int, j: int|
            0 <= i < list.len() && 0 <= j < list.len() && #[trigger] list[i].provider
                == #[trigger] list[j].provider ==> i == j
    }
}

impl MemoryStore {
    /// The stored records are under distinct keys; so are the provider
    /// lists, each of which keeps to its key and its limits.
    pub closed spec fn wf(&self) -> bool {
        &&& keys_unique(record_entries(self.records@))
        &&& keys_unique(provider_entries(self.providers@))
        &&& lists_ok(provider_entries(self.providers@), self.config.max_providers_per_key as nat)
        &&& self.providers@.len() <= self.config.max_provided_keys
    }

    /// The stored records, in the order they were first stored.
    pub closed spec fn stored(&self) -> Seq<Record> {
        self.records@
    }

    /// Creates a new store with a default configuration.
    pub fn new(local_id: Vec<u8>) -> (r: Self)
        ensures
            r.wf(),
            r@.local == local_id@,
            r@.config.max_records == 1024,
            r@.config.max_value_bytes == 65 * 1024,
            r@.config.max_provided_keys == 1024,
            r@.config.max_providers_per_key == K_VALUE,
            r@.records == Map::<Seq<u8>, RecordView>::empty(),
            r@.providers == Map::<Seq<u8>, Seq<ProviderView>>::empty(),
    {
        Self::with_config(local_id, MemoryStoreConfig::default())
    }

    /// Creates a new store with the given configuration.
    pub fn with_config(local_id: Vec<u8>, config: MemoryStoreConfig) -> (r: Self)
        ensures
            r.wf(),
            r@.local == local_id@,
            r@.config == config,
            r@.records == Map::<Seq<u8>, RecordView>::empty(),
            r@.providers == Map::<Seq<u8>, Seq<ProviderView>>::empty(),
    {
        let r = MemoryStore {
            local_key: TableKey::new(local_id),
            config,
            records: Vec::new(),
            providers: Vec::new(),
        };
        assert(r@.records =~= Map::<Seq<u8>, RecordView>::empty());
        assert(r@.providers =~= Map::<Seq<u8>, Seq<ProviderView>>::empty());
        r
    }

    /// Every store keeps the invariant of its view.
    pub proof fn lemma_inv(&self)
        requires
            self.wf(),
        ensures
            self@.inv(),
    {
        let rs = record_entries(self.records@);
        let ps = provider_entries(self.providers@);
        assert forall|k: Seq<u8>| #[trigger] self@.records.contains_key(k) implies self@.records[k].key == k by {
            let i = choose|i: int| 0 <= i < rs.len() && #[trigger] rs[i].0 == k;
            lemma_keyed_index(rs, i);
        }
        assert forall|k: Seq<u8>| #[trigger] self@.providers.contains_key(k) implies {
            let list = self@.providers[k];
            &&& list.len() <= self.config.max_providers_per_key
            &&& forall|i: int| 0 <= i < list.len() ==> #[trigger] list[i].key == k
            &&& forall|i: int, j: int|
                0 <= i < list.len() && 0 <= j < list.len() && #[trigger] list[i].provider
                    == #[trigger] list[j].provider ==> i == j
        } by {
            let e = choose|e: int| 0 <= e < ps.len() && #[trigger] ps[e].0 == k;
            lemma_keyed_index(ps, e);
            assert(ps[e].1 == self@.providers[k]);
        }
        lemma_keyed_len(ps);
    }

    /// The position of the record stored under `k`, if there is one.
    fn record_position(&self, k: &Key) -> (r: Option<usize>)
        requires
            self.wf(),
        ensures
            match r {
                Some(i) => i < self.records@.len() && self.records@[i as int].key@ == k@,
                None => forall|i: int| 0 <= i < self.records@.len() ==> self.records@[i].key@ != k@,
            },
    {
        let mut i: usize = 0;
        while i < self.records.len()
            invariant
                i <= self.records@.len(),
                forall|j: int| 0 <= j < i ==> self.records@[j].key@ != k@,
            decreases self.records@.len() - i,
        {
            if self.records[i].key.same(k) {
                return Some(i);
            }
            i += 1;
        }
        None
    }

    /// The record stored under `k`.
    pub fn get(&self, k: &Key) -> (r: Option<&Record>)
        requires
            self.wf(),
        ensures
            match r {
                Some(rec) => self@.lookup(k@) == Some(rec@),
                None => self@.lookup(k@) is None,
            },
    {
        let ghost rs = record_entries(self.records@);
        match self.record_position(k) {
            Some(i) => {
                proof {
                    assert(rs[i as int].0 == k@);
                    lemma_keyed_index(rs, i as int);
                }
                Some(&self.records[i])
            },
            None => {
                proof {
                    assert forall|i: int| 0 <= i < rs.len() implies rs[i].0 != k@ by {
                        assert(rs[i].0 == self.records@[i].key@);
                    }
                    lemma_keyed_absent(rs, k@);
                }
                None
            },
        }
    }

    /// Stores `r` under its key, replacing a record stored there.
    ///
    /// Refuses a value of `max_value_bytes` bytes or more, and a new key
    /// when `max_records` records are stored.
    pub fn put(&mut self, r: Record) -> (res: Result<(), Error>)
        requires
            old(self).wf(),
        ensures
            final(self).wf(),
            res == old(self)@.put_outcome(r@),
            res is Ok ==> final(self)@ == old(self)@.with_record(r@),
            res is Err ==> final(self)@ == old(self)@,
    {
        if r.value.len() >= self.config.max_value_bytes {
            return Err(Error::ValueTooLarge);
        }
        let num_records = self.records.len();
        let ghost rs = record_entries(self.records@);
        let ghost before = self@;
        match self.record_position(&r.key) {
            Some(i) => {
                let ghost rv = r@;
                proof {
                    assert(rs[i as int].0 == rv.key);
                    lemma_keyed_index(rs, i as int);
                    lemma_keyed_update(rs, i as int, rv);
                }
                self.records.set(i, r);
                proof {
                    assert(record_entries(self.records@) =~= rs.update(i as int, (rs[i as int].0, rv)));
                }
                assert(self@ == before.with_record(rv));
                Ok(())
            },
            None => {
                proof {
                    assert forall|j: int| 0 <= j < rs.len() implies rs[j].0 != r@.key by {
                        assert(rs[j].0 == self.records@[j].key@);
                    }
                    lemma_keyed_absent(rs, r@.key);
                    lemma_keyed_len(rs);
                }
                if num_records >= self.config.max_records {
                    return Err(Error::MaxRecords);
                }
                let ghost rv = r@;
                proof {
                    lemma_keyed_push(rs, rv.key, rv);
                }
                self.records.push(r);
                proof {
                    assert(record_entries(self.records@) =~= rs.push((rv.key, rv)));
                }
                assert(self@ == before.with_record(rv));
                Ok(())
            },
        }
    }

    /// Removes the record stored under `k`, if there is one.
    pub fn remove(&mut self, k: &Key)
        requires
            old(self).wf(),
        ensures
            final(self).wf(),
            final(self)@ == old(self)@.without_record(k@),
    {
        let ghost rs = record_entries(self.records@);
        let ghost before = self@;
        match self.record_position(k) {
            Some(i) => {
                proof {
                    assert(rs[i as int].0 == k@);
                    lemma_keyed_remove(rs, i as int);
                }
                self.records.remove(i);
                proof {
                    assert(record_entries(self.records@) =~= rs.remove(i as int));
                }
                assert(self@ == before.without_record(k@));
            },
            None => {
                proof {
                    assert forall|j: int| 0 <= j < rs.len() implies rs[j].0 != k@ by {
                        assert(rs[j].0 == self.records@[j].key@);
                    }
                    lemma_keyed_absent(rs, k@);
                    assert(before.records.remove(k@) =~= before.records);
                }
                assert(self@ == before.without_record(k@));
            },
        }
    }

    /// The stored records, each once.
    pub fn records(&self) -> (r: &[Record])
        requires
            self.wf(),
        ensures
            keys_unique(record_entries(r@)),
            keyed_map(record_entries(r@)) == self@.records,
    {
        self.records.as_slice()
    }
    /// The position of the provider list of key `k`, if there is one.
    fn entry_position(&self, k: &Key) -> (r: Option<usize>)
        ensures
            match r {
                Some(i) => i < self.providers@.len() && self.providers@[i as int].0@ == k@,
                None => forall|i: int| 0 <= i < self.providers@.len() ==> self.providers@[i].0@ != k@,
            },
    {
        let mut i: usize = 0;
        while i < self.providers.len()
            invariant
                i <= self.providers@.len(),
                forall|j: int| 0 <= j < i ==> self.providers@[j].0@ != k@,
            decreases self.providers@.len() - i,
        {
            if self.providers[i].0.same(k) {
                return Some(i);
            }
            i += 1;
        }
        None
    }

    /// Adds a provider record under its key, replacing the record of the
    /// same provider.
    ///
    /// A new provider is ignored when the key already has
    /// `max_providers_per_key` of them. A key without providers is refused
    /// when `max_provided_keys` keys have providers.
    pub fn add_provider(&mut self, record: ProviderRecord) -> (res: Result<(), Error>)
        requires
            old(self).wf(),
        ensures
            final(self).wf(),
            res == old(self)@.add_provider_outcome(record@),
            res is Ok ==> final(self)@ == old(self)@.with_provider(record@),
            res is Err ==> final(self)@ == old(self)@,
    {
        let num_keys = self.providers.len();
        let ghost ps = provider_entries(self.providers@);
        let ghost before = self@;
        let ghost k = record@.key;
        let ghost max = self.config.max_providers_per_key as nat;
        proof {
            lemma_keyed_len(ps);
        }
        let idx: usize = match self.entry_position(&record.key) {
            Some(i) => {
                proof {
                    assert(ps[i as int].0 == k);
                    lemma_keyed_index(ps, i as int);
                    assert(before.providers.insert(k, before.providers_of(k)) =~= before.providers);
                }
                i
            },
            None => {
                proof {
                    assert forall|j: int| 0 <= j < ps.len() implies ps[j].0 != k by {
                        assert(ps[j].0 == self.providers@[j].0@);
                    }
                    lemma_keyed_absent(ps, k);
                }
                if self.config.max_provided_keys == num_keys {
                    return Err(Error::MaxProvidedKeys);
                }
                let key = record.key.copy();
                proof {
                    lemma_keyed_push(ps, k, Seq::empty());
                }
                let empty: Vec<ProviderRecord> = Vec::new();
                assert(provider_views(empty@) =~= Seq::<ProviderView>::empty());
                self.providers.push((key, empty));
                proof {
                    assert(provider_entries(self.providers@) =~= ps.push((k, Seq::empty())));
                    assert(before.providers_of(k) =~= Seq::<ProviderView>::empty());
                    let f = provider_entries(self.providers@);
                    assert forall|e: int| 0 <= e < f.len() implies list_ok(#[trigger] f[e].1, f[e].0, max) by {
                        if e < ps.len() {
                            assert(f[e] == ps[e]);
                        }
                    }
                }
                num_keys
            },
        };
        let ghost mid = provider_entries(self.providers@);
        let ghost mid_vec = self.providers@;
        assert(keyed_map(mid) == before.providers.insert(k, before.providers_of(k)));
        assert(keys_unique(mid));
        assert(lists_ok(mid, max));
        assert(mid[idx as int].0 == k);
        proof {
            lemma_keyed_index(mid, idx as int);
        }
        assert(mid[idx as int].1 == before.providers_of(k));
        let (key, mut list) = self.providers.remove(idx);
        assert(provider_views(list@) == mid[idx as int].1);
        add_to_list(&mut list, record, self.config.max_providers_per_key);
        let ghost new_list = provider_views(list@);
        self.providers.insert(idx, (key, list));
        proof {
            assert(self.providers@ =~= mid_vec.update(idx as int, (key, list)));
            assert(provider_entries(self.providers@) =~= mid.update(idx as int, (k, new_list)));
            lemma_keyed_update(mid, idx as int, new_list);
            assert(keyed_map(mid).insert(k, new_list) =~= before.providers.insert(k, new_list));
            let f = provider_entries(self.providers@);
            assert forall|e: int| 0 <= e < f.len() implies list_ok(#[trigger] f[e].1, f[e].0, max) by {
                if e != idx {
                    assert(f[e] == mid[e]);
                }
            }
        }
        assert(self@ == before.with_provider(record@));
        Ok(())
    }

    /// The provider records of `key`, in the order they were added.
    pub fn providers(&self, key: &Key) -> (r: Vec<ProviderRecord>)
        requires
            self.wf(),
        ensures
            provider_views(r@) == self@.providers_of(key@),
    {
        let ghost ps = provider_entries(self.providers@);
        match self.entry_position(key) {
            Some(i) => {
                proof {
                    assert(ps[i as int].0 == key@);
                    lemma_keyed_index(ps, i as int);
                }
                let list = &self.providers[i].1;
                let mut r: Vec<ProviderRecord> = Vec::new();
                let mut j: usize = 0;
                while j < list.len()
                    invariant
                        j <= list@.len(),
                        r@.len() == j,
                        forall|a: int| 0 <= a < j ==> r@[a]@ == list@[a]@,
                    decreases list@.len() - j,
                {
                    r.push(list[j].copy());
                    j += 1;
                }
                assert(provider_views(r@) =~= provider_views(list@));
                r
            },
            None => {
                proof {
                    assert forall|j: int| 0 <= j < ps.len() implies ps[j].0 != key@ by {
                        assert(ps[j].0 == self.providers@[j].0@);
                    }
                    lemma_keyed_absent(ps, key@);
                }
                let r: Vec<ProviderRecord> = Vec::new();
                assert(provider_views(r@) =~= Seq::<ProviderView>::empty());
                r
            },
        }
    }

    /// Removes the record of `provider` among the providers of `key`; a key
    /// left with no providers is dropped.
    pub fn remove_provider(&mut self, key: &Key, provider: &Vec<u8>)
        requires
            old(self).wf(),
        ensures
            final(self).wf(),
            final(self)@ == old(self)@.without_provider(key@, provider@),
    {
        let ghost ps = provider_entries(self.providers@);
        let ghost before = self@;
        let ghost max = self.config.max_providers_per_key as nat;
        match self.entry_position(key) {
            Some(idx) => {
                let ghost vec0 = self.providers@;
                proof {
                    assert(ps[idx as int].0 == key@);
                    lemma_keyed_index(ps, idx as int);
                }
                let (k, mut list) = self.providers.remove(idx);
                assert(provider_views(list@) == ps[idx as int].1);
                drop_from_list(&mut list, provider, Ghost(key@), Ghost(max));
                let ghost new_list = provider_views(list@);
                if list.len() == 0 {
                    proof {
                        lemma_keyed_remove(ps, idx as int);
                        assert(provider_entries(self.providers@) =~= ps.remove(idx as int));
                        let f = provider_entries(self.providers@);
                        assert forall|e: int| 0 <= e < f.len() implies list_ok(#[trigger] f[e].1, f[e].0, max) by {
                            let e2 = if e < idx { e } else { e + 1 };
                            assert(f[e] == ps[e2]);
                        }
                    }
                    assert(self@ == before.without_provider(key@, provider@));
                } else {
                    self.providers.insert(idx, (k, list));
                    proof {
                        assert(self.providers@ =~= vec0.update(idx as int, (k, list)));
                        assert(provider_entries(self.providers@) =~= ps.update(idx as int, (key@, new_list)));
                        lemma_keyed_update(ps, idx as int, new_list);
                        let f = provider_entries(self.providers@);
                        assert forall|e: int| 0 <= e < f.len() implies list_ok(#[trigger] f[e].1, f[e].0, max) by {
                            if e != idx {
                                assert(f[e] == ps[e]);
                            }
                        }
                    }
                    assert(self@ == before.without_provider(key@, provider@));
                }
            },
            None => {
                proof {
                    assert forall|j: int| 0 <= j < ps.len() implies ps[j].0 != key@ by {
                        assert(ps[j].0 == self.providers@[j].0@);
                    }
                    lemma_keyed_absent(ps, key@);
                }
            },
        }
    }

    /// The provider records of entries with distinct keys, read as a map,
    /// whose provider is `local`.
    proof fn lemma_provided(s: Seq<(Seq<u8>, Seq<ProviderView>)>, local: Seq<u8>, p: ProviderView)
        requires
            keys_unique(s),
        ensures
            provided_before(s, s.len() as int, 0, local, p) <==> (exists|k: Seq<u8>|
                #[trigger] keyed_map(s).contains_key(k) && keyed_map(s)[k].contains(p)
                    && p.provider == local),
    {
        let m = keyed_map(s);
        if provided_before(s, s.len() as int, 0, local, p) {
            let (a, b) = choose|a: int, b: int|
                0 <= a < s.len() && 0 <= b < s[a].1.len() && (a < s.len() || (a == s.len() && b < 0))
                    && #[trigger] s[a].1[b] == p && p.provider == local;
            lemma_keyed_index(s, a);
            assert(m.contains_key(s[a].0) && m[s[a].0].contains(p));
        }
        if exists|k: Seq<u8>| #[trigger] m.contains_key(k) && m[k].contains(p) && p.provider == local {
            let k = choose|k: Seq<u8>| #[trigger] m.contains_key(k) && m[k].contains(p) && p.provider == local;
            let a = choose|a: int| 0 <= a < s.len() && #[trigger] s[a].0 == k;
            lemma_keyed_index(s, a);
            let b = choose|b: int| 0 <= b < m[k].len() && m[k][b] == p;
            assert(s[a].1[b] == p);
        }
    }

    /// The provider records whose provider is the local node, each once.
    pub fn provided(&self) -> (r: Vec<&ProviderRecord>)
        requires
            self.wf(),
        ensures
            forall|p: ProviderView|
                self@.provided().contains(p) <==> exists|i: int| 0 <= i < r@.len() && #[trigger] r@[i]@ == p,
            forall|i: int, j: int| 0 <= i < r@.len() && 0 <= j < r@.len() && i != j ==> r@[i]@ != r@[j]@,
    {
        let ghost ps = provider_entries(self.providers@);
        let ghost max = self.config.max_providers_per_key as nat;
        let local = self.local_key.preimage();
        let mut r: Vec<&ProviderRecord> = Vec::new();
        let ghost mut pos: Seq<(int, int)> = Seq::empty();
        let mut e: usize = 0;
        while e < self.providers.len()
            invariant
                ps == provider_entries(self.providers@),
                keys_unique(ps),
                lists_ok(ps, max),
                local@ == self@.local,
                e <= ps.len(),
                r@.len() == pos.len(),
                forall|i: int| #![trigger pos[i]] 0 <= i < pos.len() ==> {
                    &&& 0 <= pos[i].0 < e
                    &&& 0 <= pos[i].1 < ps[pos[i].0].1.len()
                    &&& r@[i]@ == ps[pos[i].0].1[pos[i].1]
                },
                forall|i: int, j: int| 0 <= i < r@.len() && 0 <= j < r@.len() && i != j ==> r@[i]@ != r@[j]@,
                forall|p: ProviderView|
                    provided_before(ps, e as int, 0, local@, p) <==> exists|i: int|
                        0 <= i < r@.len() && #[trigger] r@[i]@ == p,
            decreases ps.len() - e,
        {
            let list = &self.providers[e].1;
            assert(provider_views(list@) == ps[e as int].1);
            let mut j: usize = 0;
            while j < list.len()
                invariant
                    ps == provider_entries(self.providers@),
                    keys_unique(ps),
                    lists_ok(ps, max),
                    local@ == self@.local,
                    e < ps.len(),
                    provider_views(list@) == ps[e as int].1,
                    j <= list@.len(),
                    r@.len() == pos.len(),
                    forall|i: int| #![trigger pos[i]] 0 <= i < pos.len() ==> {
                        &&& 0 <= pos[i].0 < e || (pos[i].0 == e && 0 <= pos[i].1 < j)
                        &&& 0 <= pos[i].0 <= e
                        &&& 0 <= pos[i].1 < ps[pos[i].0].1.len()
                        &&& r@[i]@ == ps[pos[i].0].1[pos[i].1]
                    },
                    forall|i: int, j2: int| 0 <= i < r@.len() && 0 <= j2 < r@.len() && i != j2 ==> r@[i]@ != r@[j2]@,
                    forall|p: ProviderView|
                        provided_before(ps, e as int, j as int, local@, p) <==> exists|i: int|
                            0 <= i < r@.len() && #[trigger] r@[i]@ == p,
                decreases list@.len() - j,
            {
                let ghost cur = ps[e as int].1[j as int];
                assert(cur == list@[j as int]@);
                if crate::addresses::same_bytes(&list[j].provider, local) {
                    let ghost old_r = r@;
                    let ghost old_pos = pos;
                    r.push(&list[j]);
                    proof {
                        pos = pos.push((e as int, j as int));
                        assert forall|i: int, j2: int|
                            0 <= i < r@.len() && 0 <= j2 < r@.len() && i != j2 implies r@[i]@ != r@[j2]@ by {
                            if i < old_r.len() && j2 < old_r.len() {
                                assert(r@[i] == old_r[i] && r@[j2] == old_r[j2]);
                            } else {
                                let o = if i < old_r.len() { i } else { j2 };
                                assert(r@[o] == old_r[o]);
                                let (a, b) = (old_pos[o].0, old_pos[o].1);
                                assert(pos[o] == old_pos[o]);
                                if a < e {
                                    assert(ps[a].1[b].key == ps[a].0);
                                    assert(cur.key == ps[e as int].0);
                                    assert(ps[a].0 != ps[e as int].0);
                                } else {
                                    assert(ps[e as int].1[b].provider != cur.provider);
                                }
                            }
                        }
                        let j1 = j + 1;
                        assert forall|p: ProviderView|
                            #[trigger] provided_before(ps, e as int, j1, local@, p) <==> exists|i: int|
                                0 <= i < r@.len() && #[trigger] r@[i]@ == p by {
                            if provided_before(ps, e as int, j1, local@, p) {
                                if p == cur {
                                    assert(r@[old_r.len() as int]@ == p);
                                } else {
                                    let (a, b) = choose|a: int, b: int|
                                        0 <= a < ps.len() && 0 <= b < ps[a].1.len() && (a < e || (a == e && b < j + 1))
                                            && #[trigger] ps[a].1[b] == p && p.provider == local@;
                                    assert(provided_before(ps, e as int, j as int, local@, p));
                                    let i = choose|i: int| 0 <= i < old_r.len() && #[trigger] old_r[i]@ == p;
                                    assert(r@[i] == old_r[i]);
                                }
                            }
                            if exists|i: int| 0 <= i < r@.len() && #[trigger] r@[i]@ == p {
                                let i = choose|i: int| 0 <= i < r@.len() && #[trigger] r@[i]@ == p;
                                if i < old_r.len() {
                                    assert(r@[i] == old_r[i]);
                                    assert(provided_before(ps, e as int, j as int, local@, p));
                                } else {
                                    assert(ps[e as int].1[j as int] == p);
                                }
                            }
                        }
                    }
                } else {
                    proof {
                        let j1 = j + 1;
                        assert forall|p: ProviderView|
                            #[trigger] provided_before(ps, e as int, j1, local@, p) <==> provided_before(
                                ps,
                                e as int,
                                j as int,
                                local@,
                                p,
                            ) by {
                            if provided_before(ps, e as int, j1, local@, p) {
                                let (a, b) = choose|a: int, b: int|
                                    0 <= a < ps.len() && 0 <= b < ps[a].1.len() && (a < e || (a == e && b < j + 1))
                                        && #[trigger] ps[a].1[b] == p && p.provider == local@;
                                if a == e && b == j {
                                    assert(cur.provider != local@);
                                }
                            }
                        }
                    }
                }
                j += 1;
            }
            proof {
                let e1 = e + 1;
                assert forall|p: ProviderView|
                    #[trigger] provided_before(ps, e1, 0, local@, p) <==> provided_before(
                        ps,
                        e as int,
                        list@.len() as int,
                        local@,
                        p,
                    ) by {
                    if provided_before(ps, e1, 0, local@, p) {
                        let (a, b) = choose|a: int, b: int|
                            0 <= a < ps.len() && 0 <= b < ps[a].1.len() && (a < e + 1 || (a == e + 1 && b < 0))
                                && #[trigger] ps[a].1[b] == p && p.provider == local@;
                        assert(a < e || (a == e && b < list@.len()));
                    }
                }
            }
            e += 1;
        }
        proof {
            assert forall|p: ProviderView|
                self@.provided().contains(p) <==> exists|i: int| 0 <= i < r@.len() && #[trigger] r@[i]@ == p by {
                Self::lemma_provided(ps, local@, p);
            }
        }
        r
    }

    /// Keeps the records on which `f` holds, and removes the others.
    ///
    /// Each stored record is shown to `f` once; the store keeps it exactly
    /// where `f` answered `true`.
    pub fn retain<F>(&mut self, f: F)
        where
            F: Fn(&Key, &Record) -> bool,
        requires
            old(self).wf(),
            forall|k: &Key, r: &Record| f.requires((k, r)),
        ensures
            final(self).wf(),
            final(self)@.local == old(self)@.local,
            final(self)@.config == old(self)@.config,
            final(self)@.providers == old(self)@.providers,
            final(self)@.records.submap_of(old(self)@.records),
            forall|u: int| 0 <= u < old(self).stored().len() ==> {
                let x = #[trigger] old(self).stored()[u];
                &&& final(self)@.records.contains_key(x.key@) ==> f.ensures((&x.key, &x), true)
                &&& !final(self)@.records.contains_key(x.key@) ==> f.ensures((&x.key, &x), false)
            },
    {
        let ghost old_records = self.records@;
        let ghost old_entries = record_entries(old_records);
        let ghost old_map = keyed_map(old_entries);
        let ghost mut keep: Set<Seq<u8>> = Set::new(|k: Seq<u8>| old_map.contains_key(k));
        let ghost mut t: int = 0;
        assert(old_map.restrict(keep) =~= old_map);
        assert forall|u: int| 0 <= u < old_records.len() implies keep.contains(#[trigger] old_records[u].key@) by {
            assert(old_entries[u].0 == old_records[u].key@);
        }
        let mut i: usize = 0;
        while i < self.records.len()
            invariant
                old(self).wf(),
                old_records == old(self).records@,
                old_entries == record_entries(old_records),
                old_map == keyed_map(old_entries),
                self.local_key == old(self).local_key,
                self.config == old(self).config,
                self.providers == old(self).providers,
                forall|k: &Key, r: &Record| f.requires((k, r)),
                0 <= i <= self.records@.len(),
                0 <= t <= old_records.len(),
                self.records@.len() - i == old_records.len() - t,
                forall|a: int| i <= a < self.records@.len() ==> #[trigger] self.records@[a] == old_records[a - i + t],
                keys_unique(record_entries(self.records@)),
                keyed_map(record_entries(self.records@)) == old_map.restrict(keep),
                forall|u: int| t <= u < old_records.len() ==> keep.contains(#[trigger] old_records[u].key@),
                forall|u: int| 0 <= u < t ==> {
                    let x = #[trigger] old_records[u];
                    &&& keep.contains(x.key@) ==> f.ensures((&x.key, &x), true)
                    &&& !keep.contains(x.key@) ==> f.ensures((&x.key, &x), false)
                },
            decreases self.records@.len() - i,
        {
            let ghost x = old_records[t];
            assert(self.records@[i as int] == x);
            let keep_it = f(&self.records[i].key, &self.records[i]);
            if keep_it {
                i += 1;
            } else {
                let ghost cur = record_entries(self.records@);
                proof {
                    lemma_keyed_remove(cur, i as int);
                    assert(cur[i as int].0 == x.key@);
                }
                self.records.remove(i);
                proof {
                    assert(record_entries(self.records@) =~= cur.remove(i as int));
                    assert(old_map.restrict(keep.remove(x.key@)) =~= old_map.restrict(keep).remove(x.key@));
                    assert forall|u: int| t < u < old_records.len() implies old_records[u].key@ != x.key@ by {
                        assert(old_entries[u].0 == old_records[u].key@);
                        assert(old_entries[t].0 == x.key@);
                    }
                    assert forall|u: int| 0 <= u < t implies old_records[u].key@ != x.key@ by {
                        assert(old_entries[u].0 == old_records[u].key@);
                        assert(old_entries[t].0 == x.key@);
                    }
                    keep = keep.remove(x.key@);
                }
            }
            proof {
                t = t + 1;
            }
        }
        proof {
            assert forall|u: int| 0 <= u < old_records.len() implies
                (self@.records.contains_key(#[trigger] old_records[u].key@) <==> keep.contains(old_records[u].key@)) by {
                assert(old_entries[u].0 == old_records[u].key@);
                lemma_keyed_index(old_entries, u);
            }
        }
    }
}

} // verus!
