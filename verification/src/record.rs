//! Records and the keys they are stored under.
//!
//! A peer identity is held as the bytes of its encoding, and so is an
//! address.

use vstd::prelude::*;
use std::time::Instant;
use crate::addresses::byte_views;
use crate::time::{instant_not_before, instant_ge};

pub mod keyed;
pub mod store;

verus! {

/// The (opaque) key of a record.
#[derive(Clone, Debug, PartialEq, Eq, Hash)]
pub struct Key(Vec<u8>);

impl View for Key {
    type V = Seq<u8>;

    closed spec fn view(&self) -> Seq<u8> {
        self.0@
    }
}

/// Copies a byte string.
pub(crate) fn copy_bytes(b: &Vec<u8>) -> (r: Vec<u8>)
    ensures
        r@ == b@,
{
    let r = b.clone();
    assert(r@ =~= b@);
    r
}

/// Copies a list of byte strings.
pub(crate) fn copy_byte_list(v: &Vec<Vec<u8>>) -> (r: Vec<Vec<u8>>)
    ensures
        byte_views(r@) == byte_views(v@),
{
    let mut r: Vec<Vec<u8>> = Vec::new();
    let mut i: usize = 0;
    while i < v.len()
        invariant
            i <= v.len(),
            r@.len() == i,
            forall|j: int| 0 <= j < i ==> r@[j]@ == v@[j]@,
        decreases v.len() - i,
    {
        r.push(copy_bytes(&v[i]));
        i += 1;
    }
    assert(byte_views(r@) =~= byte_views(v@));
    r
}

impl Key {
    /// Creates a new key from the bytes of the input.
    pub fn new(key: &[u8]) -> (r: Key)
        ensures
            r@ == key@,
    {
        let mut v: Vec<u8> = Vec::new();
        let mut i: usize = 0;
        while i < key.len()
            invariant
                i <= key@.len(),
                v@ == key@.subrange(0, i as int),
            decreases key@.len() - i,
        {
            v.push(key[i]);
            i += 1;
            assert(v@ =~= key@.subrange(0, i as int));
        }
        assert(v@ =~= key@);
        Key(v)
    }

    /// Makes a key of the bytes of `v`.
    pub fn from_vec(v: Vec<u8>) -> (r: Key)
        ensures
            r@ == v@,
    {
        Key(v)
    }

    /// Copies the bytes of the key into a new vector.
    pub fn to_vec(&self) -> (r: Vec<u8>)
        ensures
            r@ == self@,
    {
        copy_bytes(&self.0)
    }

    /// The bytes of the key.
    pub fn as_bytes(&self) -> (r: &[u8])
        ensures
            r@ == self@,
    {
        self.0.as_slice()
    }

    /// Whether two keys hold the same bytes.
    pub fn same(&self, other: &Key) -> (r: bool)
        ensures
            r == (self@ == other@),
    {
        crate::addresses::same_bytes(&self.0, &other.0)
    }

    /// A copy of the key.
    pub(crate) fn copy(&self) -> (r: Key)
        ensures
            r@ == self@,
    {
        Key(copy_bytes(&self.0))
    }
}

/// What a record holds, as values.
pub struct RecordView {
    pub key: Seq<u8>,
    pub value: Seq<u8>,
    pub publisher: Option<Seq<u8>>,
    pub expires: Option<Instant>,
}

/// A record stored in the DHT.
#[derive(Clone, Debug, Eq, PartialEq)]
pub struct Record {
    /// Key of the record.
    pub key: Key,
    /// Value of the record.
    pub value: Vec<u8>,
    /// The (original) publisher of the record.
    pub publisher: Option<Vec<u8>>,
    /// The expiration time as measured by a local, monotonic clock.
    pub expires: Option<Instant>,
}

impl View for Record {
    type V = RecordView;

    open spec fn view(&self) -> RecordView {
        RecordView {
            key: self.key@,
            value: self.value@,
            publisher: match self.publisher {
                Some(p) => Some(p@),
                None => None,
            },
            expires: self.expires,
        }
    }
}

/// Whether the optional expiry `expires` is past at `now`: `now` is not
/// before it; no expiry never is.
pub open spec fn expired(expires: Option<Instant>, now: Instant) -> bool {
    match expires {
        Some(t) => instant_ge(now, t),
        None => false,
    }
}

/// Whether an optional expiry is past at `now`; no expiry never is.
fn expired_at(expires: &Option<Instant>, now: &Instant) -> (r: bool)
    ensures
        r == expired(*expires, *now),
{
    match expires {
        Some(t) => instant_not_before(now, t),
        None => false,
    }
}

impl Record {
    /// Creates a new record for insertion into the DHT.
    pub fn new(key: Key, value: Vec<u8>) -> (r: Record)
        ensures
            r@ == (RecordView { key: key@, value: value@, publisher: None, expires: None }),
    {
        Record { key, value, publisher: None, expires: None }
    }

    /// Checks whether the record is expired w.r.t. the given `Instant`:
    /// whether it has an expiration time and `now` is not before it.
    pub fn is_expired(&self, now: Instant) -> (r: bool)
        ensures
            r == expired(self.expires, now),
    {
        expired_at(&self.expires, &now)
    }
}

/// What a provider record holds, as values.
pub struct ProviderView {
    pub key: Seq<u8>,
    pub provider: Seq<u8>,
    pub expires: Option<Instant>,
    pub addresses: Seq<Seq<u8>>,
}

/// A record stored in the DHT whose value is the ID of a peer
/// who can provide the value on-demand.
///
/// Two provider records are equal iff their `key` and `provider` fields
/// are equal.
#[derive(Clone, Debug)]
pub struct ProviderRecord {
    /// The key whose value is provided by the provider.
    pub key: Key,
    /// The provider of the value for the key.
    pub provider: Vec<u8>,
    /// The expiration time as measured by a local, monotonic clock.
    pub expires: Option<Instant>,
    /// The known addresses that the provider may be listening on.
    pub addresses: Vec<Vec<u8>>,
}

impl View for ProviderRecord {
    type V = ProviderView;

    open spec fn view(&self) -> ProviderView {
        ProviderView {
            key: self.key@,
            provider: self.provider@,
            expires: self.expires,
            addresses: byte_views(self.addresses@),
        }
    }
}

impl PartialEq for ProviderRecord {
    fn eq(&self, other: &Self) -> (r: bool) {
        self.key.same(&other.key) && crate::addresses::same_bytes(&self.provider, &other.provider)
    }
}

impl vstd::std_specs::cmp::PartialEqSpecImpl for ProviderRecord {
    open spec fn obeys_eq_spec() -> bool {
        true
    }

    open spec fn eq_spec(&self, other: &ProviderRecord) -> bool {
        self.key@ == other.key@ && self.provider@ == other.provider@
    }
}

impl Eq for ProviderRecord {
}

impl ProviderRecord {
    /// Creates a new provider record for insertion into a store.
    pub fn new(key: Key, provider: Vec<u8>, addresses: Vec<Vec<u8>>) -> (r: ProviderRecord)
        ensures
            r@ == (ProviderView {
                key: key@,
                provider: provider@,
                expires: None,
                addresses: byte_views(addresses@),
            }),
    {
        ProviderRecord { key, provider, expires: None, addresses }
    }

    /// Checks whether the provider record is expired w.r.t. the given
    /// `Instant`: whether it has an expiration time and `now` is not before
    /// it.
    pub fn is_expired(&self, now: Instant) -> (r: bool)
        ensures
            r == expired(self.expires, now),
    {
        expired_at(&self.expires, &now)
    }

    /// A copy of the record.
    pub(crate) fn copy(&self) -> (r: ProviderRecord)
        ensures
            r@ == self@,
    {
        ProviderRecord {
            key: self.key.copy(),
            provider: copy_bytes(&self.provider),
            expires: self.expires,
            addresses: copy_byte_list(&self.addresses),
        }
    }
}

} // verus!
