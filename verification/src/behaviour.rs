//! The configuration of a Kademlia node, quorums, and the results of its
//! operations.

use vstd::prelude::*;
use std::time::Duration;
use crate::query::QueryConfig;
use crate::record::{Key, Record};
use crate::record::store::Error;
use crate::time::duration_from_secs;
use crate::record::{copy_bytes, copy_byte_list};
use crate::handler::HandlerIn;
use crate::addresses::{Addresses, byte_views, same_bytes};
use crate::protocol::{ConnectionType, KadPeer};
use crate::query::{QueryPool, QueryPoolView, QueryResult, QueryId, QueryPeerIterView};
use crate::query::peers::fixed::{FixedPeersIterView, State as FixedState};
use crate::kbucket::key::{KadKey, lex_lt, xor_bytes, sha256_digest};

pub mod kademlia;

verus! {

/// The configuration of a Kademlia node.
#[derive(Debug, Clone)]
pub struct KademliaConfig {
    kbucket_pending_timeout: Duration,
    query_config: QueryConfig,
    protocol_name_override: Option<Vec<u8>>,
    record_ttl: Option<Duration>,
    record_replication_interval: Option<Duration>,
    record_publication_interval: Option<Duration>,
    provider_record_ttl: Option<Duration>,
    provider_publication_interval: Option<Duration>,
}

/// What a configuration holds.
pub struct KademliaConfigView {
    pub kbucket_pending_timeout: Duration,
    pub query_config: QueryConfig,
    pub protocol_name_override: Option<Seq<u8>>,
    pub record_ttl: Option<Duration>,
    pub record_replication_interval: Option<Duration>,
    pub record_publication_interval: Option<Duration>,
    pub provider_record_ttl: Option<Duration>,
    pub provider_publication_interval: Option<Duration>,
}

impl View for KademliaConfig {
    type V = KademliaConfigView;

    closed spec fn view(&self) -> KademliaConfigView {
        KademliaConfigView {
            kbucket_pending_timeout: self.kbucket_pending_timeout,
            query_config: self.query_config,
            protocol_name_override: match self.protocol_name_override {
                Some(n) => Some(n@),
                None => None,
            },
            record_ttl: self.record_ttl,
            record_replication_interval: self.record_replication_interval,
            record_publication_interval: self.record_publication_interval,
            provider_record_ttl: self.provider_record_ttl,
            provider_publication_interval: self.provider_publication_interval,
        }
    }
}

impl Default for KademliaConfig {
    /// A pending timeout of 60 seconds, the default query configuration,
    /// no protocol name override, records living 36 hours, replicated
    /// hourly and republished daily, provider records living a day and
    /// republished every 12 hours.
    fn default() -> (r: Self)
        ensures
            r@.query_config.replication_factor == crate::K_VALUE,
            r@.protocol_name_override is None,
            r@.record_ttl is Some,
            r@.record_replication_interval is Some,
            r@.record_publication_interval is Some,
            r@.provider_record_ttl is Some,
            r@.provider_publication_interval is Some,
    {
        KademliaConfig {
            kbucket_pending_timeout: duration_from_secs(60),
            query_config: QueryConfig::default(),
            protocol_name_override: None,
            record_ttl: Some(duration_from_secs(36 * 60 * 60)),
            record_replication_interval: Some(duration_from_secs(60 * 60)),
            record_publication_interval: Some(duration_from_secs(24 * 60 * 60)),
            provider_publication_interval: Some(duration_from_secs(12 * 60 * 60)),
            provider_record_ttl: Some(duration_from_secs(24 * 60 * 60)),
        }
    }
}

impl KademliaConfig {
    /// Sets a custom protocol name. Nodes only communicate with nodes of
    /// the same protocol name.
    pub fn set_protocol_name(&mut self, name: Vec<u8>) -> (r: &mut Self)
        ensures
            r@ == (KademliaConfigView { protocol_name_override: Some(name@), ..old(self)@ }),
            final(self)@ == final(r)@,
    {
        self.protocol_name_override = Some(name);
        self
    }

    /// Sets the timeout for a single query.
    pub fn set_query_timeout(&mut self, timeout: Duration) -> (r: &mut Self)
        ensures
            r@ == (KademliaConfigView {
                query_config: QueryConfig { timeout, ..old(self)@.query_config },
                ..old(self)@
            }),
            final(self)@ == final(r)@,
    {
        self.query_config.timeout = timeout;
        self
    }

    /// Sets the replication factor: the number of closest peers a record
    /// is replicated to.
    pub fn set_replication_factor(&mut self, replication_factor: usize) -> (r: &mut Self)
        requires
            replication_factor >= 1,
        ensures
            r@ == (KademliaConfigView {
                query_config: QueryConfig { replication_factor, ..old(self)@.query_config },
                ..old(self)@
            }),
            final(self)@ == final(r)@,
    {
        self.query_config.replication_factor = replication_factor;
        self
    }

    /// Sets the TTL for stored records; `None` means they never expire.
    pub fn set_record_ttl(&mut self, record_ttl: Option<Duration>) -> (r: &mut Self)
        ensures
            r@ == (KademliaConfigView { record_ttl, ..old(self)@ }),
            final(self)@ == final(r)@,
    {
        self.record_ttl = record_ttl;
        self
    }

    /// Sets the (re-)replication interval for stored records; `None` means
    /// they are never re-replicated.
    pub fn set_replication_interval(&mut self, interval: Option<Duration>) -> (r: &mut Self)
        ensures
            r@ == (KademliaConfigView { record_replication_interval: interval, ..old(self)@ }),
            final(self)@ == final(r)@,
    {
        self.record_replication_interval = interval;
        self
    }

    /// Sets the (re-)publication interval of stored records; `None` means
    /// they are never republished automatically.
    pub fn set_publication_interval(&mut self, interval: Option<Duration>) -> (r: &mut Self)
        ensures
            r@ == (KademliaConfigView { record_publication_interval: interval, ..old(self)@ }),
            final(self)@ == final(r)@,
    {
        self.record_publication_interval = interval;
        self
    }

    /// Sets the TTL for provider records; `None` means they never expire.
    pub fn set_provider_record_ttl(&mut self, ttl: Option<Duration>) -> (r: &mut Self)
        ensures
            r@ == (KademliaConfigView { provider_record_ttl: ttl, ..old(self)@ }),
            final(self)@ == final(r)@,
    {
        self.provider_record_ttl = ttl;
        self
    }

    /// Sets the interval at which the local node's provider records are
    /// republished; `None` means never.
    pub fn set_provider_publication_interval(&mut self, interval: Option<Duration>) -> (r: &mut Self)
        ensures
            r@ == (KademliaConfigView { provider_publication_interval: interval, ..old(self)@ }),
            final(self)@ == final(r)@,
    {
        self.provider_publication_interval = interval;
        self
    }

    /// The query configuration.
    pub fn query_config(&self) -> (r: &QueryConfig)
        ensures
            *r == self@.query_config,
    {
        &self.query_config
    }

    /// The record TTL.
    pub fn record_ttl(&self) -> (r: Option<Duration>)
        ensures
            r == self@.record_ttl,
    {
        self.record_ttl
    }
}

/// The number of successful results of a request to a number of peers that
/// make it succeed.
#[derive(Debug, Copy, Clone, PartialEq, Eq, Structural)]
pub enum Quorum {
    One,
    Majority,
    All,
    N(usize),
}

/// The quorum `q` out of `total` peers: one, more than half, all, or `n`
/// but no more than `total`.
pub open spec fn quorum_of(q: Quorum, total: usize) -> int {
    match q {
        Quorum::One => 1,
        Quorum::Majority => total / 2 + 1,
        Quorum::All => total as int,
        Quorum::N(n) => if n < total { n as int } else { total as int },
    }
}

impl Quorum {
    /// The quorum out of `total` peers: one, more than half, all, or `n`
    /// but no more than `total`.
    pub fn eval(&self, total: usize) -> (r: usize)
        requires
            total >= 1,
            self matches Quorum::N(n) ==> n >= 1,
        ensures
            r == quorum_of(*self, total),
            r >= 1,
    {
        match self {
            Quorum::One => 1,
            Quorum::Majority => total / 2 + 1,
            Quorum::All => total,
            Quorum::N(n) => if *n < total { *n } else { total },
        }
    }
}

/// The records found by a successful record lookup.
#[derive(Debug, Clone)]
pub struct GetRecordOk {
    pub records: Vec<Record>,
}

/// Why a record lookup failed.
#[derive(Debug, Clone)]
pub enum GetRecordError {
    NotFound { key: Key, closest_peers: Vec<Vec<u8>> },
    QuorumFailed { key: Key, records: Vec<Record>, quorum: usize },
    Timeout { key: Key, records: Vec<Record>, quorum: usize },
}

/// The key of a failed record lookup.
pub open spec fn get_record_error_key(e: GetRecordError) -> Key {
    match e {
        GetRecordError::NotFound { key, .. } => key,
        GetRecordError::QuorumFailed { key, .. } => key,
        GetRecordError::Timeout { key, .. } => key,
    }
}

impl GetRecordError {
    /// Gets the key of the record for which the operation failed.
    pub fn key(&self) -> (r: &Key)
        ensures
            *r == get_record_error_key(*self),
    {
        match self {
            GetRecordError::QuorumFailed { key, .. } => key,
            GetRecordError::Timeout { key, .. } => key,
            GetRecordError::NotFound { key, .. } => key,
        }
    }

    /// Extracts the key of the record for which the operation failed.
    pub fn into_key(self) -> (r: Key)
        ensures
            r == get_record_error_key(self),
    {
        match self {
            GetRecordError::QuorumFailed { key, .. } => key,
            GetRecordError::Timeout { key, .. } => key,
            GetRecordError::NotFound { key, .. } => key,
        }
    }
}

/// The key of a record stored successfully.
#[derive(Debug, Clone)]
pub struct PutRecordOk {
    pub key: Key,
}

/// Why storing a record failed.
#[derive(Debug)]
pub enum PutRecordError {
    QuorumFailed { key: Key, num_results: usize, quorum: usize },
    Timeout { key: Key, num_results: usize, quorum: usize },
    LocalStorageError { key: Key, cause: Error },
}

/// The key of a failed store.
pub open spec fn put_record_error_key(e: PutRecordError) -> Key {
    match e {
        PutRecordError::QuorumFailed { key, .. } => key,
        PutRecordError::Timeout { key, .. } => key,
        PutRecordError::LocalStorageError { key, .. } => key,
    }
}

impl PutRecordError {
    /// Gets the key of the record for which the operation failed.
    pub fn key(&self) -> (r: &Key)
        ensures
            *r == put_record_error_key(*self),
    {
        match self {
            PutRecordError::QuorumFailed { key, .. } => key,
            PutRecordError::Timeout { key, .. } => key,
            PutRecordError::LocalStorageError { key, .. } => key,
        }
    }

    /// Extracts the key of the record for which the operation failed.
    pub fn into_key(self) -> (r: Key)
        ensures
            r == put_record_error_key(self),
    {
        match self {
            PutRecordError::QuorumFailed { key, .. } => key,
            PutRecordError::Timeout { key, .. } => key,
            PutRecordError::LocalStorageError { key, .. } => key,
        }
    }
}

/// The peer a successful bootstrap reached.
#[derive(Debug, Clone)]
pub struct BootstrapOk {
    pub peer: Vec<u8>,
}

/// Why a bootstrap failed.
#[derive(Debug, Clone)]
pub enum BootstrapError {
    Timeout { peer: Vec<u8> },
}

/// The peers closest to a key, as a successful lookup found them.
#[derive(Debug, Clone)]
pub struct GetClosestPeersOk {
    pub key: Vec<u8>,
    pub peers: Vec<Vec<u8>>,
}

/// Why a lookup of the closest peers failed.
#[derive(Debug, Clone)]
pub enum GetClosestPeersError {
    Timeout { key: Vec<u8>, peers: Vec<Vec<u8>> },
}

impl GetClosestPeersError {
    /// Gets the key for which the operation failed.
    pub fn key(&self) -> (r: &Vec<u8>)
        ensures
            *r == (match *self {
                GetClosestPeersError::Timeout { key, .. } => key,
            }),
    {
        match self {
            GetClosestPeersError::Timeout { key, .. } => key,
        }
    }

    /// Extracts the key for which the operation failed.
    pub fn into_key(self) -> (r: Vec<u8>)
        ensures
            r == (match self {
                GetClosestPeersError::Timeout { key, .. } => key,
            }),
    {
        match self {
            GetClosestPeersError::Timeout { key, .. } => key,
        }
    }
}

/// The providers of a key, and the closest peers, as a successful lookup
/// found them.
#[derive(Debug, Clone)]
pub struct GetProvidersOk {
    pub key: Key,
    pub providers: Vec<Vec<u8>>,
    pub closest_peers: Vec<Vec<u8>>,
}

/// Why a lookup of providers failed.
#[derive(Debug, Clone)]
pub enum GetProvidersError {
    Timeout { key: Key, providers: Vec<Vec<u8>>, closest_peers: Vec<Vec<u8>> },
}

impl GetProvidersError {
    /// Gets the key for which the operation failed.
    pub fn key(&self) -> (r: &Key)
        ensures
            *r == (match *self {
                GetProvidersError::Timeout { key, .. } => key,
            }),
    {
        match self {
            GetProvidersError::Timeout { key, .. } => key,
        }
    }

    /// Extracts the key for which the operation failed.
    pub fn into_key(self) -> (r: Key)
        ensures
            r == (match self {
                GetProvidersError::Timeout { key, .. } => key,
            }),
    {
        match self {
            GetProvidersError::Timeout { key, .. } => key,
        }
    }
}

/// The key of a provider record published successfully.
#[derive(Debug, Clone)]
pub struct AddProviderOk {
    pub key: Key,
}

/// Why publishing a provider record failed.
#[derive(Debug)]
pub enum AddProviderError {
    /// The query timed out.
    Timeout { key: Key },
    /// The provider record could not be stored.
    LocalStorageError { key: Key, cause: Error },
}

impl AddProviderError {
    /// Gets the key for which the operation failed.
    pub fn key(&self) -> (r: &Key)
        ensures
            *r == (match *self {
                AddProviderError::Timeout { key } => key,
                AddProviderError::LocalStorageError { key, .. } => key,
            }),
    {
        match self {
            AddProviderError::Timeout { key, .. } => key,
            AddProviderError::LocalStorageError { key, .. } => key,
        }
    }

    /// Extracts the key for which the operation failed.
    pub fn into_key(self) -> (r: Key)
        ensures
            r == (match self {
                AddProviderError::Timeout { key } => key,
                AddProviderError::LocalStorageError { key, .. } => key,
            }),
    {
        match self {
            AddProviderError::Timeout { key, .. } => key,
            AddProviderError::LocalStorageError { key, .. } => key,
        }
    }
}

/// Whether a provider record is published for the first time or again.
#[derive(Debug, Copy, Clone, PartialEq, Eq, Structural)]
pub enum AddProviderContext {
    Publish,
    Republish,
}

/// Why a record is stored at other peers.
#[derive(Debug, Copy, Clone, PartialEq, Eq, Structural)]
pub enum PutRecordContext {
    /// Published by the local node.
    Publish,
    /// Republished by the local node.
    Republish,
    /// Replicated on behalf of another node.
    Replicate,
    /// Cached at the closest peer that did not have it.
    Cache,
}

/// What a query is for, and what it has gathered so far.
#[derive(Debug)]
pub enum QueryInfo {
    /// A lookup of the peer `peer`, to fill the routing table.
    Bootstrap { peer: Vec<u8> },
    /// A lookup of the closest peers to `key`.
    GetClosestPeers { key: Vec<u8> },
    /// A lookup of the providers of `key`, with those found.
    GetProviders { key: Key, providers: Vec<Vec<u8>> },
    /// A lookup of the closest peers to `key`, to announce the local node
    /// to them as a provider.
    PrepareAddProvider { key: Key, context: AddProviderContext },
    /// The announcement of the local node as a provider of `key`.
    AddProvider {
        key: Key,
        provider_id: Vec<u8>,
        external_addresses: Vec<Vec<u8>>,
        context: AddProviderContext,
    },
    /// A lookup of the closest peers to the key of `record`, to store it
    /// with them.
    PreparePutRecord { record: Record, quorum: usize, context: PutRecordContext },
    /// The storing of `record` at peers, with the number of successes.
    PutRecord { record: Record, quorum: usize, num_results: usize, context: PutRecordContext },
    /// A lookup of the records of `key`, with those found, the number
    /// wanted, and the closest peer that did not have one.
    GetRecord {
        key: Key,
        records: Vec<Record>,
        quorum: usize,
        cache_at: Option<crate::kbucket::key::Key>,
    },
}

/// The quorums of `info` are at least one.
pub open spec fn info_wf(info: QueryInfo) -> bool {
    match info {
        QueryInfo::PreparePutRecord { quorum, .. } => quorum >= 1,
        QueryInfo::PutRecord { quorum, .. } => quorum >= 1,
        QueryInfo::GetRecord { quorum, .. } => quorum >= 1,
        _ => true,
    }
}

/// The events a Kademlia node reports.
#[derive(Debug)]
pub enum KademliaEvent {
    BootstrapResult(Result<BootstrapOk, BootstrapError>),
    GetClosestPeersResult(Result<GetClosestPeersOk, GetClosestPeersError>),
    GetProvidersResult(Result<GetProvidersOk, GetProvidersError>),
    StartProvidingResult(Result<AddProviderOk, AddProviderError>),
    RepublishProviderResult(Result<AddProviderOk, AddProviderError>),
    GetRecordResult(Result<GetRecordOk, GetRecordError>),
    PutRecordResult(Result<PutRecordOk, PutRecordError>),
    RepublishRecordResult(Result<PutRecordOk, PutRecordError>),
    /// A peer was discovered during a query.
    Discovered { peer_id: Vec<u8>, addresses: Vec<Vec<u8>>, ty: ConnectionType },
    /// The routing table was updated for `peer`, possibly evicting
    /// `old_peer`.
    RoutingUpdated { peer: Vec<u8>, addresses: Addresses, old_peer: Option<Vec<u8>> },
    /// A peer connected whose listen address is unknown.
    UnroutablePeer { peer: Vec<u8> },
}

/// The event of a provider announcement, by context.
pub open spec fn add_provider_event(context: AddProviderContext, r: Result<AddProviderOk, AddProviderError>) -> KademliaEvent {
    match context {
        AddProviderContext::Publish => KademliaEvent::StartProvidingResult(r),
        AddProviderContext::Republish => KademliaEvent::RepublishProviderResult(r),
    }
}

/// The event of storing a record, by context: none for a replication or a
/// cache.
pub open spec fn put_record_event(context: PutRecordContext, r: Result<PutRecordOk, PutRecordError>) -> Option<KademliaEvent> {
    match context {
        PutRecordContext::Publish => Some(KademliaEvent::PutRecordResult(r)),
        PutRecordContext::Republish => Some(KademliaEvent::RepublishRecordResult(r)),
        _ => None,
    }
}

/// The event reported when the query `info` times out, the peers in
/// `peers` having answered.
pub open spec fn timeout_event(info: QueryInfo, peers: Vec<Vec<u8>>) -> Option<KademliaEvent> {
    match info {
        QueryInfo::Bootstrap { peer } =>
            Some(KademliaEvent::BootstrapResult(Err(BootstrapError::Timeout { peer }))),
        QueryInfo::PrepareAddProvider { key, context } =>
            Some(add_provider_event(context, Err(AddProviderError::Timeout { key }))),
        QueryInfo::AddProvider { key, context, .. } =>
            Some(add_provider_event(context, Err(AddProviderError::Timeout { key }))),
        QueryInfo::GetClosestPeers { key } =>
            Some(KademliaEvent::GetClosestPeersResult(Err(GetClosestPeersError::Timeout { key, peers }))),
        QueryInfo::PreparePutRecord { record, quorum, context } =>
            put_record_event(context, Err(PutRecordError::Timeout { key: record.key, num_results: 0, quorum })),
        QueryInfo::PutRecord { record, quorum, num_results, context } =>
            put_record_event(context, Err(PutRecordError::Timeout { key: record.key, num_results, quorum })),
        QueryInfo::GetRecord { key, records, quorum, .. } =>
            Some(KademliaEvent::GetRecordResult(Err(GetRecordError::Timeout { key, records, quorum }))),
        QueryInfo::GetProviders { key, providers } =>
            Some(KademliaEvent::GetProvidersResult(Err(GetProvidersError::Timeout {
                key,
                providers,
                closest_peers: peers,
            }))),
    }
}

fn add_provider_result(context: AddProviderContext, r: Result<AddProviderOk, AddProviderError>) -> (e: KademliaEvent)
    ensures
        e == add_provider_event(context, r),
{
    match context {
        AddProviderContext::Publish => KademliaEvent::StartProvidingResult(r),
        AddProviderContext::Republish => KademliaEvent::RepublishProviderResult(r),
    }
}

fn put_record_result(context: PutRecordContext, r: Result<PutRecordOk, PutRecordError>) -> (e: Option<KademliaEvent>)
    ensures
        e == put_record_event(context, r),
{
    match context {
        PutRecordContext::Publish => Some(KademliaEvent::PutRecordResult(r)),
        PutRecordContext::Republish => Some(KademliaEvent::RepublishRecordResult(r)),
        _ => None,
    }
}

/// The event to report for a query that timed out: the failure of the
/// operation with what the query had gathered; nothing for the storing of a
/// replica or a cached copy. A lookup that prepares the caching of a record
/// never happens: caching goes straight to one peer.
pub fn query_timeout(result: QueryResult<QueryInfo>) -> (r: Option<KademliaEvent>)
    requires
        !(result.inner matches QueryInfo::PreparePutRecord { context, .. } && context == PutRecordContext::Cache),
    ensures
        r == timeout_event(result.inner, result.peers),
{
    let peers = result.peers;
    match result.inner {
        QueryInfo::Bootstrap { peer } =>
            Some(KademliaEvent::BootstrapResult(Err(BootstrapError::Timeout { peer }))),
        QueryInfo::PrepareAddProvider { key, context } =>
            Some(add_provider_result(context, Err(AddProviderError::Timeout { key }))),
        QueryInfo::AddProvider { key, context, .. } =>
            Some(add_provider_result(context, Err(AddProviderError::Timeout { key }))),
        QueryInfo::GetClosestPeers { key } =>
            Some(KademliaEvent::GetClosestPeersResult(Err(GetClosestPeersError::Timeout { key, peers }))),
        QueryInfo::PreparePutRecord { record, quorum, context } =>
            put_record_result(context, Err(PutRecordError::Timeout { key: record.key, num_results: 0, quorum })),
        QueryInfo::PutRecord { record, quorum, num_results, context } =>
            put_record_result(context, Err(PutRecordError::Timeout { key: record.key, num_results, quorum })),
        QueryInfo::GetRecord { key, records, quorum, .. } =>
            Some(KademliaEvent::GetRecordResult(Err(GetRecordError::Timeout { key, records, quorum }))),
        QueryInfo::GetProviders { key, providers } =>
            Some(KademliaEvent::GetProvidersResult(Err(GetProvidersError::Timeout {
                key,
                providers,
                closest_peers: peers,
            }))),
    }
}

/// The event reported when the query `info` finishes, the peers in `peers`
/// having answered: the success of the operation, or, for a record lookup
/// that found fewer records than its quorum, its failure; nothing for the
/// preparing lookups and for the storing of a replica or a cached copy.
pub open spec fn finished_event(info: QueryInfo, peers: Vec<Vec<u8>>) -> Option<KademliaEvent> {
    match info {
        QueryInfo::Bootstrap { peer } => Some(KademliaEvent::BootstrapResult(Ok(BootstrapOk { peer }))),
        QueryInfo::GetClosestPeers { key } =>
            Some(KademliaEvent::GetClosestPeersResult(Ok(GetClosestPeersOk { key, peers }))),
        QueryInfo::GetProviders { key, providers } =>
            Some(KademliaEvent::GetProvidersResult(Ok(GetProvidersOk { key, providers, closest_peers: peers }))),
        QueryInfo::PrepareAddProvider { .. } => None,
        QueryInfo::AddProvider { key, context, .. } => Some(add_provider_event(context, Ok(AddProviderOk { key }))),
        QueryInfo::GetRecord { key, records, quorum, .. } => Some(KademliaEvent::GetRecordResult(
            if records@.len() >= quorum {
                Ok(GetRecordOk { records })
            } else if records@.len() == 0 {
                Err(GetRecordError::NotFound { key, closest_peers: peers })
            } else {
                Err(GetRecordError::QuorumFailed { key, records, quorum })
            },
        )),
        QueryInfo::PreparePutRecord { .. } => None,
        QueryInfo::PutRecord { record, quorum, num_results, context } => put_record_event(
            context,
            if num_results >= quorum {
                Ok(PutRecordOk { key: record.key })
            } else {
                Err(PutRecordError::QuorumFailed { key: record.key, num_results, quorum })
            },
        ),
    }
}

/// How many of `total` peers a quorum asks for: one; more than half; all;
/// or `n`, but never more than there are. It is at least one when there is
/// a peer at all.
pub proof fn lemma_quorum_bounds(q: Quorum, total: usize)
    requires
        q matches Quorum::N(n) ==> n >= 1,
    ensures
        q is One ==> quorum_of(q, total) == 1,
        q is Majority ==> 2 * quorum_of(q, total) > total && 2 * (quorum_of(q, total) - 1) <= total,
        q is All ==> quorum_of(q, total) == total,
        q matches Quorum::N(n) ==> quorum_of(q, total) <= n && quorum_of(q, total) <= total
            && (quorum_of(q, total) == n || quorum_of(q, total) == total),
        total >= 1 ==> 1 <= quorum_of(q, total) <= total || (q is One && total == 0),
{
}

/// A finished record lookup succeeds exactly when it found at least as
/// many records as its quorum, handing back those records; it fails as
/// not found when it found none, and on the quorum otherwise. A finished
/// store succeeds exactly when as many peers as its quorum stored the
/// record.
pub proof fn lemma_finished_outcome(info: QueryInfo, peers: Vec<Vec<u8>>)
    ensures
        info matches QueryInfo::GetRecord { records, quorum, .. } ==> {
            let e = finished_event(info, peers);
            &&& e matches Some(KademliaEvent::GetRecordResult(res))
            &&& (res is Ok) == (records@.len() >= quorum)
            &&& (res matches Ok(ok) ==> ok.records == records)
            &&& (res matches Err(GetRecordError::NotFound { .. })) == (records@.len() == 0 && quorum > 0)
        },
        info matches QueryInfo::PutRecord { num_results, quorum, context, .. } ==> match finished_event(info, peers) {
            Some(KademliaEvent::PutRecordResult(res)) => (res is Ok) == (num_results >= quorum),
            Some(KademliaEvent::RepublishRecordResult(res)) => (res is Ok) == (num_results >= quorum),
            _ => context == PutRecordContext::Replicate || context == PutRecordContext::Cache,
        },
{
}

/// The pool `new` is `old` with one more query, last, that contacts the
/// peers `backlog` (as many at a time as the replication factor).
pub open spec fn fixed_query_added(old: QueryPoolView<QueryInfo>, new: QueryPoolView<QueryInfo>, backlog: Seq<Seq<u8>>) -> bool {
    let id = QueryId(old.next_id);
    &&& new.next_id == old.next_id.wrapping_add(1)
    &&& new.config == old.config
    &&& new.queries.len() >= 1
    &&& new.queries.last().id == id
    &&& new.queries.last().started is None
    &&& new.queries.last().iter == QueryPeerIterView::Fixed(FixedPeersIterView {
        parallelism: old.config.replication_factor,
        peers: Seq::empty(),
        backlog,
        state: FixedState::Waiting { num_waiting: 0 },
    })
    &&& (forall|i: int| 0 <= i < old.queries.len() ==> old.queries[i].id != id) ==> new.queries.drop_last() == old.queries
    &&& forall|i: int| 0 <= i < old.queries.len() && old.queries[i].id == id ==> new.queries.drop_last() == old.queries.remove(i)
}

/// The query that follows the finished query `info`, if any, as a
/// condition on its information: announcing the local node (with id
/// `local` and addresses `ext`) as a provider to the closest peers found;
/// storing the record at them; or caching the first record found at the
/// closest peer that had none, when the quorum was reached.
pub open spec fn follow_up(info: QueryInfo, local: Seq<u8>, ext: Vec<Vec<u8>>, next: QueryInfo) -> bool {
    match info {
        QueryInfo::PrepareAddProvider { key, context } => next matches QueryInfo::AddProvider {
            key: k,
            provider_id,
            external_addresses,
            context: c,
        } && k == key && provider_id@ == local && external_addresses == ext && c == context,
        QueryInfo::PreparePutRecord { record, quorum, context } =>
            next == (QueryInfo::PutRecord { record, quorum, num_results: 0, context }),
        QueryInfo::GetRecord { records, .. } => next matches QueryInfo::PutRecord { record, quorum, num_results, context }
            && record@ == records@[0]@ && quorum == 1 && num_results == 0 && context == PutRecordContext::Cache,
        _ => false,
    }
}

/// The peers that the query following `info` contacts, if any.
pub open spec fn follow_up_peers(info: QueryInfo, peers: Seq<Seq<u8>>) -> Option<Seq<Seq<u8>>> {
    match info {
        QueryInfo::PrepareAddProvider { .. } => Some(peers),
        QueryInfo::PreparePutRecord { .. } => Some(peers),
        QueryInfo::GetRecord { records, quorum, cache_at, .. } =>
            if records@.len() >= quorum && cache_at is Some {
                Some(seq![cache_at->0.spec_preimage()])
            } else {
                None
            },
        _ => None,
    }
}

/// The routing-table keys of `peers`.
fn peer_keys(peers: Vec<Vec<u8>>) -> (r: Vec<crate::kbucket::key::Key>)
    ensures
        r@.map_values(|k: crate::kbucket::key::Key| k.spec_preimage()) == byte_views(peers@),
{
    let mut r: Vec<crate::kbucket::key::Key> = Vec::new();
    let mut peers = peers;
    let ghost orig = peers@;
    while peers.len() > 0
        invariant
            r@.len() + peers@.len() == orig.len(),
            peers@ == orig.subrange(r@.len() as int, orig.len() as int),
            forall|j: int| 0 <= j < r@.len() ==> (#[trigger] r@[j]).spec_preimage() == orig[j]@,
        decreases peers@.len(),
    {
        let p = peers.remove(0);
        assert(p == orig[r@.len() as int]);
        r.push(crate::kbucket::key::Key::new(p));
    }
    assert(r@.map_values(|k: crate::kbucket::key::Key| k.spec_preimage()) =~= byte_views(orig));
    r
}

/// A copy of `rec`.
pub(crate) fn copy_record(rec: &Record) -> (r: Record)
    ensures
        r@ == rec@,
{
    let publisher = match &rec.publisher {
        Some(p) => Some(copy_bytes(p)),
        None => None,
    };
    Record { key: Key::from_vec(rec.key.to_vec()), value: copy_bytes(&rec.value), publisher, expires: rec.expires }
}

/// Handles a query that finished: gives the event to report (see
/// `finished_event`), starts the query that follows it, if any (see
/// `follow_up`), and tells whether the routing table is now to be refreshed:
/// when the lookup of the local peer id `local_peer_id` finished, which
/// completes a bootstrap.
pub fn query_finished(
    queries: &mut QueryPool<QueryInfo>,
    result: QueryResult<QueryInfo>,
    local_peer_id: &Vec<u8>,
    external_addresses: Vec<Vec<u8>>,
) -> (r: (Option<KademliaEvent>, bool))
    requires
        old(queries).wf(),
        info_wf(result.inner),
    ensures
        final(queries).wf(),
        r.0 == finished_event(result.inner, result.peers),
        r.1 == (result.inner matches QueryInfo::Bootstrap { peer } && peer@ == local_peer_id@),
        match follow_up_peers(result.inner, byte_views(result.peers@)) {
            Some(backlog) => {
                &&& fixed_query_added(old(queries)@, final(queries)@, backlog)
                &&& follow_up(result.inner, local_peer_id@, external_addresses, final(queries)@.queries.last().inner)
            },
            None => final(queries)@ == old(queries)@,
        },
{
    let QueryResult { inner, peers } = result;
    match inner {
        QueryInfo::Bootstrap { peer } => {
            let refresh = same_bytes(&peer, local_peer_id);
            (Some(KademliaEvent::BootstrapResult(Ok(BootstrapOk { peer }))), refresh)
        },
        QueryInfo::GetClosestPeers { key } =>
            (Some(KademliaEvent::GetClosestPeersResult(Ok(GetClosestPeersOk { key, peers }))), false),
        QueryInfo::GetProviders { key, providers } =>
            (Some(KademliaEvent::GetProvidersResult(Ok(GetProvidersOk { key, providers, closest_peers: peers }))), false),
        QueryInfo::PrepareAddProvider { key, context } => {
            let closest_peers = peer_keys(peers);
            let provider_id = copy_bytes(local_peer_id);
            let info = QueryInfo::AddProvider { key, provider_id, external_addresses, context };
            queries.add_fixed(closest_peers, info);
            (None, false)
        },
        QueryInfo::AddProvider { key, context, .. } =>
            (Some(add_provider_result(context, Ok(AddProviderOk { key }))), false),
        QueryInfo::GetRecord { key, records, quorum, cache_at } => {
            let result = if records.len() >= quorum {
                match cache_at {
                    Some(cache_key) => {
                        let record = copy_record(&records[0]);
                        let info = QueryInfo::PutRecord {
                            record,
                            quorum: 1,
                            num_results: 0,
                            context: PutRecordContext::Cache,
                        };
                        let ghost k = cache_key;
                        let targets = vec![cache_key];
                        proof {
                            assert(targets@.map_values(|x: crate::kbucket::key::Key| x.spec_preimage())
                                =~= seq![k.spec_preimage()]);
                        }
                        queries.add_fixed(targets, info);
                    },
                    None => {},
                }
                Ok(GetRecordOk { records })
            } else if records.len() == 0 {
                Err(GetRecordError::NotFound { key, closest_peers: peers })
            } else {
                Err(GetRecordError::QuorumFailed { key, records, quorum })
            };
            (Some(KademliaEvent::GetRecordResult(result)), false)
        },
        QueryInfo::PreparePutRecord { record, quorum, context } => {
            let closest_peers = peer_keys(peers);
            let info = QueryInfo::PutRecord { record, quorum, num_results: 0, context };
            queries.add_fixed(closest_peers, info);
            (None, false)
        },
        QueryInfo::PutRecord { record, quorum, num_results, context } => {
            let result = if num_results >= quorum {
                Ok(PutRecordOk { key: record.key })
            } else {
                Err(PutRecordError::QuorumFailed { key: record.key, num_results, quorum })
            };
            (put_record_result(context, result), false)
        },
    }
}

/// `r` is the request that the query `info`, with identifier `query_id`,
/// sends to a peer: see `QueryInfo::to_request`.
pub open spec fn is_request(info: QueryInfo, query_id: QueryId, r: HandlerIn) -> bool {
    match info {
        QueryInfo::Bootstrap { peer } =>
            r matches HandlerIn::FindNodeReq { key, query_id: q } && key@ == peer@ && q == query_id,
        QueryInfo::GetClosestPeers { key: k } =>
            r matches HandlerIn::FindNodeReq { key, query_id: q } && key@ == k@ && q == query_id,
        QueryInfo::GetProviders { key: k, .. } =>
            r matches HandlerIn::GetProvidersReq { key, query_id: q } && key@ == k@ && q == query_id,
        QueryInfo::PrepareAddProvider { key: k, .. } =>
            r matches HandlerIn::FindNodeReq { key, query_id: q } && key@ == k@ && q == query_id,
        QueryInfo::AddProvider { key: k, provider_id, external_addresses, .. } =>
            r matches HandlerIn::AddProvider { key, provider, query_id: q } && key@ == k@ && q == query_id
                && provider.node_id@ == provider_id@
                && byte_views(provider.multiaddrs@) == byte_views(external_addresses@)
                && provider.connection_ty == ConnectionType::Connected,
        QueryInfo::GetRecord { key: k, .. } =>
            r matches HandlerIn::GetRecord { key, query_id: q } && key@ == k@ && q == query_id,
        QueryInfo::PreparePutRecord { record, .. } =>
            r matches HandlerIn::FindNodeReq { key, query_id: q } && key@ == record.key@ && q == query_id,
        QueryInfo::PutRecord { record: rec, .. } =>
            r matches HandlerIn::PutRecord { record, query_id: q } && record@ == rec@ && q == query_id,
    }
}

/// Whether a node answers requests of other nodes (`Server`) or only makes
/// its own (`Client`).
#[derive(Debug, Copy, Clone, PartialEq, Eq, Hash, Structural)]
pub enum Mode {
    Client,
    Server,
}

impl QueryInfo {
    /// The request to send to a peer on behalf of the query `query_id`: a
    /// lookup of the key for the lookups, the announcement of the local
    /// node as a connected provider, the record lookup, or the storing of
    /// the record.
    pub fn to_request(&self, query_id: QueryId) -> (r: HandlerIn)
        ensures
            is_request(*self, query_id, r),
    {
        match self {
            QueryInfo::Bootstrap { peer } => HandlerIn::FindNodeReq { key: copy_bytes(peer), query_id },
            QueryInfo::GetClosestPeers { key } => HandlerIn::FindNodeReq { key: copy_bytes(key), query_id },
            QueryInfo::GetProviders { key, .. } => HandlerIn::GetProvidersReq { key: Key::from_vec(key.to_vec()), query_id },
            QueryInfo::PrepareAddProvider { key, .. } => HandlerIn::FindNodeReq { key: key.to_vec(), query_id },
            QueryInfo::AddProvider { key, provider_id, external_addresses, .. } => HandlerIn::AddProvider {
                key: Key::from_vec(key.to_vec()),
                provider: KadPeer {
                    node_id: copy_bytes(provider_id),
                    multiaddrs: copy_byte_list(external_addresses),
                    connection_ty: ConnectionType::Connected,
                },
                query_id,
            },
            QueryInfo::GetRecord { key, .. } => HandlerIn::GetRecord { key: Key::from_vec(key.to_vec()), query_id },
            QueryInfo::PreparePutRecord { record, .. } => HandlerIn::FindNodeReq { key: record.key.to_vec(), query_id },
            QueryInfo::PutRecord { record, .. } => HandlerIn::PutRecord { record: copy_record(record), query_id },
        }
    }
}

/// Whether the peer `source` is closer to the record key `key` than the
/// peer with routing key `c`, under the XOR metric of their hashes.
pub open spec fn closer_to_key(source: Seq<u8>, c: crate::kbucket::key::Key, key: Seq<u8>) -> bool {
    lex_lt(
        xor_bytes(sha256_digest(source), sha256_digest(key)),
        xor_bytes(c.key_view(), sha256_digest(key)),
    )
}

/// `new` is the query `old` after the answer of `source` with `record` to
/// a record lookup, and `finish` tells whether the lookup is to finish: see
/// `QueryInfo::on_get_record_res`.
pub open spec fn get_record_step(old: QueryInfo, new: QueryInfo, source: Seq<u8>, record: Option<Record>, finish: bool) -> bool {
    match old {
        QueryInfo::GetRecord { key, records, quorum, cache_at } => match record {
            Some(rec) => {
                &&& new matches QueryInfo::GetRecord { key: k2, records: r2, quorum: q2, cache_at: c2 }
                    && k2 == key && r2@ == records@.push(rec) && q2 == quorum && c2 == cache_at
                &&& finish == (records@.len() + 1 == quorum)
            },
            None => {
                &&& !finish
                &&& if quorum == 1 && (cache_at matches Some(c) ==> closer_to_key(source, c, key@)) {
                    new matches QueryInfo::GetRecord { key: k2, records: r2, quorum: q2, cache_at: Some(c2) }
                        && k2 == key && r2 == records && q2 == quorum
                        && c2.spec_preimage() == source && c2.key_view() == sha256_digest(source)
                } else {
                    new == old
                }
            },
        },
        _ => !finish && new == old,
    }
}

impl QueryInfo {
    /// Records the answer of `source` to a record lookup: a record found
    /// joins those found, and the lookup is to finish once they are as many
    /// as the quorum; with a quorum of one, a peer without the record that
    /// is closer to the key than the one noted so far is noted, to cache
    /// the record at once the lookup succeeds. Other queries are unchanged.
    /// Tells whether the query is to finish.
    pub fn on_get_record_res(&mut self, source: &Vec<u8>, record: Option<Record>) -> (finish: bool)
        requires
            info_wf(*old(self)),
            *old(self) matches QueryInfo::GetRecord { records, .. } ==> records@.len() < usize::MAX,
        ensures
            info_wf(*final(self)),
            get_record_step(*old(self), *final(self), source@, record, finish),
    {
        match self {
            QueryInfo::GetRecord { key, records, quorum, cache_at } => {
                match record {
                    Some(rec) => {
                        records.push(rec);
                        records.len() == *quorum
                    },
                    None => {
                        if *quorum == 1 {
                            let source_key = crate::kbucket::key::Key::new(copy_bytes(source));
                            match cache_at {
                                Some(cache_key) => {
                                    let target = crate::kbucket::key::Key::new(key.to_vec());
                                    if source_key.distance(&target).lt(&cache_key.distance(&target)) {
                                        *cache_at = Some(source_key);
                                    }
                                },
                                None => {
                                    *cache_at = Some(source_key);
                                },
                            }
                        }
                        false
                    },
                }
            },
            _ => false,
        }
    }

    /// Records a successful store at a peer: the number of successes of a
    /// storing query grows by one, and the query is to finish once it
    /// reaches the quorum. Other queries are unchanged. Tells whether the
    /// query is to finish.
    pub fn on_put_record_res(&mut self) -> (finish: bool)
        requires
            info_wf(*old(self)),
            *old(self) matches QueryInfo::PutRecord { num_results, .. } ==> num_results < usize::MAX,
        ensures
            info_wf(*final(self)),
            match *old(self) {
                QueryInfo::PutRecord { record, quorum, num_results, context } => {
                    &&& *final(self) == (QueryInfo::PutRecord { record, quorum, num_results: (num_results + 1) as usize, context })
                    &&& finish == (num_results + 1 == quorum)
                },
                _ => !finish && *final(self) == *old(self),
            },
    {
        match self {
            QueryInfo::PutRecord { num_results, quorum, .. } => {
                *num_results = *num_results + 1;
                *num_results == *quorum
            },
            _ => false,
        }
    }

    /// Records the providers reported for a provider lookup: their ids join
    /// those found. Other queries are unchanged.
    pub fn on_get_providers_res(&mut self, provider_peers: Vec<KadPeer>)
        ensures
            match *old(self) {
                QueryInfo::GetProviders { key, providers } =>
                    *final(self) matches QueryInfo::GetProviders { key: k2, providers: p2 } && k2 == key
                        && byte_views(p2@) == byte_views(providers@) + provider_peers@.map_values(|p: KadPeer| p.node_id@),
                _ => *final(self) == *old(self),
            },
    {
        match self {
            QueryInfo::GetProviders { providers, .. } => {
                let ghost before = providers@;
                let mut peers = provider_peers;
                let ghost all = peers@;
                let total = peers.len();
                assert(all.len() == total);
                let mut n: usize = 0;
                while peers.len() > 0
                    invariant
                        n + peers@.len() == all.len(),
                        all.len() <= usize::MAX,
                        peers@ == all.subrange(n as int, all.len() as int),
                        byte_views(providers@) == byte_views(before) + all.take(n as int).map_values(|p: KadPeer| p.node_id@),
                    decreases peers@.len(),
                {
                    let peer = peers.remove(0);
                    assert(peer == all[n as int]);
                    let ghost mid = providers@;
                    providers.push(peer.node_id);
                    proof {
                        assert(all.take(n + 1).map_values(|p: KadPeer| p.node_id@)
                            =~= all.take(n as int).map_values(|p: KadPeer| p.node_id@).push(all[n as int].node_id@));
                        assert(byte_views(providers@) =~= byte_views(mid).push(all[n as int].node_id@));
                    }
                    n = n + 1;
                }
                proof {
                    assert(all.take(n as int) =~= all);
                }
            },
            _ => {},
        }
    }
}

/// Whether an announcement of `provider` received from `source` is
/// accepted: only a peer announcing itself is.
pub fn accepts_provider(source: &Vec<u8>, provider: &KadPeer) -> (r: bool)
    ensures
        r == (provider.node_id@ == source@),
{
    same_bytes(&provider.node_id, source)
}

} // verus!
