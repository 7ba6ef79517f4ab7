//! The state of a Kademlia node and the operations it offers: looking up
//! the closest peers, records and providers, storing records, providing
//! keys and bootstrapping. Each operation acts on the local store at once
//! and starts a query, whose outcome is reported later.

use vstd::prelude::*;
use std::time::{Duration, Instant};
use crate::addresses::{Addresses, same_bytes, byte_views};
use crate::kbucket::key::{Key as KbKey, KadKey, xor_bytes, sha256_digest};
use crate::kbucket::table::{KBucketsTable, TableView, key_model, applied_along, applied_at, Entry, all_indices};
use crate::kbucket::bucket::{KBucketView, AppliedPending, InsertResult, bucket_value, bucket_status, bucket_pending, with_value, with_pending_value, address_added, insert_post};
use crate::kbucket::weighted_iter::weighted_order;
use crate::kbucket::closest::{visit_order, BucketIndex};
use crate::kbucket::key::spec_ilog2;
use crate::kbucket::NUM_BUCKETS;
use crate::kbucket::sub_bucket::{Node, NodeStatus, node_cloned};
use crate::query::{QueryPool, QueryPoolView, QueryId, QueryPeerIterView, QueryPoolState, QueryView, view_ids, stops_at, advanced_up_to, outcome, PollOutcome, lemma_stops_at_unique};
use crate::query::peers::closest::{initial_peers, key_pairs, reported_pairs};
use crate::record::{Key, Record, RecordView, ProviderRecord, ProviderView};
use crate::record::store::memory::{MemoryStore, MemoryStoreView, provider_views};
use crate::record::store::Error;
use crate::record::copy_bytes;
use crate::time::{instant_now, instant_checked_add, instant_plus, instant_ge, instant_not_before, secs_duration, duration_secs, duration_from_secs, duration_as_secs};
use crate::handler::{HandlerIn, RequestId};
use crate::protocol::{KadPeer, ConnectionType};
use crate::query::peers::fixed::PeerState;
use super::{query_finished, query_timeout, info_wf, get_record_step, finished_event, timeout_event, follow_up, follow_up_peers, fixed_query_added, is_request, KademliaConfig, QueryInfo, KademliaEvent, Quorum, GetRecordOk, PutRecordError, AddProviderError,
    AddProviderContext, PutRecordContext, copy_record, quorum_of};

verus! {

/// The keys `seeds` are those of the routing table `table` in the order in
/// which it gives them for `target`.
pub open spec fn seeds_of(table: TableView<KbKey, Addresses>, target: Seq<u8>, seeds: Seq<KbKey>) -> bool {
    seeds.map_values(|k: KbKey| key_model(k)) == weighted_order(table, target).map_values(
        |e: (Node<KbKey, Addresses>, NodeStatus)| key_model(e.0.key),
    )
}

/// The pool `new` is `old` with one more query, last, that iterates
/// towards the peers closest to `target`, starting from `seeds`.
pub open spec fn closest_query_added(
    old: QueryPoolView<QueryInfo>,
    new: QueryPoolView<QueryInfo>,
    target: Seq<u8>,
    seeds: Seq<KbKey>,
) -> bool {
    let id = QueryId(old.next_id);
    let n = old.config.replication_factor;
    &&& new.next_id == old.next_id.wrapping_add(1)
    &&& new.config == old.config
    &&& new.queries.len() >= 1
    &&& new.queries.last().id == id
    &&& new.queries.last().started is None
    &&& (forall|i: int| 0 <= i < old.queries.len() ==> old.queries[i].id != id) ==> new.queries.drop_last() == old.queries
    &&& forall|i: int| 0 <= i < old.queries.len() && old.queries[i].id == id ==> new.queries.drop_last() == old.queries.remove(i)
    &&& new.queries.last().iter matches QueryPeerIterView::Closest(v) && {
        &&& v.config.num_results == n
        &&& v.config.parallelism == crate::ALPHA_VALUE
        &&& v.config.disjoint_paths == 1
        &&& v.target == target
        &&& v.num_waiting == 0
        &&& v.peers == initial_peers(target, key_pairs(seeds).take(
            if seeds.len() < n { seeds.len() as int } else { n as int },
        ))
    }
}

/// `new` is `old` with one more event, last.
pub open spec fn event_added(old: Seq<KademliaAction>, new: Seq<KademliaAction>) -> bool {
    &&& new.len() == old.len() + 1
    &&& new.drop_last() == old
}

/// `new` is `old` with a lookup of the records of `key` started, with the
/// record `found` locally, if any, and the quorum `quorum`.
pub open spec fn record_lookup_started(
    old: KademliaView,
    new: KademliaView,
    key: Seq<u8>,
    found: Option<RecordView>,
    quorum: int,
) -> bool {
    &&& old.lookup_started(new, sha256_digest(key))
    &&& new.queries.queries.last().inner matches QueryInfo::GetRecord { key: k, records, quorum: q, cache_at }
        && k@ == key && q == quorum && cache_at is None
        && match found {
            None => records@.len() == 0,
            Some(rv) => records@.len() == 1 && records@[0]@ == rv,
        }
    &&& new.events == old.events
}

/// `new` is `old` after a lookup of the records of `key`, with the quorum
/// `quorum`, at the instant `now`: a stored record that has expired at
/// `now` is removed and does not count; one that has not stays and counts,
/// and with a quorum of one it is the result at once, no query starting.
pub open spec fn record_fetched(old: KademliaView, new: KademliaView, key: Seq<u8>, quorum: int, now: Instant) -> bool {
    match old.store.lookup(key) {
        None => new.store == old.store && record_lookup_started(old, new, key, None, quorum),
        Some(rv) => if crate::record::expired(rv.expires, now) {
            new.store == old.store.without_record(key) && record_lookup_started(old, new, key, None, quorum)
        } else {
            new.store == old.store && if quorum == 1 {
                &&& new.queries == old.queries
                &&& new.table == old.table
                &&& event_added(old.events, new.events)
                &&& new.events.last() matches KademliaAction::GenerateEvent(KademliaEvent::GetRecordResult(Ok(ok)))
                    && ok.records@.len() == 1 && ok.records@[0]@ == rv
            } else {
                record_lookup_started(old, new, key, Some(rv), quorum)
            }
        },
    }
}

/// A stored record that has not expired when it is looked up is kept in
/// the store and counts as found: with a quorum of one it is reported at
/// once, with the store, the routing table and the queries unchanged;
/// otherwise the lookup starts with it among the records found. A stored
/// record is removed only when its expiry is not after the instant of the
/// lookup.
pub proof fn lemma_unexpired_record_kept(old: KademliaView, new: KademliaView, key: Seq<u8>, quorum: int, now: Instant)
    requires
        record_fetched(old, new, key, quorum, now),
    ensures
        ({
            let rv = old.store.lookup(key)->0;
            old.store.lookup(key) is Some && !(rv.expires is Some && instant_ge(now, rv.expires->0)) ==> {
                &&& new.store == old.store
                &&& quorum == 1 ==> {
                    &&& new.queries == old.queries
                    &&& new.table == old.table
                    &&& new.events.len() == old.events.len() + 1
                    &&& new.events.last() matches KademliaAction::GenerateEvent(KademliaEvent::GetRecordResult(Ok(ok)))
                        && ok.records@.len() == 1 && ok.records@[0]@ == rv
                }
                &&& quorum != 1 ==> (new.queries.queries.last().inner matches QueryInfo::GetRecord { records, .. }
                    && records@.len() == 1 && records@[0]@ == rv)
            }
        }),
        new.store != old.store ==> (old.store.lookup(key) is Some && old.store.lookup(key)->0.expires is Some
            && instant_ge(now, old.store.lookup(key)->0.expires->0) && new.store == old.store.without_record(key)),
{
}

/// The record `r` as the local node `local` publishes it.
pub open spec fn published(r: RecordView, local: Seq<u8>) -> RecordView {
    RecordView { publisher: Some(local), ..r }
}

/// What a node asks of the network layer around it.
#[derive(Debug)]
pub enum KademliaAction {
    /// Report an event to the user.
    GenerateEvent(KademliaEvent),
    /// Dial the peer with this id.
    DialPeer { peer_id: Vec<u8> },
    /// Hand `event` to the handler of the connection to the peer.
    SendEvent { peer_id: Vec<u8>, event: HandlerIn },
}

/// The status a peer enters the routing table with.
pub open spec fn status_for(connected: bool) -> NodeStatus {
    if connected { NodeStatus::Connected } else { NodeStatus::Disconnected }
}

/// The last of `new` is the report that the routing table now holds the
/// peer `peer` with the addresses `addrs`, evicting no other.
pub open spec fn routing_updated(new: Seq<KademliaAction>, peer: Seq<u8>, addrs: Seq<Seq<u8>>) -> bool {
    new.last() matches KademliaAction::GenerateEvent(KademliaEvent::RoutingUpdated { peer: p, addresses, old_peer })
        && p@ == peer && addresses@ == addrs && old_peer is None
}

/// `new` is `old` after the address `addr` of the peer with id `peer` was
/// added, in bucket `i` of the table `t`, in which the pending entries of
/// that bucket were applied: see `Kademlia::add_address`.
pub open spec fn address_outcome(
    old: KademliaView,
    new: KademliaView,
    t: TableView<KbKey, Addresses>,
    i: int,
    peer: Seq<u8>,
    addr: Seq<u8>,
    connected: bool,
) -> bool {
    let k = sha256_digest(peer);
    let b = t.buckets[i];
    if bucket_value(b, k) is Some {
        exists|na: Addresses, added: bool| #[trigger] address_added(bucket_value(b, k).unwrap(), na, addr, added)
            && new.table == (TableView { buckets: t.buckets.update(i, with_value(b, k, na)), ..t })
            && if added {
                event_added(old.events, new.events) && routing_updated(new.events, peer, na@)
            } else {
                new.events == old.events
            }
    } else if bucket_pending(b, k) is Some {
        exists|na: Addresses, added: bool| #[trigger] address_added(bucket_pending(b, k).unwrap().node.value, na, addr, added)
            && new.table == (TableView { buckets: t.buckets.update(i, with_pending_value(b, k, na)), ..t })
            && new.events == old.events
    } else {
        exists|e: KbKey, a: Addresses, r: InsertResult<KbKey>, now: Instant|
            #[trigger] insert_post(b, new.table.buckets[i], Node { key: e, value: a, weight: 0 }, status_for(connected), r, now)
            && e.key_view() == k && e.spec_preimage() == peer && a@ == seq![addr]
            && new.table == (TableView { buckets: t.buckets.update(i, new.table.buckets[i]), ..t })
            && match r {
                InsertResult::Inserted => event_added(old.events, new.events) && routing_updated(new.events, peer, seq![addr]),
                InsertResult::Pending { disconnected } => event_added(old.events, new.events)
                    && (new.events.last() matches KademliaAction::DialPeer { peer_id } && peer_id@ == disconnected.spec_preimage()),
                InsertResult::Full => new.events == old.events,
            }
    }
}

/// Whether the key of the peer id `c` falls into bucket `i` of a table
/// whose local key has the key bytes `local`.
pub open spec fn falls_into(local: Seq<u8>, i: int, c: Seq<u8>) -> bool {
    spec_ilog2(xor_bytes(local, sha256_digest(c))) == Some(i as u32)
}

/// The target of the refresh of bucket `i`: the first of the candidate
/// peer ids `cands` whose key falls into the bucket, else the last one.
pub open spec fn refresh_target(local: Seq<u8>, i: int, cands: Seq<Seq<u8>>) -> Seq<u8>
    decreases cands.len(),
{
    if cands.len() <= 1 || falls_into(local, i, cands[0]) {
        cands[0]
    } else {
        refresh_target(local, i, cands.drop_first())
    }
}

/// The refresh of a bucket aims into it whenever it can: where some
/// candidate's key falls into bucket `i`, the target is the first such
/// candidate (its key falls into the bucket, and no earlier candidate's
/// does); where none does, the target is the last candidate. The target is
/// always one of the candidates.
pub proof fn lemma_refresh_target_in_bucket(local: Seq<u8>, i: int, cands: Seq<Seq<u8>>)
    requires
        cands.len() >= 1,
    ensures
        cands.contains(refresh_target(local, i, cands)),
        forall|j: int| 0 <= j < cands.len() && falls_into(local, i, #[trigger] cands[j])
            && (forall|m: int| 0 <= m < j ==> !falls_into(local, i, #[trigger] cands[m]))
            ==> refresh_target(local, i, cands) == cands[j],
        (exists|j: int| 0 <= j < cands.len() && falls_into(local, i, #[trigger] cands[j]))
            ==> falls_into(local, i, refresh_target(local, i, cands)),
        (forall|j: int| 0 <= j < cands.len() ==> !falls_into(local, i, #[trigger] cands[j]))
            ==> refresh_target(local, i, cands) == cands.last(),
{
    lemma_refresh_target_contains(local, i, cands);
    assert forall|j: int| 0 <= j < cands.len() && falls_into(local, i, #[trigger] cands[j])
        && (forall|m: int| 0 <= m < j ==> !falls_into(local, i, #[trigger] cands[m]))
        implies refresh_target(local, i, cands) == cands[j] by {
        lemma_refresh_target_first(local, i, cands, j);
    }
    if exists|j: int| 0 <= j < cands.len() && falls_into(local, i, #[trigger] cands[j]) {
        lemma_refresh_target_falls(local, i, cands);
    }
    if forall|j: int| 0 <= j < cands.len() ==> !falls_into(local, i, #[trigger] cands[j]) {
        lemma_refresh_target_none(local, i, cands);
    }
}

/// The target of a refresh is one of the candidates.
proof fn lemma_refresh_target_contains(local: Seq<u8>, i: int, cands: Seq<Seq<u8>>)
    requires
        cands.len() >= 1,
    ensures
        cands.contains(refresh_target(local, i, cands)),
    decreases cands.len(),
{
    if cands.len() <= 1 || falls_into(local, i, cands[0]) {
        assert(cands[0] == refresh_target(local, i, cands));
    } else {
        let rest = cands.drop_first();
        lemma_refresh_target_contains(local, i, rest);
        let k = choose|k: int| 0 <= k < rest.len() && rest[k] == refresh_target(local, i, rest);
        assert(cands[k + 1] == rest[k]);
    }
}

/// The first candidate whose key falls into the bucket is the target.
proof fn lemma_refresh_target_first(local: Seq<u8>, i: int, cands: Seq<Seq<u8>>, j: int)
    requires
        0 <= j < cands.len(),
        falls_into(local, i, cands[j]),
        forall|m: int| 0 <= m < j ==> !falls_into(local, i, #[trigger] cands[m]),
    ensures
        refresh_target(local, i, cands) == cands[j],
    decreases j,
{
    if j > 0 {
        let rest = cands.drop_first();
        assert(!falls_into(local, i, cands[0]));
        assert forall|m: int| 0 <= m < j - 1 implies !falls_into(local, i, #[trigger] rest[m]) by {
            assert(rest[m] == cands[m + 1]);
        }
        assert(rest[j - 1] == cands[j]);
        lemma_refresh_target_first(local, i, rest, j - 1);
    }
}

/// Where some candidate's key falls into the bucket, the target's does.
proof fn lemma_refresh_target_falls(local: Seq<u8>, i: int, cands: Seq<Seq<u8>>)
    requires
        exists|j: int| 0 <= j < cands.len() && falls_into(local, i, #[trigger] cands[j]),
    ensures
        falls_into(local, i, refresh_target(local, i, cands)),
    decreases cands.len(),
{
    let j = choose|j: int| 0 <= j < cands.len() && falls_into(local, i, #[trigger] cands[j]);
    if !falls_into(local, i, cands[0]) {
        assert(j > 0);
        let rest = cands.drop_first();
        assert(rest[j - 1] == cands[j]);
        lemma_refresh_target_falls(local, i, rest);
    }
}

/// Where no candidate's key falls into the bucket, the target is the last
/// candidate.
proof fn lemma_refresh_target_none(local: Seq<u8>, i: int, cands: Seq<Seq<u8>>)
    requires
        cands.len() >= 1,
        forall|j: int| 0 <= j < cands.len() ==> !falls_into(local, i, #[trigger] cands[j]),
    ensures
        refresh_target(local, i, cands) == cands.last(),
    decreases cands.len(),
{
    if cands.len() > 1 {
        let rest = cands.drop_first();
        assert(!falls_into(local, i, cands[0]));
        assert forall|j: int| 0 <= j < rest.len() implies !falls_into(local, i, #[trigger] rest[j]) by {
            assert(rest[j] == cands[j + 1]);
        }
        lemma_refresh_target_none(local, i, rest);
        assert(rest.last() == cands.last());
    }
}

/// The lookup from `states[j]` to `states[j + 1]` of a bootstrap refresh
/// goes towards a peer id drawn for its bucket (the `j`-th after the first
/// non-empty one), and one whose key falls into that bucket whenever one
/// was drawn.
pub open spec fn step_aims(states: Seq<KademliaView>, cands: Seq<Seq<Seq<u8>>>, j: int) -> bool {
    let t = states[0].table;
    let b = first_nonempty_from(t.buckets, 0) + 1 + j;
    exists|target: Seq<u8>| {
        &&& #[trigger] bootstrap_step(states[j], states[j + 1], target)
        &&& cands[b].contains(target)
        &&& (exists|c: int| 0 <= c < cands[b].len() && falls_into(t.local(), b, #[trigger] cands[b][c]))
            ==> falls_into(t.local(), b, target)
    }
}

/// Each lookup of a bootstrap refresh (see `bootstrap_refresh`) goes
/// towards a peer id drawn for its bucket, and one whose key falls into
/// that bucket whenever one was drawn.
pub proof fn lemma_refresh_aims_into_buckets(states: Seq<KademliaView>, cands: Seq<Seq<Seq<u8>>>)
    requires
        refresh_chain(states, cands),
        cands.len() == NUM_BUCKETS,
        forall|b: int| 0 <= b < NUM_BUCKETS ==> (#[trigger] cands[b]).len() >= 1,
    ensures
        forall|j: int| 0 <= j < states.len() - 1 ==> #[trigger] step_aims(states, cands, j),
{
    let t = states[0].table;
    let f = first_nonempty_from(t.buckets, 0);
    lemma_first_nonempty_from_range(t.buckets, 0);
    assert forall|j: int| 0 <= j < states.len() - 1 implies #[trigger] step_aims(states, cands, j) by {
        let b = f + 1 + j;
        let target = refresh_target(t.local(), b, cands[b]);
        assert(states[j] == states[j] && states[j + 1] == states[j + 1]);
        assert(bootstrap_step(states[j], states[j + 1], target));
        lemma_refresh_target_in_bucket(t.local(), b, cands[b]);
    }
}

/// A bootstrap refresh looks up exactly the buckets after the one of the
/// closest neighbour: every bucket before index `f` is empty, bucket `f`
/// (if there is one) is not, and there is one lookup per bucket after it.
pub proof fn lemma_refresh_after_closest(states: Seq<KademliaView>, cands: Seq<Seq<Seq<u8>>>)
    requires
        refresh_chain(states, cands),
    ensures
        ({
            let bs = states[0].table.buckets;
            let f = first_nonempty_from(bs, 0);
            &&& 0 <= f <= NUM_BUCKETS
            &&& forall|b: int| 0 <= b < f ==> (#[trigger] bs[b]).num_entries() == 0
            &&& f < NUM_BUCKETS ==> bs[f].num_entries() > 0
            &&& states.len() - 1 == (if f < NUM_BUCKETS { NUM_BUCKETS - 1 - f } else { 0 })
        }),
{
    let bs = states[0].table.buckets;
    lemma_first_nonempty_from_range(bs, 0);
    lemma_first_nonempty_from_empty(bs, 0);
}

/// Every bucket from `i` up to the first non-empty one is empty, and that
/// one is not.
proof fn lemma_first_nonempty_from_empty(bs: Seq<KBucketView<KbKey, Addresses>>, i: int)
    requires
        0 <= i,
    ensures
        forall|b: int| i <= b < first_nonempty_from(bs, i) ==> (#[trigger] bs[b]).num_entries() == 0,
        first_nonempty_from(bs, i) < NUM_BUCKETS ==> bs[first_nonempty_from(bs, i)].num_entries() > 0,
    decreases NUM_BUCKETS - i,
{
    if i < NUM_BUCKETS && bs[i].num_entries() <= 0 {
        lemma_first_nonempty_from_empty(bs, i + 1);
        lemma_num_entries_nonneg(bs[i]);
    }
}

/// A bucket holds no fewer than zero entries.
proof fn lemma_num_entries_nonneg(b: KBucketView<KbKey, Addresses>)
    ensures
        b.num_entries() >= 0,
{
}

/// The first non-empty bucket from `i` on is at `i` or after, and at most
/// `NUM_BUCKETS`.
proof fn lemma_first_nonempty_from_range(bs: Seq<KBucketView<KbKey, Addresses>>, i: int)
    requires
        0 <= i,
    ensures
        i <= first_nonempty_from(bs, i) || i > NUM_BUCKETS,
        first_nonempty_from(bs, i) <= NUM_BUCKETS || i > NUM_BUCKETS,
        0 <= first_nonempty_from(bs, i),
    decreases NUM_BUCKETS - i,
{
    if i < NUM_BUCKETS && bs[i].num_entries() <= 0 {
        lemma_first_nonempty_from_range(bs, i + 1);
    }
}

/// The index of the first non-empty bucket of `bs` from `i` on;
/// `NUM_BUCKETS` where there is none.
pub open spec fn first_nonempty_from(bs: Seq<KBucketView<KbKey, Addresses>>, i: int) -> int
    decreases NUM_BUCKETS - i,
{
    if i >= NUM_BUCKETS {
        NUM_BUCKETS as int
    } else if bs[i].num_entries() > 0 {
        i
    } else {
        first_nonempty_from(bs, i + 1)
    }
}

/// `states` are the steps of a bootstrap refresh of the table of
/// `states[0]`: one lookup of the local node's own kind, in increasing order
/// of index, for each bucket farther than the first non-empty one, towards
/// the target chosen from the candidates of that bucket.
pub open spec fn refresh_chain(states: Seq<KademliaView>, cands: Seq<Seq<Seq<u8>>>) -> bool {
    let t = states[0].table;
    let f = first_nonempty_from(t.buckets, 0);
    &&& states.len() == (if f + 1 < NUM_BUCKETS { NUM_BUCKETS - f } else { 1 })
    &&& refresh_steps(states, cands, t.local(), f)
}

/// Each state of `states` follows from the one before by the refresh of
/// the next bucket after bucket `f`.
pub open spec fn refresh_steps(states: Seq<KademliaView>, cands: Seq<Seq<Seq<u8>>>, local: Seq<u8>, f: int) -> bool {
    forall|j: int| #![trigger states[j], states[j + 1]] 0 <= j < states.len() - 1 ==>
        bootstrap_step(states[j], states[j + 1], refresh_target(local, f + 1 + j, cands[f + 1 + j]))
}

/// `b` is `a` with a lookup towards the key of the peer id `target`
/// started, as a bootstrap of that id; the store and the events are
/// unchanged.
#[verifier::opaque]
pub open spec fn bootstrap_step(a: KademliaView, b: KademliaView, target: Seq<u8>) -> bool {
    &&& a.lookup_started(b, sha256_digest(target))
    &&& b.queries.queries.last().inner matches QueryInfo::Bootstrap { peer } && peer@ == target
    &&& b.store == a.store
    &&& b.events == a.events
}

/// The views of the candidate peer ids of each bucket.
pub open spec fn cands_view(c: Seq<Vec<Vec<u8>>>) -> Seq<Seq<Seq<u8>>> {
    c.map_values(|v: Vec<Vec<u8>>| byte_views(v@))
}

/// Picks the target of the refresh of bucket `i` from `cands`, as
/// `refresh_target` says.
fn pick_refresh_target(local: &KbKey, i: usize, cands: &Vec<Vec<u8>>) -> (r: Vec<u8>)
    requires
        cands@.len() >= 1,
        i < NUM_BUCKETS,
    ensures
        r@ == refresh_target(local.key_view(), i as int, byte_views(cands@)),
{
    let ghost all = byte_views(cands@);
    let mut j: usize = 0;
    assert(all.subrange(0, all.len() as int) =~= all);
    while j < cands.len() - 1
        invariant
            0 <= j < cands@.len(),
            i < NUM_BUCKETS,
            all == byte_views(cands@),
            refresh_target(local.key_view(), i as int, all) == refresh_target(local.key_view(), i as int, all.subrange(j as int, all.len() as int)),
        decreases cands@.len() - j,
    {
        let k = KbKey::new(copy_bytes(&cands[j]));
        let d = local.distance(&k);
        let ghost rest = all.subrange(j as int, all.len() as int);
        assert(rest[0] == cands@[j as int]@);
        match BucketIndex::new(&d) {
            Some(b) => if b.0 == i {
                return copy_bytes(&cands[j]);
            },
            None => {},
        }
        assert(k.key_view() == sha256_digest(rest[0]));
        assert(d@ == xor_bytes(local.key_view(), sha256_digest(rest[0])));
        assert(spec_ilog2(d@) != Some(i as u32));
        assert(!falls_into(local.key_view(), i as int, rest[0]));
        assert(rest.len() > 1);
        assert(rest.drop_first() =~= all.subrange(j + 1, all.len() as int));
        assert(refresh_target(local.key_view(), i as int, rest) == refresh_target(local.key_view(), i as int, rest.drop_first()));
        j += 1;
    }
    let ghost rest = all.subrange(j as int, all.len() as int);
    assert(rest.len() == 1);
    assert(rest[0] == cands@[j as int]@);
    copy_bytes(&cands[j])
}

/// The facts that `bootstrap_step` stands for.
proof fn lemma_bootstrap_step(a: KademliaView, b: KademliaView, target: Seq<u8>)
    requires
        a.lookup_started(b, sha256_digest(target)),
        b.queries.queries.last().inner matches QueryInfo::Bootstrap { peer } && peer@ == target,
        b.store == a.store,
        b.events == a.events,
    ensures
        bootstrap_step(a, b, target),
{
    reveal(bootstrap_step);
}

/// One more refresh step extends a chain of them.
proof fn lemma_refresh_push(states: Seq<KademliaView>, next: KademliaView, cands: Seq<Seq<Seq<u8>>>, local: Seq<u8>, f: int)
    requires
        states.len() >= 1,
        refresh_steps(states, cands, local, f),
        bootstrap_step(states.last(), next, refresh_target(local, f + states.len(), cands[f + states.len()])),
    ensures
        refresh_steps(states.push(next), cands, local, f),
{
    let n = states.push(next);
    assert forall|j: int| #![trigger n[j], n[j + 1]] 0 <= j < n.len() - 1 implies
        bootstrap_step(n[j], n[j + 1], refresh_target(local, f + 1 + j, cands[f + 1 + j])) by {
        if j < states.len() - 1 {
            assert(n[j] == states[j] && n[j + 1] == states[j + 1]);
        }
    }
}

/// The table `new` is `old` with the pending entries of every bucket whose
/// time has come applied, bucket by bucket in increasing order of index.
#[verifier::opaque]
pub open spec fn all_applied(old: TableView<KbKey, Addresses>, new: TableView<KbKey, Addresses>) -> bool {
    applied_along(old, new, all_indices(NUM_BUCKETS as int))
}

/// What one step of polling a node gives.
#[derive(Debug)]
pub enum PollStep {
    /// An action to take.
    Ready(KademliaAction),
    /// The lookup of the local node's own id finished, with this event:
    /// the buckets are now to be refreshed (`Kademlia::bootstrap_refresh`,
    /// with peer ids drawn at random), and then the event reported.
    Refresh(KademliaEvent),
    /// A query made progress; poll again.
    Continue,
    /// Nothing to do until something happens outside.
    Pending,
}

/// The report of the applied pending entry `a`: the inserted peer with its
/// addresses, and the evicted peer, if any.
pub open spec fn applied_report(a: AppliedPending<KbKey, Addresses>, r: KademliaAction) -> bool {
    r matches KademliaAction::GenerateEvent(KademliaEvent::RoutingUpdated { peer, addresses, old_peer })
        && peer@ == a.inserted.key.spec_preimage()
        && addresses == a.inserted.value
        && match a.evicted {
            Some(e) => old_peer matches Some(p) && p@ == e.key.spec_preimage(),
            None => old_peer is None,
        }
}

/// Whether `peer` is among `peers`.
fn has_peer(peers: &Vec<Vec<u8>>, peer: &Vec<u8>) -> (r: bool)
    ensures
        r == byte_views(peers@).contains(peer@),
{
    let mut i: usize = 0;
    while i < peers.len()
        invariant
            0 <= i <= peers@.len(),
            forall|j: int| 0 <= j < i ==> peers@[j]@ != peer@,
        decreases peers@.len() - i,
    {
        if same_bytes(&peers[i], peer) {
            assert(byte_views(peers@)[i as int] == peer@);
            return true;
        }
        i += 1;
    }
    assert forall|j: int| 0 <= j < byte_views(peers@).len() implies byte_views(peers@)[j] != peer@ by {
        assert(byte_views(peers@)[j] == peers@[j]@);
    }
    false
}

/// Whether the quorums of `info` are at least one.
fn info_ok(info: &QueryInfo) -> (r: bool)
    ensures
        r == info_wf(*info),
{
    match info {
        QueryInfo::PreparePutRecord { quorum, .. } => *quorum >= 1,
        QueryInfo::PutRecord { quorum, .. } => *quorum >= 1,
        QueryInfo::GetRecord { quorum, .. } => *quorum >= 1,
        _ => true,
    }
}

/// Whether `info` prepares the caching of a record, which no lookup does.
fn prepares_cache(info: &QueryInfo) -> (r: bool)
    ensures
        r == (*info matches QueryInfo::PreparePutRecord { context, .. } && context == PutRecordContext::Cache),
{
    match info {
        QueryInfo::PreparePutRecord { context, .. } => match context {
            PutRecordContext::Cache => true,
            _ => false,
        },
        _ => false,
    }
}

/// How a peer in the routing table with `status` is reported to others.
pub open spec fn connection_of(status: NodeStatus) -> ConnectionType {
    match status {
        NodeStatus::Connected => ConnectionType::Connected,
        NodeStatus::Disconnected => ConnectionType::NotConnected,
    }
}

/// The peer ids of the entries `es`, each with how it is connected.
pub open spec fn reported(es: Seq<(Node<KbKey, Addresses>, NodeStatus)>) -> Seq<(Seq<u8>, ConnectionType)> {
    es.map_values(|e: (Node<KbKey, Addresses>, NodeStatus)| (e.0.key.spec_preimage(), connection_of(e.1)))
}

/// A reported peer other than `source`.
pub open spec fn not_from(source: Seq<u8>) -> spec_fn((Seq<u8>, ConnectionType)) -> bool {
    |p: (Seq<u8>, ConnectionType)| p.0 != source
}

/// The reported peers other than `source`.
pub open spec fn reported_except(es: Seq<(Node<KbKey, Addresses>, NodeStatus)>, source: Seq<u8>) -> Seq<(Seq<u8>, ConnectionType)> {
    reported(es).filter(not_from(source))
}

/// The id and the connection of the peer `p`.
pub open spec fn peer_model(p: KadPeer) -> (Seq<u8>, ConnectionType) {
    (p.node_id@, p.connection_ty)
}

/// The first `n` of `s`, or all of `s` where it is shorter.
pub open spec fn first_n<A>(s: Seq<A>, n: int) -> Seq<A> {
    if s.len() <= n { s } else { s.take(n) }
}

/// A peer other than the local node `local`.
pub open spec fn not_local(local: Seq<u8>) -> spec_fn(KadPeer) -> bool {
    |p: KadPeer| p.node_id@ != local
}

/// `a` reports the discovery of the peer `p`, with its addresses and how
/// the sender is connected to it.
pub open spec fn discovery_of(a: KademliaAction, p: KadPeer) -> bool {
    match a {
        KademliaAction::GenerateEvent(KademliaEvent::Discovered { peer_id, addresses, ty }) =>
            peer_id@ == p.node_id@ && byte_views(addresses@) == byte_views(p.multiaddrs@) && ty == p.connection_ty,
        _ => false,
    }
}

/// The pool `new` is `old` after the query `id`, if there is one, heard
/// from `peer` with the peers `found` (as a lookup does) or with success
/// (as a fixed query does).
pub open spec fn query_succeeded(old: QueryPoolView<QueryInfo>, new: QueryPoolView<QueryInfo>, id: QueryId, peer: Seq<u8>, found: Seq<Vec<u8>>) -> bool {
    &&& new.next_id == old.next_id
    &&& new.config == old.config
    &&& new.queries.len() == old.queries.len()
    &&& forall|i: int| 0 <= i < old.queries.len() ==> #[trigger] new.queries[i] == if old.queries[i].id == id {
        QueryView {
            iter: match old.queries[i].iter {
                QueryPeerIterView::Closest(v) => QueryPeerIterView::Closest(v.after_success(peer, reported_pairs(found))),
                QueryPeerIterView::Fixed(v) => QueryPeerIterView::Fixed(v.after_result(peer, PeerState::Succeeded)),
            },
            ..old.queries[i]
        }
    } else {
        old.queries[i]
    }
}

/// The instant `ttl` after `now`, if there is a time to live and the
/// instant can be represented.
pub open spec fn expiry_after(ttl: Option<Duration>, now: Instant) -> Option<Instant> {
    match ttl {
        Some(t) => instant_plus(now, t),
        None => None,
    }
}

/// The seconds of a time to live of `secs` seconds for a record that
/// `beyond` nodes beyond the replication factor separate from its key:
/// halved once per such node (zero from the 64th on).
pub open spec fn scaled_secs(secs: u64, beyond: nat) -> u64 {
    if beyond >= 64 { 0 } else { secs >> (beyond as u64) }
}

/// The more nodes separate a record from its key, the shorter its time to
/// live.
pub proof fn lemma_scaled_secs_shrinks(secs: u64, a: nat, b: nat)
    requires
        a <= b,
    ensures
        scaled_secs(secs, b) <= scaled_secs(secs, a),
{
    if b < 64 {
        let x = a as u64;
        let y = b as u64;
        assert(x <= y && y < 64 ==> secs >> y <= secs >> x) by (bit_vector);
    }
}

/// The number of nodes beyond the replication factor `k` among `between`.
pub open spec fn beyond_k(between: int, k: int) -> nat {
    if between > k { (between - k) as nat } else { 0 }
}

/// The expiry of a record received with the expiry `rec`, where the local
/// time to live gives `local`: the earlier of the two, none where either is
/// missing once `rec` falls back on `local`.
pub open spec fn received_expiry(rec: Option<Instant>, local: Option<Instant>) -> Option<Instant> {
    let x = match rec {
        Some(e) => Some(e),
        None => local,
    };
    match x {
        Some(a) => match local {
            Some(b) => if instant_ge(a, b) { Some(b) } else { Some(a) },
            None => None,
        },
        None => None,
    }
}

/// The expiry that the local node gives, at `now`, to a record with key
/// `key` received from elsewhere: its time to live `ttl` scaled down by the
/// number of nodes of the table `t` beyond the replication factor `k`
/// between the local node and the key; none without a time to live, or
/// where the instant cannot be represented.
pub open spec fn local_expiry(t: TableView<KbKey, Addresses>, k: int, ttl: Option<Duration>, key: Seq<u8>, now: Instant) -> Option<Instant> {
    match ttl {
        Some(d) => instant_plus(now, secs_duration(scaled_secs(
            duration_secs(d),
            beyond_k(crate::kbucket::table::count_between(t, sha256_digest(key)), k),
        ))),
        None => None,
    }
}

/// The record of `k` in the store `st` that has not expired at `now`.
pub open spec fn live_record(st: MemoryStoreView, k: Seq<u8>, now: Instant) -> Option<RecordView> {
    match st.lookup(k) {
        Some(rv) => if crate::record::expired(rv.expires, now) { None } else { Some(rv) },
        None => None,
    }
}

/// `a` answers `source`'s request `request_id` for the record of `key`:
/// with the record `found` if there is one and no peers; otherwise with no
/// record and the peers `closer`, which `find_closest` gave for the key
/// on the table from `old` to `new`.
pub open spec fn record_answer(
    a: KademliaAction,
    source: Seq<u8>,
    request_id: RequestId,
    found: Option<RecordView>,
    old: TableView<KbKey, Addresses>,
    new: TableView<KbKey, Addresses>,
    key: Seq<u8>,
    k: int,
) -> bool {
    match a {
        KademliaAction::SendEvent { peer_id, event } => peer_id@ == source && match event {
            HandlerIn::GetRecordRes { record, closer_peers, request_id: rid } => rid == request_id && match found {
                Some(rv) => record matches Some(r) && r@ == rv && closer_peers@.len() == 0 && new == old,
                None => record is None && if sha256_digest(key) == old.local() {
                    closer_peers@.len() == 0 && new == old
                } else {
                    &&& applied_along(old, new, visit_order(xor_bytes(old.local(), sha256_digest(key))))
                    &&& closer_peers@.map_values(|p: KadPeer| peer_model(p)) == first_n(
                        reported_except(crate::kbucket::table::closest_entries(new, sha256_digest(key)), source),
                        k,
                    )
                },
            },
            _ => false,
        },
        _ => false,
    }
}

/// The information of a query after one more peer stored its record: the
/// count of a storing query grows by one (where it can).
pub open spec fn put_counted(info: QueryInfo) -> QueryInfo {
    match info {
        QueryInfo::PutRecord { record, quorum, num_results, context } => if quorum >= 1 && num_results < usize::MAX {
            QueryInfo::PutRecord { record, quorum, num_results: (num_results + 1) as usize, context }
        } else {
            info
        },
        _ => info,
    }
}

/// Whether one more stored record brings the storing query `info` to its
/// quorum.
pub open spec fn put_reaches_quorum(info: QueryInfo) -> bool {
    info matches QueryInfo::PutRecord { quorum, num_results, .. } && quorum >= 1 && num_results < usize::MAX
        && num_results + 1 == quorum
}

/// `new` is `old` after the peers `peers` that `source` gave in answer to
/// a request of the query `id` were taken in: each one other than the local
/// node reported as discovered, in order, and the query, if it is still
/// there, told of them.
pub open spec fn discovered_from(old: KademliaView, new: KademliaView, source: Seq<u8>, peers: Seq<KadPeer>, id: QueryId) -> bool {
    let os = peers.filter(not_local(old.local_id()));
    &&& new.store == old.store
    &&& new.table == old.table
    &&& new.record_ttl == old.record_ttl
    &&& new.provider_record_ttl == old.provider_record_ttl
    &&& new.events.len() == old.events.len() + os.len()
    &&& new.events.take(old.events.len() as int) == old.events
    &&& forall|i: int| 0 <= i < os.len() ==> discovery_of(#[trigger] new.events[old.events.len() + i], os[i])
    &&& exists|found: Seq<Vec<u8>>| byte_views(found) == os.map_values(|p: KadPeer| p.node_id@)
        && #[trigger] query_succeeded(old.queries, new.queries, id, source, found)
}

/// `a` and `b` are the same peer, with the same addresses and connection.
pub open spec fn same_peer(a: KadPeer, b: KadPeer) -> bool {
    &&& a.node_id@ == b.node_id@
    &&& byte_views(a.multiaddrs@) == byte_views(b.multiaddrs@)
    &&& a.connection_ty == b.connection_ty
}

/// A copy of the peer `p`.
fn copy_peer(p: &KadPeer) -> (r: KadPeer)
    ensures
        same_peer(r, *p),
{
    KadPeer { node_id: copy_bytes(&p.node_id), multiaddrs: copy_addrs(&p.multiaddrs), connection_ty: p.connection_ty }
}

/// `new` is `old` after the record `record` that `source` asked to store
/// with the request `request_id` was taken in at `now`: stored with the
/// expiry of `received_expiry` and acknowledged, or the request reset where
/// the store refuses it.
pub open spec fn put_received(old: KademliaView, new: KademliaView, source: Seq<u8>, record: Record, request_id: RequestId, now: Instant) -> bool {
    let local = local_expiry(old.table, old.queries.config.replication_factor as int, old.record_ttl, record.key@, now);
    let stored = RecordView { expires: received_expiry(record.expires, local), ..record@ };
    match old.store.put_outcome(stored) {
        Ok(_) => {
            &&& new.store == old.store.with_record(stored)
            &&& put_acknowledged(new.events.last(), source, record.key@, record.value@, request_id)
        },
        Err(_) => {
            &&& new.store == old.store
            &&& new.events.last() matches KademliaAction::SendEvent { peer_id, event }
                && peer_id@ == source && event == HandlerIn::Reset(request_id)
        },
    }
}

/// The local expiry of a received record is the instant of the call plus
/// the time to live's whole seconds divided by two to the power of the
/// number of nodes beyond the replication factor `k` between the local
/// node and the record's key (nothing from the 64th such node on); no
/// expiry without a time to live.
pub proof fn lemma_local_expiry_halves(t: TableView<KbKey, Addresses>, k: int, ttl: Option<Duration>, key: Seq<u8>, now: Instant)
    ensures
        ({
            let between = crate::kbucket::table::count_between(t, sha256_digest(key));
            let beyond: nat = if between > k { (between - k) as nat } else { 0 };
            match ttl {
                None => local_expiry(t, k, ttl, key, now) is None,
                Some(d) => local_expiry(t, k, ttl, key, now) == instant_plus(now, secs_duration(
                    if beyond >= 64 { 0u64 } else { (duration_secs(d) as nat / vstd::arithmetic::power2::pow2(beyond)) as u64 },
                )),
            }
        }),
{
    let between = crate::kbucket::table::count_between(t, sha256_digest(key));
    let beyond: nat = if between > k { (between - k) as nat } else { 0 };
    if ttl is Some && beyond < 64 {
        let secs = duration_secs(ttl->0);
        vstd::bits::lemma_u64_shr_is_div(secs, beyond as u64);
    }
}

/// `x` and `y` are compared by `instant_ge` as by a total order, as std's
/// `Ord` for `Instant` compares them: each is not before itself, and one of
/// them is not before the other.
pub open spec fn ordered_pair(x: Instant, y: Instant) -> bool {
    &&& instant_ge(x, x)
    &&& instant_ge(y, y)
    &&& (instant_ge(x, y) || instant_ge(y, x))
}

/// A record received from another peer is never kept longer than its
/// publisher or the local time to live allows. When the store accepts it,
/// it holds the record with an expiry that is not after the record's own
/// one and not after the local one (the time to live, scaled by distance,
/// from the instant of the call), where both are set; the local one where
/// the record has none; and none where there is no local one.
pub proof fn lemma_received_expiry_earliest(
    old: KademliaView,
    new: KademliaView,
    source: Seq<u8>,
    record: Record,
    request_id: RequestId,
    now: Instant,
)
    requires
        put_received(old, new, source, record, request_id, now),
        ({
            let local = local_expiry(old.table, old.queries.config.replication_factor as int, old.record_ttl, record.key@, now);
            record.expires is Some && local is Some ==> ordered_pair(record.expires->0, local->0)
        }),
    ensures
        ({
            let local = local_expiry(old.table, old.queries.config.replication_factor as int, old.record_ttl, record.key@, now);
            old.store.put_outcome(record@) is Ok ==> (new.store.lookup(record.key@) matches Some(rv) && {
                &&& rv.key == record.key@
                &&& rv.value == record.value@
                &&& rv.publisher == record@.publisher
                &&& (record.expires is Some && local is Some) ==> (rv.expires is Some
                    && instant_ge(record.expires->0, rv.expires->0) && instant_ge(local->0, rv.expires->0))
                &&& (record.expires is None && local is Some) ==> rv.expires == local
                &&& local is None ==> rv.expires is None
            })
        }),
{
    let local = local_expiry(old.table, old.queries.config.replication_factor as int, old.record_ttl, record.key@, now);
    let stored = RecordView { expires: received_expiry(record.expires, local), ..record@ };
    assert(old.store.put_outcome(stored) == old.store.put_outcome(record@));
    if old.store.put_outcome(record@) is Ok {
        assert(new.store == old.store.with_record(stored));
        assert(new.store.records.contains_key(record.key@));
        assert(new.store.lookup(record.key@) == Some(stored));
    }
}

/// `a` acknowledges to `source` the storing of a record with key `key`
/// and value `value`, asked for by the request `request_id`.
pub open spec fn put_acknowledged(a: KademliaAction, source: Seq<u8>, key: Seq<u8>, value: Seq<u8>, request_id: RequestId) -> bool {
    match a {
        KademliaAction::SendEvent { peer_id, event } => peer_id@ == source && match event {
            HandlerIn::PutRecordRes { key: k, value: v, request_id: rid } => k@ == key && v@ == value && rid == request_id,
            _ => false,
        },
        _ => false,
    }
}

/// A copy of the addresses `v`.
fn copy_addrs(v: &Vec<Vec<u8>>) -> (r: Vec<Vec<u8>>)
    ensures
        byte_views(r@) == byte_views(v@),
{
    let mut r: Vec<Vec<u8>> = Vec::new();
    let mut a: usize = 0;
    while a < v.len()
        invariant
            0 <= a <= v@.len(),
            byte_views(r@) == byte_views(v@).take(a as int),
        decreases v@.len() - a,
    {
        let ghost br = r@;
        r.push(copy_bytes(&v[a]));
        proof {
            assert(r@ =~= br.push(r@.last()));
            assert(byte_views(v@).take(a + 1) =~= byte_views(v@).take(a as int).push(v@[a as int]@));
        }
        a += 1;
    }
    assert(byte_views(v@).take(v@.len() as int) =~= byte_views(v@));
    r
}

/// The report that the peer `p` was discovered.
fn discovery(p: &KadPeer) -> (r: KademliaAction)
    ensures
        discovery_of(r, *p),
{
    KademliaAction::GenerateEvent(KademliaEvent::Discovered {
        peer_id: copy_bytes(&p.node_id),
        addresses: copy_addrs(&p.multiaddrs),
        ty: p.connection_ty,
    })
}

/// `r` is what a finished query with information `info`, whose
/// successful peers are `peers`, gives a node with id `local`: its event,
/// or first the bucket refresh for a lookup of the local id; nothing more
/// to report otherwise.
pub open spec fn finished_step(info: QueryInfo, peers: Vec<Vec<u8>>, local: Seq<u8>, r: PollStep) -> bool {
    match finished_event(info, peers) {
        Some(e) => if info matches QueryInfo::Bootstrap { peer } && peer@ == local {
            r == PollStep::Refresh(e)
        } else {
            r == PollStep::Ready(KademliaAction::GenerateEvent(e))
        },
        None => r is Continue,
    }
}

/// `new` is `old` after the queries were polled at `now`, with the peers
/// `connected` connected, and `r` is what the step gives: see
/// `QueryPool::poll`. The query where polling stops decides: one asking for
/// a request queues it for the peer if it is connected, or a dial of the
/// peer unless it is the local node (and an announcement of the local
/// node as a provider counts as answered at once); a finished one gives
/// its event and starts the query that follows it; a timed-out one gives
/// its event. A finished query whose quorum is zero, or a timed-out one
/// that prepares a cache (neither occurs), gives nothing.
pub open spec fn polled(old: KademliaView, new: KademliaView, connected: Seq<Seq<u8>>, now: Instant, r: PollStep) -> bool {
    let qs = old.queries.queries;
    let to = old.queries.config.timeout;
    exists|k: int| #[trigger] stops_at(qs, now, to, k) && {
        let a = advanced_up_to(qs, k, now);
        let pool_a = QueryPoolView { queries: a, ..old.queries };
        let pool_r = QueryPoolView { queries: a.remove(k), ..old.queries };
        if k == qs.len() {
            r is Pending && new.queries == pool_a && new.events == old.events
        } else {
            match outcome(qs[k], now, to) {
                PollOutcome::Peer(p) => {
                    &&& r is Continue
                    &&& a[k].inner is AddProvider ==> query_succeeded(pool_a, new.queries, a[k].id, p, Seq::empty())
                    &&& !(a[k].inner is AddProvider) ==> new.queries == pool_a
                    &&& if connected.contains(p) {
                        event_added(old.events, new.events) && match new.events.last() {
                            KademliaAction::SendEvent { peer_id, event } => peer_id@ == p && is_request(a[k].inner, a[k].id, event),
                            _ => false,
                        }
                    } else if p != old.local_id() {
                        event_added(old.events, new.events) && match new.events.last() {
                            KademliaAction::DialPeer { peer_id } => peer_id@ == p,
                            _ => false,
                        }
                    } else {
                        new.events == old.events
                    }
                },
                PollOutcome::Finished => {
                    &&& new.events == old.events
                    &&& if !info_wf(a[k].inner) {
                        r is Continue && new.queries == pool_r
                    } else {
                        exists|peers: Vec<Vec<u8>>| #[trigger] byte_views(peers@) == a[k].iter.result()
                            && finished_step(a[k].inner, peers, old.local_id(), r)
                            && match follow_up_peers(a[k].inner, a[k].iter.result()) {
                                Some(backlog) => fixed_query_added(pool_r, new.queries, backlog)
                                    && exists|ext: Vec<Vec<u8>>| ext@.len() == 0
                                        && #[trigger] follow_up(a[k].inner, old.local_id(), ext, new.queries.queries.last().inner),
                                None => new.queries == pool_r,
                            }
                    }
                },
                PollOutcome::TimedOut => {
                    &&& new.events == old.events
                    &&& new.queries == pool_r
                    &&& if a[k].inner matches QueryInfo::PreparePutRecord { context, .. } && context == PutRecordContext::Cache {
                        r is Continue
                    } else {
                        exists|peers: Vec<Vec<u8>>| #[trigger] byte_views(peers@) == a[k].iter.result()
                            && r == match timeout_event(a[k].inner, peers) {
                                Some(e) => PollStep::Ready(KademliaAction::GenerateEvent(e)),
                                None => PollStep::Continue,
                            }
                    }
                },
                PollOutcome::Continue => false,
            }
        }
    }
}

/// The entries of the first `n` buckets of `bs`, bucket by bucket.
pub open spec fn entries_upto(bs: Seq<KBucketView<KbKey, Addresses>>, n: int) -> Seq<(Node<KbKey, Addresses>, NodeStatus)>
    decreases n,
{
    if n <= 0 {
        Seq::empty()
    } else {
        entries_upto(bs, n - 1) + bs[n - 1].entries()
    }
}

/// A peer as it is reported: its id, its addresses and how the sender is
/// connected to it.
pub open spec fn peer_full(p: KadPeer) -> (Seq<u8>, Seq<Seq<u8>>, ConnectionType) {
    (p.node_id@, byte_views(p.multiaddrs@), p.connection_ty)
}

/// What looking up the provider of the record `p`, for an answer to
/// `source`, does to the table `t` (giving `t2`), and the peer it gives, if
/// any: nothing for the source itself or the local node; otherwise the
/// pending entries of the provider's bucket are applied, and the provider
/// is given with its addresses and connection if the table holds it.
pub open spec fn provider_lookup(
    t: TableView<KbKey, Addresses>,
    t2: TableView<KbKey, Addresses>,
    p: ProviderView,
    source: Seq<u8>,
    found: Option<(Seq<u8>, Seq<Seq<u8>>, ConnectionType)>,
) -> bool {
    let k = sha256_digest(p.provider);
    if p.provider == source {
        t2 == t && found is None
    } else {
        match t.index_of(k) {
            None => t2 == t && found is None,
            Some(i) => applied_at(t, t2, i as int) && match bucket_value(t2.buckets[i as int], k) {
                Some(a) => found == Some((p.provider, a@, connection_of(bucket_status(t2.buckets[i as int], k).unwrap()))),
                None => found is None,
            },
        }
    }
}

/// The peers that the lookups `fs` gave, in order.
pub open spec fn found_peers(fs: Seq<Option<(Seq<u8>, Seq<Seq<u8>>, ConnectionType)>>) -> Seq<(Seq<u8>, Seq<Seq<u8>>, ConnectionType)>
    decreases fs.len(),
{
    if fs.len() == 0 {
        Seq::empty()
    } else {
        found_peers(fs.drop_last()) + match fs.last() {
            Some(x) => seq![x],
            None => Seq::empty(),
        }
    }
}

/// The lookups of the providers `ps` for an answer to `source` take the
/// tables `ts` in turn, giving `fs`: in order, until `k` peers are found
/// or the providers run out.
pub open spec fn providers_answered(
    ts: Seq<TableView<KbKey, Addresses>>,
    fs: Seq<Option<(Seq<u8>, Seq<Seq<u8>>, ConnectionType)>>,
    ps: Seq<ProviderView>,
    source: Seq<u8>,
    k: int,
) -> bool {
    &&& ts.len() == fs.len() + 1
    &&& fs.len() <= ps.len()
    &&& forall|j: int| 0 <= j < fs.len() ==> #[trigger] provider_lookup(ts[j], ts[j + 1], ps[j], source, fs[j])
    &&& found_peers(fs).len() <= k
    &&& fs.len() < ps.len() ==> found_peers(fs).len() == k
}

/// An answer with the closest peers never names the peer it goes to,
/// holds at most `k` peers (and `k` of them where the entries hold that many
/// other peers), each one an entry of `es` with its connection, in the
/// order of `es`.
pub proof fn lemma_closest_answer(es: Seq<(Node<KbKey, Addresses>, NodeStatus)>, source: Seq<u8>, k: int)
    requires
        k >= 0,
    ensures
        ({
            let r = first_n(reported_except(es, source), k);
            &&& r.len() <= k
            &&& forall|j: int| 0 <= j < r.len() ==> (#[trigger] r[j]).0 != source
            &&& forall|j: int| 0 <= j < r.len() ==> reported(es).contains(#[trigger] r[j])
            &&& r.len() < k ==> forall|e: int| 0 <= e < es.len() && es[e].0.key.spec_preimage() != source
                ==> r.contains(#[trigger] reported(es)[e])
        }),
{
    let m = reported(es);
    let f = m.filter(not_from(source));
    m.lemma_filter_len(not_from(source));
    let r = first_n(f, k);
    assert forall|j: int| 0 <= j < r.len() implies (#[trigger] r[j]).0 != source && m.contains(r[j]) by {
        assert(r[j] == f[j]);
        m.lemma_filter_pred(not_from(source), j);
        assert(f.contains(f[j]));
        m.lemma_filter_contains_rev(not_from(source), f[j]);
    }
    if r.len() < k {
        assert(r == f);
        assert forall|e: int| 0 <= e < es.len() && es[e].0.key.spec_preimage() != source implies r.contains(#[trigger] reported(es)[e]) by {
            assert(m[e] == (es[e].0.key.spec_preimage(), connection_of(es[e].1)));
            m.lemma_filter_contains(not_from(source), e);
        }
    }
}

/// The providers given in an answer are never the peer asking, and at
/// most `k` of them.
pub proof fn lemma_providers_answer(
    ts: Seq<TableView<KbKey, Addresses>>,
    fs: Seq<Option<(Seq<u8>, Seq<Seq<u8>>, ConnectionType)>>,
    ps: Seq<ProviderView>,
    source: Seq<u8>,
    k: int,
)
    requires
        providers_answered(ts, fs, ps, source, k),
    ensures
        found_peers(fs).len() <= k,
        forall|j: int| 0 <= j < found_peers(fs).len() ==> (#[trigger] found_peers(fs)[j]).0 != source,
{
    lemma_found_peers_from(ts, fs, ps, source, fs.len() as int);
    assert(fs.subrange(0, fs.len() as int) =~= fs);
}

/// Each peer found in the first `n` lookups is a provider other than the
/// source.
proof fn lemma_found_peers_from(
    ts: Seq<TableView<KbKey, Addresses>>,
    fs: Seq<Option<(Seq<u8>, Seq<Seq<u8>>, ConnectionType)>>,
    ps: Seq<ProviderView>,
    source: Seq<u8>,
    n: int,
)
    requires
        ts.len() == fs.len() + 1,
        0 <= n <= fs.len(),
        forall|j: int| 0 <= j < fs.len() ==> #[trigger] provider_lookup(ts[j], ts[j + 1], ps[j], source, fs[j]),
    ensures
        forall|j: int| 0 <= j < found_peers(fs.subrange(0, n)).len() ==> (#[trigger] found_peers(fs.subrange(0, n))[j]).0 != source,
    decreases n,
{
    if n > 0 {
        lemma_found_peers_from(ts, fs, ps, source, n - 1);
        let s = fs.subrange(0, n);
        assert(s.drop_last() =~= fs.subrange(0, n - 1));
        let j = n - 1;
        assert(provider_lookup(ts[j], ts[j + 1], ps[j], source, fs[j]));
        let a = found_peers(s.drop_last());
        let tail: Seq<(Seq<u8>, Seq<Seq<u8>>, ConnectionType)> = match s.last() {
            Some(x) => seq![x],
            None => Seq::empty(),
        };
        assert(found_peers(s) == a + tail);
        assert(s.last() == fs[j]);
        assert forall|q: int| 0 <= q < found_peers(s).len() implies (#[trigger] found_peers(s)[q]).0 != source by {
            if q < a.len() {
                assert(found_peers(s)[q] == a[q]);
            } else {
                assert(found_peers(s)[q] == tail[q - a.len()]);
            }
        }
    }
}

/// What a node holds.
pub struct KademliaView {
    pub store: MemoryStoreView,
    pub table: TableView<KbKey, Addresses>,
    pub queries: QueryPoolView<QueryInfo>,
    /// The actions not yet taken, oldest first.
    pub events: Seq<KademliaAction>,
    pub record_ttl: Option<Duration>,
    pub provider_record_ttl: Option<Duration>,
}

impl KademliaView {
    /// The id of the local node.
    pub open spec fn local_id(self) -> Seq<u8> {
        self.table.local_key.spec_preimage()
    }

    /// `new` is `self` with a lookup towards `target` started: the routing
    /// table applied its pending entries along the way, and the lookup
    /// starts from the keys that the table gives for `target`. The store
    /// and the events are unchanged.
    pub open spec fn lookup_started(self, new: KademliaView, target: Seq<u8>) -> bool {
        &&& applied_along(self.table, new.table, visit_order(xor_bytes(self.table.local(), target)))
        &&& new.table.wf()
        &&& exists|seeds: Seq<KbKey>| seeds_of(new.table, target, seeds) && closest_query_added(self.queries, new.queries, target, seeds)
        &&& new.record_ttl == self.record_ttl
        &&& new.provider_record_ttl == self.provider_record_ttl
    }
}

/// A Kademlia node: its routing table, its local store, its queries, and
/// the events it has to report.
pub struct Kademlia {
    store: MemoryStore,
    kbuckets: KBucketsTable<KbKey, Addresses>,
    queries: QueryPool<QueryInfo>,
    queued_events: Vec<KademliaAction>,
    record_ttl: Option<Duration>,
    provider_record_ttl: Option<Duration>,
}

impl View for Kademlia {
    type V = KademliaView;

    closed spec fn view(&self) -> KademliaView {
        KademliaView {
            store: self.store@,
            table: self.kbuckets@,
            queries: self.queries@,
            events: self.queued_events@,
            record_ttl: self.record_ttl,
            provider_record_ttl: self.provider_record_ttl,
        }
    }
}

impl Kademlia {
    /// The store, the routing table and the queries keep their invariants.
    pub closed spec fn wf(&self) -> bool {
        &&& self.store.wf()
        &&& self.kbuckets@.wf()
        &&& self.queries.wf()
        &&& self.queries@.config.replication_factor >= 1
    }

    /// A node with the id `id`, the store `store` and the configuration
    /// `config`: an empty routing table, no query and no event.
    pub fn with_config(id: Vec<u8>, store: MemoryStore, config: KademliaConfig) -> (r: Self)
        requires
            store.wf(),
            config@.query_config.replication_factor >= 1,
        ensures
            r.wf(),
            r@.local_id() == id@,
            r@.store == store@,
            r@.table.applied.len() == 0,
            forall|i: int| 0 <= i < crate::kbucket::NUM_BUCKETS ==> (#[trigger] r@.table.buckets[i]).entries().len() == 0,
            r@.queries.next_id == 0,
            r@.queries.config == config@.query_config,
            r@.queries.queries.len() == 0,
            r@.events.len() == 0,
            r@.record_ttl == config@.record_ttl,
            r@.provider_record_ttl == config@.provider_record_ttl,
    {
        let local_key = KbKey::new(id);
        let r = Kademlia {
            store,
            kbuckets: KBucketsTable::new(local_key, config.kbucket_pending_timeout),
            queries: QueryPool::new(config.query_config),
            queued_events: Vec::new(),
            record_ttl: config.record_ttl,
            provider_record_ttl: config.provider_record_ttl,
        };
        r
    }

    /// A node with the id `id`, the store `store` and the default
    /// configuration.
    pub fn new(id: Vec<u8>, store: MemoryStore) -> (r: Self)
        requires
            store.wf(),
        ensures
            r.wf(),
            r@.local_id() == id@,
            r@.store == store@,
            r@.table.applied.len() == 0,
            forall|i: int| 0 <= i < NUM_BUCKETS ==> (#[trigger] r@.table.buckets[i]).entries().len() == 0,
            r@.queries.next_id == 0,
            r@.queries.config.replication_factor == crate::K_VALUE,
            r@.queries.queries.len() == 0,
            r@.events.len() == 0,
            r@.record_ttl is Some,
            r@.provider_record_ttl is Some,
    {
        Kademlia::with_config(id, store, KademliaConfig::default())
    }

    /// The peer ids of all nodes in the routing table, bucket by bucket in
    /// increasing order of index, each bucket in its order. All pending
    /// entries of the table are applied first.
    pub fn kbuckets_entries(&mut self) -> (r: Vec<Vec<u8>>)
        requires
            old(self).wf(),
        ensures
            final(self).wf(),
            final(self)@ == (KademliaView { table: final(self)@.table, ..old(self)@ }),
            all_applied(old(self)@.table, final(self)@.table),
            byte_views(r@) == entries_upto(final(self)@.table.buckets, NUM_BUCKETS as int).map_values(
                |e: (Node<KbKey, Addresses>, NodeStatus)| e.0.key.spec_preimage()),
    {
        let mut out: Vec<Vec<u8>> = Vec::new();
        let refs = self.kbuckets.iter();
        let ghost bs = Seq::new(NUM_BUCKETS as nat, |i: int| refs@[i].bucket@);
        let mut i: usize = 0;
        while i < NUM_BUCKETS
            invariant
                0 <= i <= NUM_BUCKETS,
                refs@.len() == NUM_BUCKETS,
                bs.len() == NUM_BUCKETS,
                forall|j: int| 0 <= j < NUM_BUCKETS ==> (#[trigger] refs@[j]).bucket@ == bs[j] && bs[j].wf(),
                byte_views(out@) == entries_upto(bs, i as int).map_values(
                    |e: (Node<KbKey, Addresses>, NodeStatus)| e.0.key.spec_preimage()),
            decreases NUM_BUCKETS - i,
        {
            let es = refs[i].iter();
            let mut j: usize = 0;
            let ghost base = out@;
            while j < es.len()
                invariant
                    0 <= j <= es@.len(),
                    i < NUM_BUCKETS,
                    refs@.len() == NUM_BUCKETS,
                    es@.len() == bs[i as int].entries().len(),
                    forall|a: int| 0 <= a < es@.len() ==> *(#[trigger] es@[a]).0 == bs[i as int].entries()[a].0,
                    byte_views(base) == entries_upto(bs, i as int).map_values(
                        |e: (Node<KbKey, Addresses>, NodeStatus)| e.0.key.spec_preimage()),
                    byte_views(out@) == (entries_upto(bs, i as int) + bs[i as int].entries().take(j as int)).map_values(
                        |e: (Node<KbKey, Addresses>, NodeStatus)| e.0.key.spec_preimage()),
                decreases es@.len() - j,
            {
                let ghost before = out@;
                out.push(copy_bytes(es[j].0.key.preimage()));
                proof {
                    let f = |e: (Node<KbKey, Addresses>, NodeStatus)| e.0.key.spec_preimage();
                    assert((entries_upto(bs, i as int) + bs[i as int].entries().take(j + 1))
                        =~= (entries_upto(bs, i as int) + bs[i as int].entries().take(j as int)).push(bs[i as int].entries()[j as int]));
                    assert(byte_views(out@) =~= byte_views(before).push(out@.last()@));
                }
                j += 1;
            }
            proof {
                assert(bs[i as int].entries().take(es@.len() as int) =~= bs[i as int].entries());
                assert(entries_upto(bs, i + 1) == entries_upto(bs, i as int) + bs[i as int].entries());
            }
            i += 1;
        }
        proof {
            assert(self@.table.buckets =~= bs);
            assert(all_applied(old(self)@.table, self@.table)) by {
                reveal(all_applied);
            }
        }
        out
    }

    /// The local store.
    pub fn store(&self) -> (r: &MemoryStore)
        ensures
            r@ == self@.store,
    {
        &self.store
    }

    /// The queries.
    pub fn queries(&self) -> (r: &QueryPool<QueryInfo>)
        ensures
            r@ == self@.queries,
    {
        &self.queries
    }

    /// The actions not yet taken, oldest first.
    pub fn queued_events(&self) -> (r: &[KademliaAction])
        ensures
            r@ == self@.events,
    {
        self.queued_events.as_slice()
    }

    /// Starts a lookup towards `target` with `info`.
    fn start_lookup(&mut self, target: KbKey, info: QueryInfo)
        requires
            old(self).wf(),
        ensures
            final(self).wf(),
            old(self)@.lookup_started(final(self)@, target.key_view()),
            final(self)@.queries.queries.last().inner == info,
            final(self)@.store == old(self)@.store,
            final(self)@.events == old(self)@.events,
    {
        let peers = self.kbuckets.closest_keys(&target);
        let ghost seeds = peers@;
        let bytes = target.into_key_bytes();
        self.queries.add_iter_closest(bytes, peers, info);
        proof {
            assert(seeds_of(self@.table, bytes@, seeds));
            assert(closest_query_added(old(self)@.queries, self@.queries, bytes@, seeds));
        }
    }

    /// Adds a known address of the peer `peer` to the routing table: how
    /// peers enter it. Where the peer is in the table, the address is added
    /// to its addresses, and the update reported if it was new; where it is
    /// pending insertion, to the addresses of the pending entry. Otherwise
    /// the peer is inserted with that one address, connected exactly when
    /// `connected`: the update is reported if it went in; if its bucket is
    /// full and a node there is to be checked for connectivity, that peer is
    /// dialed. Nothing changes for the local id, or for a full bucket that
    /// takes no pending entry. The pending entries of the peer's bucket are
    /// applied first.
    pub fn add_address(&mut self, peer: Vec<u8>, address: Vec<u8>, connected: bool)
        requires
            old(self).wf(),
        ensures
            final(self).wf(),
            final(self)@.store == old(self)@.store,
            final(self)@.queries == old(self)@.queries,
            final(self)@.record_ttl == old(self)@.record_ttl,
            final(self)@.provider_record_ttl == old(self)@.provider_record_ttl,
            match old(self)@.table.index_of(sha256_digest(peer@)) {
                None => final(self)@ == old(self)@,
                Some(i) => exists|t: TableView<KbKey, Addresses>| #[trigger] applied_at(old(self)@.table, t, i as int)
                    && address_outcome(old(self)@, final(self)@, t, i as int, peer@, address@, connected),
            },
    {
        let peer_id = copy_bytes(&peer);
        let key = KbKey::new(peer);
        let ghost k = key.key_view();
        let status = if connected { NodeStatus::Connected } else { NodeStatus::Disconnected };
        let ghost old_events = self.queued_events@;
        let entry = self.kbuckets.entry(&key);
        let ghost t = self.kbuckets@;
        match entry {
            Entry::Present(_, _) => {
                match self.kbuckets.insert_address(&key, address) {
                    Some((added, c)) => {
                        if added {
                            self.queued_events.push(KademliaAction::GenerateEvent(KademliaEvent::RoutingUpdated {
                                peer: peer_id,
                                addresses: c,
                                old_peer: None,
                            }));
                            proof {
                                assert(self.queued_events@.drop_last() =~= old_events);
                            }
                        }
                    },
                    None => {},
                }
                proof {
                    let i = old(self)@.table.index_of(k).unwrap() as int;
                    assert(applied_at(old(self)@.table, t, i));
                }
            },
            Entry::Pending(_, _) => {
                let _ = self.kbuckets.insert_pending_address(&key, address);
                proof {
                    let i = old(self)@.table.index_of(k).unwrap() as int;
                    assert(applied_at(old(self)@.table, t, i));
                }
            },
            Entry::Absent(e) => {
                let ghost ek = e.key;
                proof {
                    ek.lemma_same_preimage(key);
                }
                let addresses = Addresses::new(address);
                let c = addresses.duplicate();
                let r = e.insert(&mut self.kbuckets, addresses, status, 0);
                match r {
                    InsertResult::Inserted => {
                        self.queued_events.push(KademliaAction::GenerateEvent(KademliaEvent::RoutingUpdated {
                            peer: peer_id,
                            addresses: c,
                            old_peer: None,
                        }));
                        proof {
                            assert(self.queued_events@.drop_last() =~= old_events);
                        }
                    },
                    InsertResult::Pending { disconnected } => {
                        self.queued_events.push(KademliaAction::DialPeer { peer_id: disconnected.into_preimage() });
                        proof {
                            assert(self.queued_events@.drop_last() =~= old_events);
                        }
                    },
                    InsertResult::Full => {},
                }
                proof {
                    let i = old(self)@.table.index_of(k).unwrap() as int;
                    assert(applied_at(old(self)@.table, t, i));
                }
            },
            Entry::SelfEntry => {},
        }
    }

    /// One step of driving the node, at the instant `now`, with the peers
    /// in `connected` connected: the oldest queued action is taken first;
    /// else the oldest record of an applied pending entry is reported as a
    /// routing update; else the queries are polled once. A finished or
    /// timed-out query gives its event (a finished lookup of the local id
    /// asks for the bucket refresh first); a query that asks for a request
    /// queues it for the peer if it is connected, and otherwise queues a
    /// dial of the peer unless it is the local node.
    pub fn poll_step(&mut self, connected: &Vec<Vec<u8>>, now: Instant) -> (r: PollStep)
        requires
            old(self).wf(),
        ensures
            final(self).wf(),
            final(self)@.store == old(self)@.store,
            final(self)@.record_ttl == old(self)@.record_ttl,
            final(self)@.provider_record_ttl == old(self)@.provider_record_ttl,
            old(self)@.events.len() > 0 ==> {
                &&& r == PollStep::Ready(old(self)@.events[0])
                &&& final(self)@ == (KademliaView { events: old(self)@.events.drop_first(), ..old(self)@ })
            },
            old(self)@.events.len() == 0 && old(self)@.table.applied.len() > 0 ==> {
                &&& r matches PollStep::Ready(a) && applied_report(old(self)@.table.applied[0], a)
                &&& final(self)@ == (KademliaView {
                    table: TableView { applied: old(self)@.table.applied.drop_first(), ..old(self)@.table },
                    ..old(self)@
                })
            },
            old(self)@.events.len() == 0 && old(self)@.table.applied.len() == 0 ==> {
                &&& final(self)@.table == old(self)@.table
                &&& old(self)@.queries.queries.len() == 0 ==> r is Pending && final(self)@ == old(self)@
                &&& old(self)@.queries.queries.len() > 0 ==> polled(old(self)@, final(self)@, byte_views(connected@), now, r)
            },
    {
        if self.queued_events.len() > 0 {
            let a = self.queued_events.remove(0);
            return PollStep::Ready(a);
        }
        match self.kbuckets.take_applied_pending() {
            Some(entry) => {
                let AppliedPending { inserted, evicted } = entry;
                let Node { key, value, weight: _ } = inserted;
                let old_peer = match evicted {
                    Some(n) => Some(n.key.into_preimage()),
                    None => None,
                };
                return PollStep::Ready(KademliaAction::GenerateEvent(KademliaEvent::RoutingUpdated {
                    peer: key.into_preimage(),
                    addresses: value,
                    old_peer,
                }));
            },
            None => {},
        }
        let local = copy_bytes(self.kbuckets.local_key().preimage());
        let ghost pre = self@;
        let ghost qs = pre.queries.queries;
        let ghost to = pre.queries.config.timeout;
        let ghost cs = byte_views(connected@);
        if self.queries.iter().len() == 0 {
            proof {
                assert(self@ == old(self)@);
            }
        }
        let ghost mut k: int = 0;
        proof {
            if qs.len() > 0 {
                k = choose|k: int| stops_at(qs, now, to, k);
            }
        }
        match self.queries.poll(now) {
            QueryPoolState::Idle => PollStep::Pending,
            QueryPoolState::Waiting(None) => {
                proof {
                    lemma_stops_at_unique(qs, now, to, k);
                    assert(polled(pre, self@, cs, now, PollStep::Pending));
                }
                PollStep::Pending
            },
            QueryPoolState::Waiting(Some((q, peer))) => {
                let ghost qv = q@;
                let id = q.id();
                let req = q.inner().to_request(id);
                let adds = match q.inner() {
                    QueryInfo::AddProvider { .. } => true,
                    _ => false,
                };
                let ghost pa = self@.queries;
                if adds {
                    let none: Vec<Vec<u8>> = Vec::new();
                    proof {
                        assert(reported_pairs(none@) =~= reported_pairs(Seq::empty()));
                    }
                    self.queries.on_success(&id, &peer, none);
                }
                if has_peer(connected, &peer) {
                    self.queued_events.push(KademliaAction::SendEvent { peer_id: peer, event: req });
                    assert(self@.events.drop_last() =~= pre.events);
                } else if !same_bytes(&peer, &local) {
                    self.queued_events.push(KademliaAction::DialPeer { peer_id: peer });
                    assert(self@.events.drop_last() =~= pre.events);
                }
                proof {
                    lemma_stops_at_unique(qs, now, to, k);
                    if adds {
                        assert(query_succeeded(pa, self@.queries, qv.id, peer@, Seq::empty()));
                    }
                    assert(polled(pre, self@, cs, now, PollStep::Continue));
                }
                PollStep::Continue
            },
            QueryPoolState::Finished(q) => {
                let ghost qv = q@;
                let ghost pr = self@.queries;
                let result = q.into_result();
                proof {
                    lemma_stops_at_unique(qs, now, to, k);
                }
                if !info_ok(&result.inner) {
                    proof {
                        assert(polled(pre, self@, cs, now, PollStep::Continue));
                    }
                    PollStep::Continue
                } else {
                    let ghost peers = result.peers;
                    let ghost info = result.inner;
                    let (event, refresh) = query_finished(&mut self.queries, result, &local, Vec::new());
                    let r = match event {
                        Some(e) => if refresh { PollStep::Refresh(e) } else { PollStep::Ready(KademliaAction::GenerateEvent(e)) },
                        None => PollStep::Continue,
                    };
                    proof {
                        assert(finished_step(info, peers, pre.local_id(), r));
                        assert(polled(pre, self@, cs, now, r));
                    }
                    r
                }
            },
            QueryPoolState::Timeout(q) => {
                let ghost qv = q@;
                let result = q.into_result();
                proof {
                    lemma_stops_at_unique(qs, now, to, k);
                }
                if prepares_cache(&result.inner) {
                    proof {
                        assert(polled(pre, self@, cs, now, PollStep::Continue));
                    }
                    PollStep::Continue
                } else {
                    let ghost peers = result.peers;
                    let r = match query_timeout(result) {
                        Some(e) => PollStep::Ready(KademliaAction::GenerateEvent(e)),
                        None => PollStep::Continue,
                    };
                    proof {
                        assert(polled(pre, self@, cs, now, r));
                    }
                    r
                }
            },
        }
    }

    /// The peers closest to `target`, as many as the replication factor,
    /// never `source`, for an answer to `source`: nothing for the local
    /// key. The table's pending entries along the way are applied first.
    fn find_closest(&mut self, target: &KbKey, source: &Vec<u8>) -> (r: Vec<KadPeer>)
        requires
            old(self).wf(),
        ensures
            final(self).wf(),
            final(self)@ == (KademliaView { table: final(self)@.table, ..old(self)@ }),
            target.key_view() == old(self)@.table.local() ==> r@.len() == 0 && final(self)@ == old(self)@,
            target.key_view() != old(self)@.table.local() ==> {
                &&& applied_along(old(self)@.table, final(self)@.table, visit_order(xor_bytes(old(self)@.table.local(), target.key_view())))
                &&& r@.map_values(|p: KadPeer| peer_model(p)) == first_n(
                    reported_except(crate::kbucket::table::closest_entries(final(self)@.table, target.key_view()), source@),
                    old(self)@.queries.config.replication_factor as int,
                )
            },
    {
        let mut out: Vec<KadPeer> = Vec::new();
        if target.key_bytes().same_as(self.kbuckets.local_key().key_bytes()) {
            return out;
        }
        let k = self.queries.config().replication_factor;
        let entries = self.kbuckets.closest(target);
        let ghost es = crate::kbucket::table::closest_entries(self@.table, target.key_view());
        let ghost pred = not_from(source@);
        let ghost m = reported(es);
        let mut j: usize = 0;
        while j < entries.len() && out.len() < k
            invariant
                0 <= j <= entries@.len(),
                entries@.len() == es.len(),
                m == reported(es),
                pred == not_from(source@),
                forall|p: int| 0 <= p < entries@.len() ==> node_cloned(es[p].0, (#[trigger] entries@[p]).node)
                    && entries@[p].status == es[p].1,
                out@.map_values(|p: KadPeer| peer_model(p)) == m.take(j as int).filter(pred),
                out@.len() <= k,
            decreases entries@.len() - j,
        {
            let e = &entries[j];
            proof {
                e.node.key.lemma_same_preimage(es[j as int].0.key);
                assert(m[j as int] == (es[j as int].0.key.spec_preimage(), connection_of(es[j as int].1)));
                assert(m.take(j + 1) =~= m.take(j as int).push(m[j as int]));
                m.take(j as int).lemma_filter_push(m[j as int], pred);
            }
            if !same_bytes(e.node.key.preimage(), source) {
                let ghost before = out@;
                out.push(KadPeer {
                    node_id: copy_bytes(e.node.key.preimage()),
                    multiaddrs: e.node.value.duplicate().into_vec(),
                    connection_ty: match e.status {
                        NodeStatus::Connected => ConnectionType::Connected,
                        NodeStatus::Disconnected => ConnectionType::NotConnected,
                    },
                });
                proof {
                    assert(out@.map_values(|p: KadPeer| peer_model(p)) =~= before.map_values(|p: KadPeer| peer_model(p)).push(m[j as int]));
                }
            } else {
                assert(m[j as int].0 == source@);
            }
            j += 1;
        }
        proof {
            let f = m.filter(pred);
            assert(m =~= m.take(j as int) + m.skip(j as int));
            Seq::filter_distributes_over_add(m.take(j as int), m.skip(j as int), pred);
            if j < entries@.len() {
                assert(out@.len() == k);
                assert(f.take(k as int) =~= m.take(j as int).filter(pred));
            } else {
                assert(m.take(j as int) =~= m);
            }
            m.lemma_filter_len(pred);
        }
        out
    }

    /// The providers of `key` known locally, for an answer to `source`: in
    /// the order of the store, never `source` or the local node, only those
    /// in the routing table, with their addresses and connection, as many
    /// as the replication factor at most (see `providers_answered`).
    fn provider_peers(&mut self, key: &Key, source: &Vec<u8>) -> (r: Vec<KadPeer>)
        requires
            old(self).wf(),
        ensures
            final(self).wf(),
            final(self)@ == (KademliaView { table: final(self)@.table, ..old(self)@ }),
            exists|ts: Seq<TableView<KbKey, Addresses>>, fs: Seq<Option<(Seq<u8>, Seq<Seq<u8>>, ConnectionType)>>|
                #[trigger] providers_answered(ts, fs, old(self)@.store.providers_of(key@), source@,
                    old(self)@.queries.config.replication_factor as int)
                && ts[0] == old(self)@.table && ts.last() == final(self)@.table
                && r@.map_values(|p: KadPeer| peer_full(p)) == found_peers(fs),
    {
        let ps = self.store.providers(key);
        let ghost pvs = old(self)@.store.providers_of(key@);
        let k = self.queries.config().replication_factor;
        let mut out: Vec<KadPeer> = Vec::new();
        let ghost mut ts: Seq<TableView<KbKey, Addresses>> = seq![self@.table];
        let ghost mut fs: Seq<Option<(Seq<u8>, Seq<Seq<u8>>, ConnectionType)>> = Seq::empty();
        let mut j: usize = 0;
        while j < ps.len() && out.len() < k
            invariant
                self.wf(),
                self@ == (KademliaView { table: self@.table, ..old(self)@ }),
                provider_views(ps@) == pvs,
                k == old(self)@.queries.config.replication_factor,
                0 <= j <= ps@.len(),
                ts.len() == fs.len() + 1,
                fs.len() == j,
                ts[0] == old(self)@.table,
                ts.last() == self@.table,
                forall|a: int| 0 <= a < fs.len() ==> #[trigger] provider_lookup(ts[a], ts[a + 1], pvs[a], source@, fs[a]),
                out@.map_values(|p: KadPeer| peer_full(p)) == found_peers(fs),
                out@.len() <= k,
            decreases ps@.len() - j,
        {
            let p = &ps[j];
            let ghost pv = pvs[j as int];
            assert(pv == p@);
            let ghost t = self@.table;
            let ghost mut f: Option<(Seq<u8>, Seq<Seq<u8>>, ConnectionType)> = None;
            if !same_bytes(&p.provider, source) {
                let pk = KbKey::new(copy_bytes(&p.provider));
                match self.kbuckets.entry(&pk) {
                    Entry::Present(_, status) => {
                        match self.kbuckets.addresses_of(&pk) {
                            Some(c) => {
                                let peer = KadPeer {
                                    node_id: copy_bytes(&p.provider),
                                    multiaddrs: c.into_vec(),
                                    connection_ty: match status {
                                        NodeStatus::Connected => ConnectionType::Connected,
                                        NodeStatus::Disconnected => ConnectionType::NotConnected,
                                    },
                                };
                                proof {
                                    f = Some(peer_full(peer));
                                }
                                let ghost before = out@;
                                out.push(peer);
                                proof {
                                    assert(out@.map_values(|q: KadPeer| peer_full(q)) =~= before.map_values(|q: KadPeer| peer_full(q)).push(peer_full(peer)));
                                }
                            },
                            None => {},
                        }
                    },
                    _ => {},
                }
            }
            proof {
                assert(provider_lookup(t, self@.table, pv, source@, f));
                let old_ts = ts;
                let old_fs = fs;
                ts = ts.push(self@.table);
                fs = fs.push(f);
                assert forall|a: int| 0 <= a < fs.len() implies #[trigger] provider_lookup(ts[a], ts[a + 1], pvs[a], source@, fs[a]) by {
                    if a < old_fs.len() {
                        assert(ts[a] == old_ts[a] && ts[a + 1] == old_ts[a + 1] && fs[a] == old_fs[a]);
                    }
                }
                assert(fs.drop_last() =~= old_fs);
            }
            j += 1;
        }
        proof {
            assert(providers_answered(ts, fs, pvs, source@, k as int));
        }
        out
    }

    /// Answers the request `request_id` of the peer `source` for the
    /// providers of `key`: with the providers known locally (see
    /// `provider_peers`) and the closest peers known (see `find_closest`).
    pub fn on_get_providers_req(&mut self, source: Vec<u8>, key: Key, request_id: RequestId)
        requires
            old(self).wf(),
        ensures
            final(self).wf(),
            event_added(old(self)@.events, final(self)@.events),
            exists|ts: Seq<TableView<KbKey, Addresses>>, fs: Seq<Option<(Seq<u8>, Seq<Seq<u8>>, ConnectionType)>>|
                #[trigger] providers_answered(ts, fs, old(self)@.store.providers_of(key@), source@,
                    old(self)@.queries.config.replication_factor as int)
                && ts[0] == old(self)@.table
                && final(self)@ == (KademliaView { table: final(self)@.table, events: final(self)@.events, ..old(self)@ })
                && match final(self)@.events.last() {
                    KademliaAction::SendEvent { peer_id, event } => peer_id@ == source@ && match event {
                        HandlerIn::GetProvidersRes { closer_peers, provider_peers, request_id: rid } => {
                            let mid = ts.last();
                            let target = sha256_digest(key@);
                            &&& rid == request_id
                            &&& provider_peers@.map_values(|p: KadPeer| peer_full(p)) == found_peers(fs)
                            &&& if target == mid.local() {
                                closer_peers@.len() == 0 && final(self)@.table == mid
                            } else {
                                &&& applied_along(mid, final(self)@.table, visit_order(xor_bytes(mid.local(), target)))
                                &&& closer_peers@.map_values(|p: KadPeer| peer_model(p)) == first_n(
                                    reported_except(crate::kbucket::table::closest_entries(final(self)@.table, target), source@),
                                    old(self)@.queries.config.replication_factor as int,
                                )
                            }
                        },
                        _ => false,
                    },
                    _ => false,
                },
    {
        let provider_peers = self.provider_peers(&key, &source);
        let ghost mid = self@;
        let target = KbKey::new(key.to_vec());
        let closer_peers = self.find_closest(&target, &source);
        let ghost before = self.queued_events@;
        self.queued_events.push(KademliaAction::SendEvent {
            peer_id: source,
            event: HandlerIn::GetProvidersRes { closer_peers, provider_peers, request_id },
        });
        proof {
            assert(self.queued_events@.drop_last() =~= before);
        }
    }

    /// Answers the request `request_id` of the peer `source` for the peers
    /// closest to `key`: the answer, queued for the peer, holds the peers
    /// that `find_closest` gives.
    pub fn on_find_node_req(&mut self, source: Vec<u8>, key: Vec<u8>, request_id: RequestId)
        requires
            old(self).wf(),
        ensures
            final(self).wf(),
            ({
                let target = sha256_digest(key@);
                &&& event_added(old(self)@.events, final(self)@.events)
                &&& match final(self)@.events.last() {
                    KademliaAction::SendEvent { peer_id, event } => peer_id@ == source@ && match event {
                        HandlerIn::FindNodeRes { closer_peers, request_id: rid } => rid == request_id && if target
                            == old(self)@.table.local() {
                            closer_peers@.len() == 0 && final(self)@ == (KademliaView { events: final(self)@.events, ..old(self)@ })
                        } else {
                            &&& applied_along(old(self)@.table, final(self)@.table, visit_order(xor_bytes(old(self)@.table.local(), target)))
                            &&& final(self)@ == (KademliaView { table: final(self)@.table, events: final(self)@.events, ..old(self)@ })
                            &&& closer_peers@.map_values(|p: KadPeer| peer_model(p)) == first_n(
                                reported_except(crate::kbucket::table::closest_entries(final(self)@.table, target), source@),
                                old(self)@.queries.config.replication_factor as int,
                            )
                        },
                        _ => false,
                    },
                    _ => false,
                }
            }),
    {
        let target = KbKey::new(key);
        let closer_peers = self.find_closest(&target, &source);
        let ghost before = self.queued_events@;
        self.queued_events.push(KademliaAction::SendEvent {
            peer_id: source,
            event: HandlerIn::FindNodeRes { closer_peers, request_id },
        });
        proof {
            assert(self.queued_events@.drop_last() =~= before);
        }
    }

    /// Takes in the peers `closer_peers` that `source` gave in answer to a
    /// request of the query `query_id`: each one other than the local node
    /// is reported as discovered, in order, and the query, if it is still
    /// there, hears of them from `source`.
    pub fn on_find_node_res(&mut self, source: Vec<u8>, closer_peers: Vec<KadPeer>, query_id: QueryId)
        requires
            old(self).wf(),
        ensures
            final(self).wf(),
            discovered_from(old(self)@, final(self)@, source@, closer_peers@, query_id),
    {
        let local = copy_bytes(self.kbuckets.local_key().preimage());
        let ghost pred = not_local(local@);
        let ghost start = self.queued_events@;
        let mut ids: Vec<Vec<u8>> = Vec::new();
        let mut j: usize = 0;
        while j < closer_peers.len()
            invariant
                0 <= j <= closer_peers@.len(),
                pred == not_local(local@),
                local@ == old(self)@.local_id(),
                self.wf(),
                self@ == (KademliaView { events: self@.events, ..old(self)@ }),
                self.queued_events@.len() == start.len() + closer_peers@.take(j as int).filter(pred).len(),
                self.queued_events@.take(start.len() as int) == start,
                forall|i: int| 0 <= i < closer_peers@.take(j as int).filter(pred).len() ==> discovery_of(
                    #[trigger] self.queued_events@[start.len() + i], closer_peers@.take(j as int).filter(pred)[i]),
                byte_views(ids@) == closer_peers@.take(j as int).filter(pred).map_values(|p: KadPeer| p.node_id@),
            decreases closer_peers@.len() - j,
        {
            let p = &closer_peers[j];
            let ghost before = closer_peers@.take(j as int);
            let ghost bq = self.queued_events@;
            let ghost bi = ids@;
            proof {
                assert(closer_peers@.take(j + 1) =~= before.push(*p));
                before.lemma_filter_push(*p, pred);
            }
            if !same_bytes(&p.node_id, &local) {
                self.queued_events.push(discovery(p));
                ids.push(copy_bytes(&p.node_id));
                proof {
                    let f = closer_peers@.take(j + 1).filter(pred);
                    assert(f == before.filter(pred).push(*p));
                    assert(self.queued_events@.take(start.len() as int) =~= start);
                    assert forall|i: int| 0 <= i < f.len() implies discovery_of(
                        #[trigger] self.queued_events@[start.len() + i], f[i]) by {
                        if i < f.len() - 1 {
                            assert(self.queued_events@[start.len() + i] == bq[start.len() + i]);
                        }
                    }
                    assert(byte_views(ids@) =~= byte_views(bi).push(p.node_id@));
                    assert(f.map_values(|q: KadPeer| q.node_id@) =~= before.filter(pred).map_values(|q: KadPeer| q.node_id@).push(p.node_id@));
                }
            }
            j += 1;
        }
        proof {
            assert(closer_peers@.take(closer_peers@.len() as int) =~= closer_peers@);
        }
        let ghost found = ids@;
        self.queries.on_success(&query_id, &source, ids);
        proof {
            assert(query_succeeded(old(self)@.queries, self@.queries, query_id, source@, found));
        }
    }

    /// Takes in the announcement by `source` that `provider` provides the
    /// value of `key`. Only an announcement of the sender itself is taken:
    /// the provider is reported as discovered and, unless it is the local
    /// node, its provider record is stored, expiring after the configured
    /// time to live (if any) from now. A record the store refuses is
    /// dropped.
    pub fn on_add_provider(&mut self, source: Vec<u8>, key: Key, provider: KadPeer)
        requires
            old(self).wf(),
        ensures
            final(self).wf(),
            provider.node_id@ != source@ ==> final(self)@ == old(self)@,
            provider.node_id@ == source@ ==> {
                &&& event_added(old(self)@.events, final(self)@.events)
                &&& discovery_of(final(self)@.events.last(), provider)
                &&& final(self)@.table == old(self)@.table
                &&& final(self)@.queries == old(self)@.queries
                &&& final(self)@.record_ttl == old(self)@.record_ttl
                &&& final(self)@.provider_record_ttl == old(self)@.provider_record_ttl
                &&& provider.node_id@ == old(self)@.local_id() ==> final(self)@.store == old(self)@.store
                &&& provider.node_id@ != old(self)@.local_id() ==> exists|now: Instant| {
                    let rec = ProviderView {
                        key: key@,
                        provider: provider.node_id@,
                        expires: #[trigger] expiry_after(old(self)@.provider_record_ttl, now),
                        addresses: Seq::empty(),
                    };
                    match old(self)@.store.add_provider_outcome(rec) {
                        Ok(_) => final(self)@.store == old(self)@.store.with_provider(rec),
                        Err(_) => final(self)@.store == old(self)@.store,
                    }
                }
            },
    {
        if !same_bytes(&provider.node_id, &source) {
            return;
        }
        let ghost before = self.queued_events@;
        self.queued_events.push(discovery(&provider));
        proof {
            assert(self.queued_events@.drop_last() =~= before);
        }
        if same_bytes(&provider.node_id, self.kbuckets.local_key().preimage()) {
            return;
        }
        let now = instant_now();
        let expires = match self.provider_record_ttl {
            Some(ttl) => instant_checked_add(now, ttl),
            None => None,
        };
        let addrs: Vec<Vec<u8>> = Vec::new();
        proof {
            assert(byte_views(addrs@) =~= Seq::empty());
        }
        let mut record = ProviderRecord::new(key, provider.node_id, addrs);
        record.expires = expires;
        assert(record@.expires == expiry_after(old(self)@.provider_record_ttl, now));
        let _ = self.store.add_provider(record);
    }

    /// Takes in the record `record` that `source` asks to store, with the
    /// request `request_id`. A record that names the local node as its
    /// publisher is left alone and acknowledged. Otherwise its expiry
    /// becomes the earlier of its own and the local time to live from now,
    /// halved once per node beyond the replication factor between the local
    /// node and the record's key (see `received_expiry`); the record is
    /// stored and acknowledged, or the request is reset where the store
    /// refuses it.
    pub fn on_put_record(&mut self, source: Vec<u8>, record: Record, request_id: RequestId)
        requires
            old(self).wf(),
        ensures
            final(self).wf(),
            final(self)@.table == old(self)@.table,
            final(self)@.queries == old(self)@.queries,
            final(self)@.record_ttl == old(self)@.record_ttl,
            final(self)@.provider_record_ttl == old(self)@.provider_record_ttl,
            event_added(old(self)@.events, final(self)@.events),
            record.publisher matches Some(p) && p@ == old(self)@.local_id() ==> {
                &&& final(self)@.store == old(self)@.store
                &&& final(self)@.events.last() matches KademliaAction::SendEvent { peer_id, event }
                    && peer_id@ == source@ && event == (HandlerIn::PutRecordRes { key: record.key, value: record.value, request_id })
            },
            !(record.publisher matches Some(p) && p@ == old(self)@.local_id()) ==> exists|now: Instant|
                #[trigger] put_received(old(self)@, final(self)@, source@, record, request_id, now),
    {
        let ghost grec = record;
        let ghost before = self.queued_events@;
        let mine = match &record.publisher {
            Some(p) => same_bytes(p, self.kbuckets.local_key().preimage()),
            None => false,
        };
        if mine {
            let Record { key, value, publisher: _, expires: _ } = record;
            self.queued_events.push(KademliaAction::SendEvent {
                peer_id: source,
                event: HandlerIn::PutRecordRes { key, value, request_id },
            });
            proof {
                assert(self.queued_events@.drop_last() =~= before);
            }
            return;
        }
        let now = instant_now();
        let target = KbKey::new(record.key.to_vec());
        let between = self.kbuckets.count_nodes_between(&target);
        let k = self.queries.config().replication_factor;
        let beyond: usize = if between > k { between - k } else { 0 };
        let local = match self.record_ttl {
            Some(ttl) => {
                let secs = duration_as_secs(ttl);
                let scaled: u64 = if beyond >= 64 { 0 } else { secs >> (beyond as u64) };
                instant_checked_add(now, duration_from_secs(scaled))
            },
            None => None,
        };
        let x = match record.expires {
            Some(e) => Some(e),
            None => local,
        };
        let expires = match x {
            Some(a) => match local {
                Some(b) => if instant_not_before(&a, &b) { Some(b) } else { Some(a) },
                None => None,
            },
            None => None,
        };
        let mut rec = record;
        rec.expires = expires;
        assert(local == local_expiry(old(self)@.table, k as int, old(self)@.record_ttl, rec.key@, now));
        let ghost stored = rec@;
        let ghost src = source@;
        let ghost rk = rec.key@;
        let ghost rv = rec.value@;
        assert(stored == RecordView { expires: received_expiry(record.expires, local), ..record@ });
        let res = self.store.put(copy_record(&rec));
        match res {
            Ok(()) => {
                self.queued_events.push(KademliaAction::SendEvent {
                    peer_id: source,
                    event: HandlerIn::PutRecordRes { key: rec.key, value: rec.value, request_id },
                });
                assert(put_acknowledged(self@.events.last(), src, rk, rv, request_id));
            },
            Err(_) => {
                self.queued_events.push(KademliaAction::SendEvent {
                    peer_id: source,
                    event: HandlerIn::Reset(request_id),
                });
            },
        }
        proof {
            assert(self.queued_events@.drop_last() =~= before);
            assert(res == old(self)@.store.put_outcome(stored));
            assert(put_received(old(self)@, self@, src, grec, request_id, now));
        }
    }

    /// Answers the request `request_id` of `source` for the record of
    /// `key`: with the record in the local store, unless it has expired, in
    /// which case it is removed; without one, with the closest peers known
    /// (see `find_closest`).
    pub fn on_get_record_req(&mut self, source: Vec<u8>, key: Key, request_id: RequestId)
        requires
            old(self).wf(),
        ensures
            final(self).wf(),
            final(self)@.queries == old(self)@.queries,
            final(self)@.record_ttl == old(self)@.record_ttl,
            final(self)@.provider_record_ttl == old(self)@.provider_record_ttl,
            event_added(old(self)@.events, final(self)@.events),
            exists|now: Instant| {
                let found = #[trigger] live_record(old(self)@.store, key@, now);
                &&& final(self)@.store == (if found is None && old(self)@.store.lookup(key@) is Some {
                    old(self)@.store.without_record(key@)
                } else {
                    old(self)@.store
                })
                &&& record_answer(final(self)@.events.last(), source@, request_id, found, old(self)@.table,
                    final(self)@.table, key@, old(self)@.queries.config.replication_factor as int)
            },
    {
        let now = instant_now();
        let found = match self.store.get(&key) {
            Some(record) => if record.is_expired(now) { None } else { Some(copy_record(record)) },
            None => None,
        };
        if found.is_none() && self.store.get(&key).is_some() {
            self.store.remove(&key);
        }
        let ghost mid = self@;
        let closer_peers = match &found {
            Some(_) => Vec::new(),
            None => {
                let target = KbKey::new(key.to_vec());
                self.find_closest(&target, &source)
            },
        };
        let ghost before = self.queued_events@;
        self.queued_events.push(KademliaAction::SendEvent {
            peer_id: source,
            event: HandlerIn::GetRecordRes { record: found, closer_peers, request_id },
        });
        proof {
            assert(self.queued_events@.drop_last() =~= before);
            assert(live_record(old(self)@.store, key@, now) == live_record(old(self)@.store, key@, now));
        }
    }

    /// Takes in the acknowledgement by `source` that it stored the record of
    /// the query `query_id`: the query, if it is still there, hears of the
    /// success, counts one more stored copy, and finishes once the count
    /// reaches its quorum.
    pub fn on_put_record_res(&mut self, source: Vec<u8>, query_id: QueryId)
        requires
            old(self).wf(),
        ensures
            final(self).wf(),
            final(self)@.store == old(self)@.store,
            final(self)@.table == old(self)@.table,
            final(self)@.events == old(self)@.events,
            final(self)@.record_ttl == old(self)@.record_ttl,
            final(self)@.provider_record_ttl == old(self)@.provider_record_ttl,
            exists|p1: QueryPoolView<QueryInfo>| #[trigger] query_succeeded(old(self)@.queries, p1, query_id, source@, Seq::empty()) && {
                &&& final(self)@.queries.next_id == p1.next_id
                &&& final(self)@.queries.config == p1.config
                &&& final(self)@.queries.queries.len() == p1.queries.len()
                &&& forall|i: int| 0 <= i < p1.queries.len() ==> {
                    let q = p1.queries[i];
                    let f = #[trigger] final(self)@.queries.queries[i];
                    if q.id == query_id {
                        &&& f.id == q.id
                        &&& f.inner == put_counted(q.inner)
                        &&& put_reaches_quorum(q.inner) ==> f.iter.is_finished()
                        &&& !put_reaches_quorum(q.inner) ==> f == (QueryView { inner: put_counted(q.inner), ..q })
                    } else {
                        f == q
                    }
                }
            },
    {
        let none: Vec<Vec<u8>> = Vec::new();
        self.queries.on_success(&query_id, &source, none);
        let ghost p1 = self@.queries;
        proof {
            assert(none@ =~= Seq::<Vec<u8>>::empty());
            assert(query_succeeded(old(self)@.queries, p1, query_id, source@, Seq::empty()));
        }
        let placeholder = QueryInfo::Bootstrap { peer: Vec::new() };
        let ghost ph = placeholder;
        proof {
            self.queries.lemma_unique_ids();
        }
        match self.queries.replace_inner(&query_id, placeholder) {
            Some(info) => {
                let mut info = info;
                let ghost before = info;
                let ghost k = choose|k: int| 0 <= k < p1.queries.len() && p1.queries[k].id == query_id
                    && before == p1.queries[k].inner;
                let ghost p2 = self@.queries;
                let counts = match &info {
                    QueryInfo::PutRecord { quorum, num_results, .. } => *quorum >= 1 && *num_results < usize::MAX,
                    _ => false,
                };
                let finish = if counts { info.on_put_record_res() } else { false };
                assert(info == put_counted(before));
                assert(finish == put_reaches_quorum(before));
                let _ = self.queries.replace_inner(&query_id, info);
                let ghost p3 = self@.queries;
                if finish {
                    self.queries.finish(&query_id);
                }
                proof {
                    assert(view_ids(self@.queries.queries).len() == view_ids(p3.queries).len());
                    assert(self@.queries.queries.len() == p1.queries.len());
                    assert forall|i: int| 0 <= i < p1.queries.len() implies {
                        let q = p1.queries[i];
                        let f = #[trigger] self@.queries.queries[i];
                        if q.id == query_id {
                            &&& f.id == q.id
                            &&& f.inner == put_counted(q.inner)
                            &&& put_reaches_quorum(q.inner) ==> f.iter.is_finished()
                            &&& !put_reaches_quorum(q.inner) ==> f == (QueryView { inner: put_counted(q.inner), ..q })
                        } else {
                            f == q
                        }
                    } by {
                        assert(p2.queries[i].id == p1.queries[i].id);
                        assert(p3.queries[i].id == p1.queries[i].id);
                        if p1.queries[i].id == query_id {
                            if i != k {
                                assert(p1.queries[i].id != p1.queries[k].id);
                            }
                            assert(p2.queries[i] == (QueryView { inner: ph, ..p1.queries[i] }));
                            assert(p3.queries[i] == (QueryView { inner: put_counted(before), ..p1.queries[i] }));
                            if finish {
                                assert(view_ids(self@.queries.queries)[i] == view_ids(p3.queries)[i]);
                            }
                        } else {
                            assert(p3.queries[i] == p1.queries[i]);
                        }
                    }
                }
            },
            None => {
                proof {
                    assert forall|i: int| 0 <= i < p1.queries.len() implies #[trigger] self@.queries.queries[i] == p1.queries[i] by {
                        assert(p1.queries[i].id != query_id);
                    }
                    assert(self@.queries.queries =~= p1.queries);
                }
            },
        }
    }

    /// Takes in the answer of `source` to a record lookup of the query
    /// `query_id`: the record, if any, joins those of the query, which
    /// finishes once they are as many as its quorum (see
    /// `QueryInfo::on_get_record_res`); then the peers it gave are taken in
    /// (see `on_find_node_res`). A query that is gone, or whose quorum or
    /// count is out of range, keeps its information.
    pub fn on_get_record_res(&mut self, source: Vec<u8>, record: Option<Record>, closer_peers: Vec<KadPeer>, query_id: QueryId)
        requires
            old(self).wf(),
        ensures
            final(self).wf(),
            exists|mid: KademliaView| {
                &&& mid.store == old(self)@.store
                &&& mid.table == old(self)@.table
                &&& mid.events == old(self)@.events
                &&& mid.record_ttl == old(self)@.record_ttl
                &&& mid.provider_record_ttl == old(self)@.provider_record_ttl
                &&& mid.queries.next_id == old(self)@.queries.next_id
                &&& mid.queries.config == old(self)@.queries.config
                &&& mid.queries.queries.len() == old(self)@.queries.queries.len()
                &&& forall|i: int| 0 <= i < old(self)@.queries.queries.len() ==> {
                    let q = old(self)@.queries.queries[i];
                    let f = #[trigger] mid.queries.queries[i];
                    if q.id == query_id {
                        f == q || (f.id == q.id && exists|finish: bool| #[trigger] get_record_step(q.inner, f.inner, source@, record, finish)
                            && (finish ==> f.iter.is_finished())
                            && (!finish ==> f == (QueryView { inner: f.inner, ..q })))
                    } else {
                        f == q
                    }
                }
                &&& #[trigger] discovered_from(mid, final(self)@, source@, closer_peers@, query_id)
            },
    {
        let placeholder = QueryInfo::Bootstrap { peer: Vec::new() };
        let ghost ph = placeholder;
        let ghost p0 = self@.queries;
        proof {
            self.queries.lemma_unique_ids();
        }
        match self.queries.replace_inner(&query_id, placeholder) {
            Some(info) => {
                let mut info = info;
                let ghost before = info;
                let ghost k = choose|k: int| 0 <= k < p0.queries.len() && p0.queries[k].id == query_id
                    && before == p0.queries[k].inner;
                let ghost p2 = self@.queries;
                let fits = info_ok(&info) && match &info {
                    QueryInfo::GetRecord { records, .. } => records.len() < usize::MAX,
                    _ => true,
                };
                let finish = if fits { info.on_get_record_res(&source, record) } else { false };
                let ghost after = info;
                let _ = self.queries.replace_inner(&query_id, info);
                let ghost p3 = self@.queries;
                if finish {
                    self.queries.finish(&query_id);
                }
                proof {
                    assert(view_ids(self@.queries.queries).len() == view_ids(p3.queries).len());
                    assert forall|i: int| 0 <= i < p0.queries.len() implies {
                        let q = p0.queries[i];
                        let f = #[trigger] self@.queries.queries[i];
                        if q.id == query_id {
                            f == q || (f.id == q.id && exists|finish: bool| #[trigger] get_record_step(q.inner, f.inner, source@, record, finish)
                                && (finish ==> f.iter.is_finished())
                                && (!finish ==> f == (QueryView { inner: f.inner, ..q })))
                        } else {
                            f == q
                        }
                    } by {
                        if p0.queries[i].id == query_id {
                            if i != k {
                                assert(p0.queries[i].id != p0.queries[k].id);
                            }
                            assert(p2.queries[i] == (QueryView { inner: ph, ..p0.queries[i] }));
                            assert(p3.queries[i] == (QueryView { inner: after, ..p0.queries[i] }));
                            if finish {
                                assert(view_ids(self@.queries.queries)[i] == view_ids(p3.queries)[i]);
                            }
                            assert(p0.queries[i].inner == before);
                            assert(self@.queries.queries[i].inner == after);
                            if fits {
                                assert(get_record_step(before, after, source@, record, finish));
                                assert(get_record_step(p0.queries[i].inner, self@.queries.queries[i].inner, source@, record, finish));
                                if !finish {
                                    assert(self@.queries.queries[i] == (QueryView { inner: after, ..p0.queries[i] }));
                                }
                            } else {
                                assert(after == before);
                                assert(self@.queries.queries[i] == p0.queries[i]);
                            }
                        } else {
                            assert(p3.queries[i] == p0.queries[i]);
                        }
                    }
                }
            },
            None => {
                proof {
                    assert forall|i: int| 0 <= i < p0.queries.len() implies #[trigger] self@.queries.queries[i] == p0.queries[i] by {
                        assert(p0.queries[i].id != query_id);
                    }
                }
            },
        }
        let ghost mid = self@;
        self.on_find_node_res(source, closer_peers, query_id);
        proof {
            assert(discovered_from(mid, self@, source@, closer_peers@, query_id));
        }
    }

    /// Takes in the answer of `source` to a provider lookup of the query
    /// `query_id`: the peers it gave, the closer ones and then the
    /// providers, are taken in (see `on_find_node_res`), and the ids of the
    /// providers join those of the query (see
    /// `QueryInfo::on_get_providers_res`), if it is still there.
    pub fn on_get_providers_res(&mut self, source: Vec<u8>, closer_peers: Vec<KadPeer>, provider_peers: Vec<KadPeer>, query_id: QueryId)
        requires
            old(self).wf(),
        ensures
            final(self).wf(),
            exists|all: Seq<KadPeer>, mid: KademliaView| {
                &&& all.len() == closer_peers@.len() + provider_peers@.len()
                &&& forall|i: int| 0 <= i < all.len() ==> same_peer(#[trigger] all[i], (closer_peers@ + provider_peers@)[i])
                &&& #[trigger] discovered_from(old(self)@, mid, source@, all, query_id)
                &&& final(self)@ == (KademliaView { queries: final(self)@.queries, ..mid })
                &&& final(self)@.queries.next_id == mid.queries.next_id
                &&& final(self)@.queries.config == mid.queries.config
                &&& final(self)@.queries.queries.len() == mid.queries.queries.len()
                &&& forall|i: int| 0 <= i < mid.queries.queries.len() ==> {
                    let q = mid.queries.queries[i];
                    let f = #[trigger] final(self)@.queries.queries[i];
                    if q.id == query_id {
                        &&& f == (QueryView { inner: f.inner, ..q })
                        &&& match q.inner {
                            QueryInfo::GetProviders { key, providers } => f.inner matches QueryInfo::GetProviders { key: k2, providers: p2 }
                                && k2 == key && byte_views(p2@) == byte_views(providers@) + provider_peers@.map_values(|p: KadPeer| p.node_id@),
                            _ => f.inner == q.inner,
                        }
                    } else {
                        f == q
                    }
                }
            },
    {
        let mut all = closer_peers;
        let ghost target = all@ + provider_peers@;
        let mut j: usize = 0;
        while j < provider_peers.len()
            invariant
                0 <= j <= provider_peers@.len(),
                target == closer_peers@ + provider_peers@,
                all@.len() == closer_peers@.len() + j,
                forall|i: int| 0 <= i < all@.len() ==> same_peer(#[trigger] all@[i], target[i]),
            decreases provider_peers@.len() - j,
        {
            let c = copy_peer(&provider_peers[j]);
            let ghost before = all@;
            all.push(c);
            proof {
                assert forall|i: int| 0 <= i < all@.len() implies same_peer(#[trigger] all@[i], target[i]) by {
                    if i < before.len() {
                        assert(all@[i] == before[i]);
                    }
                }
            }
            j += 1;
        }
        let ghost all_v = all@;
        self.on_find_node_res(source, all, query_id);
        let ghost mid = self@;
        let placeholder = QueryInfo::Bootstrap { peer: Vec::new() };
        let ghost ph = placeholder;
        let ghost p0 = self@.queries;
        proof {
            self.queries.lemma_unique_ids();
        }
        match self.queries.replace_inner(&query_id, placeholder) {
            Some(info) => {
                let mut info = info;
                let ghost before = info;
                let ghost k = choose|k: int| 0 <= k < p0.queries.len() && p0.queries[k].id == query_id
                    && before == p0.queries[k].inner;
                let ghost p2 = self@.queries;
                info.on_get_providers_res(provider_peers);
                let ghost after = info;
                let _ = self.queries.replace_inner(&query_id, info);
                proof {
                    assert forall|i: int| 0 <= i < p0.queries.len() implies #[trigger] self@.queries.queries[i] == if p0.queries[i].id == query_id {
                        QueryView { inner: after, ..p0.queries[i] }
                    } else {
                        p0.queries[i]
                    } by {
                        if p0.queries[i].id == query_id {
                            if i != k {
                                assert(p0.queries[i].id != p0.queries[k].id);
                            }
                            assert(p2.queries[i] == (QueryView { inner: ph, ..p0.queries[i] }));
                        }
                    }
                }
            },
            None => {
                proof {
                    assert forall|i: int| 0 <= i < p0.queries.len() implies #[trigger] self@.queries.queries[i] == p0.queries[i] by {
                        assert(p0.queries[i].id != query_id);
                    }
                }
            },
        }
        proof {
            assert(self@ == (KademliaView { queries: self@.queries, ..mid }));
            assert(discovered_from(old(self)@, mid, source@, all_v, query_id));
        }
    }

    /// Reports to the query `query_id` that the request to `source` failed;
    /// nothing where the query is gone. Nothing else changes.
    pub fn on_query_error(&mut self, source: Vec<u8>, query_id: QueryId)
        requires
            old(self).wf(),
        ensures
            final(self).wf(),
            final(self)@.store == old(self)@.store,
            final(self)@.table == old(self)@.table,
            final(self)@.events == old(self)@.events,
            final(self)@.record_ttl == old(self)@.record_ttl,
            final(self)@.provider_record_ttl == old(self)@.provider_record_ttl,
            final(self)@.queries.next_id == old(self)@.queries.next_id,
            final(self)@.queries.config == old(self)@.queries.config,
            final(self)@.queries.queries.len() == old(self)@.queries.queries.len(),
            forall|i: int| 0 <= i < old(self)@.queries.queries.len() ==> #[trigger] final(self)@.queries.queries[i] == if old(self)@.queries.queries[i].id == query_id {
                QueryView {
                    iter: match old(self)@.queries.queries[i].iter {
                        QueryPeerIterView::Closest(v) => QueryPeerIterView::Closest(v.after_failure(source@)),
                        QueryPeerIterView::Fixed(v) => QueryPeerIterView::Fixed(v.after_result(source@, PeerState::Failed)),
                    },
                    ..old(self)@.queries.queries[i]
                }
            } else {
                old(self)@.queries.queries[i]
            },
    {
        self.queries.on_failure(&query_id, &source);
    }

    /// Looks up the peers closest to `key`. The result is reported when the
    /// query ends.
    pub fn get_closest_peers(&mut self, key: Vec<u8>)
        requires
            old(self).wf(),
        ensures
            final(self).wf(),
            old(self)@.lookup_started(final(self)@, sha256_digest(key@)),
            final(self)@.queries.queries.last().inner matches QueryInfo::GetClosestPeers { key: k } && k@ == key@,
            final(self)@.store == old(self)@.store,
            final(self)@.events == old(self)@.events,
    {
        let info = QueryInfo::GetClosestPeers { key: copy_bytes(&key) };
        let target = KbKey::new(key);
        self.start_lookup(target, info);
    }

    /// Looks up the providers of `key`.
    pub fn get_providers(&mut self, key: Key)
        requires
            old(self).wf(),
        ensures
            final(self).wf(),
            old(self)@.lookup_started(final(self)@, sha256_digest(key@)),
            final(self)@.queries.queries.last().inner matches QueryInfo::GetProviders { key: k, providers }
                && k@ == key@ && providers@.len() == 0,
            final(self)@.store == old(self)@.store,
            final(self)@.events == old(self)@.events,
    {
        let target = KbKey::new(key.to_vec());
        let info = QueryInfo::GetProviders { key, providers: Vec::new() };
        self.start_lookup(target, info);
    }

    /// Joins the network: looks up the local node's own id. Once that
    /// lookup finishes, the buckets beyond the closest neighbour are to be
    /// refreshed (see `query_finished`).
    pub fn bootstrap(&mut self)
        requires
            old(self).wf(),
        ensures
            final(self).wf(),
            old(self)@.lookup_started(final(self)@, old(self)@.table.local()),
            final(self)@.queries.queries.last().inner matches QueryInfo::Bootstrap { peer } && peer@ == old(self)@.local_id(),
            final(self)@.store == old(self)@.store,
            final(self)@.events == old(self)@.events,
    {
        let local_key = self.kbuckets.local_key().clone_key();
        let info = QueryInfo::Bootstrap { peer: copy_bytes(local_key.preimage()) };
        self.start_lookup(local_key, info);
    }

    /// Starts a lookup towards the key of the peer id `target`, as a
    /// bootstrap of that id.
    fn start_bootstrap(&mut self, target: Vec<u8>)
        requires
            old(self).wf(),
        ensures
            final(self).wf(),
            bootstrap_step(old(self)@, final(self)@, target@),
            final(self)@.table.local_key == old(self)@.table.local_key,
    {
        let info = QueryInfo::Bootstrap { peer: copy_bytes(&target) };
        let ghost tv = target@;
        self.start_lookup(KbKey::new(target), info);
        proof {
            lemma_bootstrap_step(old(self)@, self@, tv);
            crate::kbucket::table::lemma_along_local(old(self)@.table, self@.table,
                visit_order(xor_bytes(old(self)@.table.local(), sha256_digest(tv))));
        }
    }

    /// Applies all pending entries of the table and finds the first
    /// non-empty bucket.
    fn apply_all_pending(&mut self) -> (f: usize)
        requires
            old(self).wf(),
        ensures
            final(self).wf(),
            all_applied(old(self)@.table, final(self)@.table),
            final(self)@ == (KademliaView { table: final(self)@.table, ..old(self)@ }),
            f == first_nonempty_from(final(self)@.table.buckets, 0),
            f <= NUM_BUCKETS,
    {
        let mut f: usize = 0;
        let ghost bs: Seq<KBucketView<KbKey, Addresses>>;
        {
            let refs = self.kbuckets.iter();
            proof {
                bs = Seq::new(NUM_BUCKETS as nat, |i: int| refs@[i].bucket@);
            }
            while f < NUM_BUCKETS && refs[f].is_empty()
                invariant
                    0 <= f <= NUM_BUCKETS,
                    refs@.len() == NUM_BUCKETS,
                    bs.len() == NUM_BUCKETS,
                    forall|i: int| 0 <= i < NUM_BUCKETS ==> (#[trigger] refs@[i]).bucket@ == bs[i] && bs[i].wf(),
                    first_nonempty_from(bs, 0) == first_nonempty_from(bs, f as int),
                decreases NUM_BUCKETS - f,
            {
                f += 1;
            }
        }
        assert(self@.table.buckets =~= bs);
        assert(all_applied(old(self)@.table, self@.table)) by {
            reveal(all_applied);
        }
        f
    }

    /// Completes a bootstrap: refreshes every bucket farther than the one
    /// of the closest neighbour (the first non-empty bucket), in increasing
    /// order, by a lookup towards a peer id whose key falls into it. The
    /// ids are drawn elsewhere: `candidates[i]` are those drawn for bucket
    /// `i`, and the first whose key falls into the bucket is taken, else
    /// the last. All pending entries of the table are applied first.
    pub fn bootstrap_refresh(&mut self, candidates: Vec<Vec<Vec<u8>>>)
        requires
            old(self).wf(),
            candidates@.len() == NUM_BUCKETS,
            forall|i: int| 0 <= i < NUM_BUCKETS ==> (#[trigger] candidates@[i])@.len() >= 1,
        ensures
            final(self).wf(),
            exists|states: Seq<KademliaView>|
                all_applied(old(self)@.table, states[0].table)
                && states[0] == (KademliaView { table: states[0].table, ..old(self)@ })
                && #[trigger] refresh_chain(states, cands_view(candidates@))
                && states.last() == final(self)@,
    {
        let f = self.apply_all_pending();
        let ghost t = self.kbuckets@;
        let ghost start = self@;
        assert(start == (KademliaView { table: t, ..old(self)@ }));
        let ghost cands = cands_view(candidates@);
        let ghost mut states: Seq<KademliaView> = seq![self@];
        let mut i: usize = f + 1;
        while i < NUM_BUCKETS
            invariant
                self.wf(),
                f == first_nonempty_from(t.buckets, 0),
                f + 1 <= i,
                f + 1 < NUM_BUCKETS ==> i <= NUM_BUCKETS,
                f + 1 >= NUM_BUCKETS ==> i == f + 1,
                f <= NUM_BUCKETS,
                states.len() == i - f,
                states[0] == start,
                start.table == t,
                states.last() == self@,
                cands == cands_view(candidates@),
                candidates@.len() == NUM_BUCKETS,
                forall|c: int| 0 <= c < NUM_BUCKETS ==> (#[trigger] candidates@[c])@.len() >= 1,
                self@.table.local_key == t.local_key,
                refresh_steps(states, cands, t.local(), f as int),
            decreases NUM_BUCKETS - i,
        {
            let target = pick_refresh_target(self.kbuckets.local_key(), i, &candidates[i]);
            let ghost before = self@;
            self.start_bootstrap(target);
            proof {
                lemma_refresh_push(states, self@, cands, t.local(), f as int);
                states = states.push(self@);
            }
            i += 1;
        }
        proof {
            assert(states.len() == (if f + 1 < NUM_BUCKETS { NUM_BUCKETS - f } else { 1 }));
            assert(refresh_chain(states, cands));
            assert(states[0] == (KademliaView { table: states[0].table, ..old(self)@ }));
        }
    }

    /// Looks up the records of `key`, `quorum` of them out of the
    /// replication factor. A record stored locally counts, unless it has
    /// expired, in which case it is removed; with a quorum of one, it is
    /// the result at once and no query starts.
    pub fn get_record(&mut self, key: &Key, quorum: Quorum)
        requires
            old(self).wf(),
            quorum matches Quorum::N(n) ==> n >= 1,
        ensures
            final(self).wf(),
            ({
                let q = quorum_of(quorum, old(self)@.queries.config.replication_factor);
                match old(self)@.store.lookup(key@) {
                    None => final(self)@.store == old(self)@.store
                        && record_lookup_started(old(self)@, final(self)@, key@, None, q),
                    Some(rv) => {
                        let expired = final(self)@.store == old(self)@.store.without_record(key@)
                            && record_lookup_started(old(self)@, final(self)@, key@, None, q);
                        let kept = final(self)@.store == old(self)@.store && if q == 1 {
                            &&& final(self)@.queries == old(self)@.queries
                            &&& final(self)@.table == old(self)@.table
                            &&& event_added(old(self)@.events, final(self)@.events)
                            &&& final(self)@.events.last() matches KademliaAction::GenerateEvent(KademliaEvent::GetRecordResult(Ok(ok)))
                                && ok.records@.len() == 1 && ok.records@[0]@ == rv
                        } else {
                            record_lookup_started(old(self)@, final(self)@, key@, Some(rv), q)
                        };
                        &&& rv.expires is None ==> kept
                        &&& expired || kept
                    },
                }
            }),
            exists|now: Instant| #[trigger] record_fetched(old(self)@, final(self)@, key@,
                quorum_of(quorum, old(self)@.queries.config.replication_factor), now),
    {
        let q = quorum.eval(self.queries.config().replication_factor);
        let mut records: Vec<Record> = Vec::new();
        let now = instant_now();
        let ghost qi = q as int;
        let found = match self.store.get(key) {
            Some(record) => if record.is_expired(now) { None } else { Some(copy_record(record)) },
            None => None,
        };
        if found.is_none() && self.store.get(key).is_some() {
            self.store.remove(key);
        }
        match found {
            Some(record) => {
                records.push(record);
                if q == 1 {
                    let ghost before = self.queued_events@;
                    self.queued_events.push(KademliaAction::GenerateEvent(KademliaEvent::GetRecordResult(Ok(GetRecordOk { records }))));
                    proof {
                        assert(self.queued_events@.drop_last() =~= before);
                        assert(record_fetched(old(self)@, self@, key@, qi, now));
                    }
                    return;
                }
            },
            None => {},
        }
        let target = KbKey::new(key.to_vec());
        let info = QueryInfo::GetRecord { key: Key::from_vec(key.to_vec()), records, quorum: q, cache_at: None };
        self.start_lookup(target, info);
        proof {
            assert(record_fetched(old(self)@, self@, key@, qi, now));
        }
    }

    /// Stores `record`, published by the local node: locally at once, and,
    /// when that succeeds, at the peers closest to its key, with `quorum`
    /// of them out of the replication factor to succeed. A record without
    /// expiry is given the configured time to live for the copies at other
    /// peers.
    pub fn put_record(&mut self, record: Record, quorum: Quorum)
        requires
            old(self).wf(),
            quorum matches Quorum::N(n) ==> n >= 1,
        ensures
            final(self).wf(),
            ({
                let stored = published(record@, old(self)@.local_id());
                match old(self)@.store.put_outcome(stored) {
                    Err(e) => {
                        &&& final(self)@.store == old(self)@.store
                        &&& final(self)@.queries == old(self)@.queries
                        &&& final(self)@.table == old(self)@.table
                        &&& event_added(old(self)@.events, final(self)@.events)
                        &&& final(self)@.events.last() matches KademliaAction::GenerateEvent(KademliaEvent::PutRecordResult(
                            Err(PutRecordError::LocalStorageError { key, cause }))) && key@ == record.key@ && cause == e
                    },
                    Ok(_) => {
                        &&& final(self)@.store == old(self)@.store.with_record(stored)
                        &&& final(self)@.events == old(self)@.events
                        &&& old(self)@.lookup_started(final(self)@, sha256_digest(record.key@))
                        &&& final(self)@.queries.queries.last().inner matches QueryInfo::PreparePutRecord {
                            record: r2, quorum: q2, context }
                            && r2@.key == stored.key && r2@.value == stored.value && r2@.publisher == stored.publisher
                            && (record.expires is Some ==> r2.expires == record.expires)
                            && (record.expires is None && old(self)@.record_ttl is None ==> r2.expires is None)
                            && q2 == quorum_of(quorum, old(self)@.queries.config.replication_factor)
                            && context == PutRecordContext::Publish
                    },
                }
            }),
            old(self)@.store.put_outcome(published(record@, old(self)@.local_id())) is Ok && record.expires is None
                && old(self)@.record_ttl is Some ==> exists|now: Instant|
                (final(self)@.queries.queries.last().inner matches QueryInfo::PreparePutRecord { record: r2, .. }
                    && r2.expires == #[trigger] instant_plus(now, old(self)@.record_ttl->0)),
    {
        let mut rec = record;
        rec.publisher = Some(copy_bytes(self.kbuckets.local_key().preimage()));
        assert(rec@ == published(record@, self@.local_id()));
        match self.store.put(copy_record(&rec)) {
            Err(err) => {
                let ghost before = self.queued_events@;
                self.queued_events.push(KademliaAction::GenerateEvent(KademliaEvent::PutRecordResult(Err(
                    PutRecordError::LocalStorageError { key: rec.key, cause: err },
                ))));
                proof {
                    assert(self.queued_events@.drop_last() =~= before);
                }
            },
            Ok(()) => {
                if rec.expires.is_none() {
                    match self.record_ttl {
                        Some(ttl) => {
                            let now = instant_now();
                            rec.expires = instant_checked_add(now, ttl);
                            proof {
                                assert(rec.expires == instant_plus(now, old(self)@.record_ttl->0));
                            }
                        },
                        None => {},
                    }
                }
                let q = quorum.eval(self.queries.config().replication_factor);
                let target = KbKey::new(rec.key.to_vec());
                let ghost rexp = rec.expires;
                let info = QueryInfo::PreparePutRecord { record: rec, quorum: q, context: PutRecordContext::Publish };
                self.start_lookup(target, info);
                proof {
                    if record.expires is None && old(self)@.record_ttl is Some {
                        let now = choose|now: Instant| rexp == instant_plus(now, old(self)@.record_ttl->0);
                        assert(instant_plus(now, old(self)@.record_ttl->0) == rexp);
                    }
                }
            },
        }
    }

    /// Removes the record of `key` from the local store if the local node
    /// published it. Nothing else changes.
    pub fn remove_record(&mut self, key: &Key)
        requires
            old(self).wf(),
        ensures
            final(self).wf(),
            final(self)@ == (KademliaView {
                store: if old(self)@.store.lookup(key@) matches Some(rv) && rv.publisher == Some(old(self)@.local_id()) {
                    old(self)@.store.without_record(key@)
                } else {
                    old(self)@.store
                },
                ..old(self)@
            }),
    {
        let mine = match self.store.get(key) {
            Some(r) => match &r.publisher {
                Some(p) => same_bytes(p, self.kbuckets.local_key().preimage()),
                None => false,
            },
            None => false,
        };
        if mine {
            self.store.remove(key);
        }
    }

    /// Announces the local node as a provider of `key`: locally at once,
    /// and, when that succeeds, to the peers closest to the key.
    pub fn start_providing(&mut self, key: Key)
        requires
            old(self).wf(),
        ensures
            final(self).wf(),
            ({
                let rec = ProviderView { key: key@, provider: old(self)@.local_id(), expires: None, addresses: Seq::empty() };
                match old(self)@.store.add_provider_outcome(rec) {
                    Err(e) => {
                        &&& final(self)@.store == old(self)@.store
                        &&& final(self)@.queries == old(self)@.queries
                        &&& final(self)@.table == old(self)@.table
                        &&& event_added(old(self)@.events, final(self)@.events)
                        &&& final(self)@.events.last() matches KademliaAction::GenerateEvent(KademliaEvent::StartProvidingResult(
                            Err(AddProviderError::LocalStorageError { key: k, cause }))) && k@ == key@ && cause == e
                    },
                    Ok(_) => {
                        &&& final(self)@.store == old(self)@.store.with_provider(rec)
                        &&& final(self)@.events == old(self)@.events
                        &&& old(self)@.lookup_started(final(self)@, sha256_digest(key@))
                        &&& final(self)@.queries.queries.last().inner matches QueryInfo::PrepareAddProvider { key: k, context }
                            && k@ == key@ && context == AddProviderContext::Publish
                    },
                }
            }),
    {
        let addrs: Vec<Vec<u8>> = Vec::new();
        proof {
            assert(byte_views(addrs@) =~= Seq::empty());
        }
        let record = ProviderRecord::new(Key::from_vec(key.to_vec()), copy_bytes(self.kbuckets.local_key().preimage()), addrs);
        match self.store.add_provider(record) {
            Err(err) => {
                let ghost before = self.queued_events@;
                self.queued_events.push(KademliaAction::GenerateEvent(KademliaEvent::StartProvidingResult(Err(
                    AddProviderError::LocalStorageError { key, cause: err },
                ))));
                proof {
                    assert(self.queued_events@.drop_last() =~= before);
                }
            },
            Ok(()) => {
                let target = KbKey::new(key.to_vec());
                let info = QueryInfo::PrepareAddProvider { key, context: AddProviderContext::Publish };
                self.start_lookup(target, info);
            },
        }
    }

    /// Stops announcing the local node as a provider of `key`: its provider
    /// record leaves the local store. Other nodes keep theirs until they
    /// expire.
    pub fn stop_providing(&mut self, key: &Key)
        requires
            old(self).wf(),
        ensures
            final(self).wf(),
            final(self)@ == (KademliaView { store: old(self)@.store.without_provider(key@, old(self)@.local_id()), ..old(self)@ }),
    {
        let local = copy_bytes(self.kbuckets.local_key().preimage());
        self.store.remove_provider(key, &local);
    }
}

} // verus!
