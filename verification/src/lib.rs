//! A Kademlia routing table and the peer-selection logic around it, with
//! contracts proved by Verus.
//!
//! The routing table (`kbucket`) partitions the known peers into buckets by
//! their XOR distance to the local key. Every bucket keeps a "swamp" of
//! unweighted peers and a weighted part, each ordered from the
//! least-recently to the most-recently (dis)connected peer.

use vstd::prelude::*;

pub mod time;
pub mod kbucket;
pub mod random;
pub mod query;
pub mod parity;
pub mod indexed_stream;
pub mod kad_server;
pub mod metrics;
pub mod handler;
pub mod addresses;
pub mod record;
pub mod high_level;
pub mod behaviour;
pub mod write;
pub mod kad_hash;
pub mod contact;
pub mod protocol;

verus! {

/// The `k` parameter of the Kademlia specification: the maximum number of
/// nodes in the unweighted part of a bucket, and the default replication
/// factor.
pub const K_VALUE: usize = 20;

/// The `α` parameter of the Kademlia specification: the default
/// parallelism of iterative queries.
pub const ALPHA_VALUE: usize = 3;

/// The maximum number of nodes in the weighted part of a bucket.
pub const W_VALUE: usize = 20;

} // verus!
