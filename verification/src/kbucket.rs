//! A Kademlia routing table: buckets of peers, ordered by the XOR distance
//! of their keys to the local key.
//!
//! The bucket at index `i` holds the keys whose distance to the local key
//! has its most significant set bit at position `i`.

use vstd::prelude::*;

pub mod key;
pub mod sub_bucket;
pub mod bucket;
pub mod swamp;
pub mod weighted;
pub mod closest;
pub mod sorting;
pub mod placement;
pub mod table;
pub mod ordering;
pub mod weighted_iter;

verus! {

/// The number of buckets of a routing table.
pub const NUM_BUCKETS: usize = 256;

} // verus!
