//! A routing key made of a peer id and the SHA-256 hash of its bytes.

use vstd::prelude::*;
use crate::kbucket::key::{sha256, sha256_digest};
use crate::record::copy_bytes;

verus! {

/// A peer id together with the SHA-256 hash of its bytes, so that the id
/// can be found again from the key.
#[derive(Debug, PartialEq)]
pub struct KadHash {
    peer_id: Vec<u8>,
    hash: [u8; 32],
}

impl KadHash {
    /// The hash is the digest of the peer id.
    #[verifier::type_invariant]
    spec fn hash_matches(self) -> bool {
        self.hash@ == sha256_digest(self.peer_id@)
    }

    /// The peer id.
    pub closed spec fn peer_id_view(self) -> Seq<u8> {
        self.peer_id@
    }

    /// The key of `peer_id`: the id and its SHA-256 hash.
    pub fn from_peer_id(peer_id: Vec<u8>) -> (r: KadHash)
        ensures
            r.peer_id_view() == peer_id@,
    {
        let hash = sha256(peer_id.as_slice());
        KadHash { peer_id, hash }
    }

    /// The peer id.
    pub fn peer_id(&self) -> (r: &Vec<u8>)
        ensures
            r@ == self.peer_id_view(),
    {
        &self.peer_id
    }

    /// The SHA-256 hash of the peer id.
    pub fn hash(&self) -> (r: &[u8; 32])
        ensures
            r@ == sha256_digest(self.peer_id_view()),
    {
        proof {
            use_type_invariant(self);
        }
        &self.hash
    }
}

impl Clone for KadHash {
    fn clone(&self) -> (r: Self)
        ensures
            r.peer_id_view() == self.peer_id_view(),
    {
        proof {
            use_type_invariant(self);
        }
        KadHash { peer_id: copy_bytes(&self.peer_id), hash: self.hash }
    }
}

} // verus!
