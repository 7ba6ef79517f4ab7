//! A peer's addresses together with its public key.

use vstd::prelude::*;
use crate::addresses::{Addresses, byte_views};

verus! {

/// How to reach a peer, and the key it identifies itself with (the bytes
/// of its Ed25519 public key).
#[derive(Clone)]
pub struct Contact {
    pub addresses: Addresses,
    pub public_key: Vec<u8>,
}

impl Contact {
    /// A contact with the given addresses and key.
    pub fn new(addresses: Addresses, public_key: Vec<u8>) -> (r: Self)
        ensures
            r.addresses == addresses,
            r.public_key == public_key,
    {
        Contact { addresses, public_key }
    }

    /// The first address.
    pub fn first(&self) -> (r: &Vec<u8>)
        requires
            self.addresses.wf(),
        ensures
            r@ == self.addresses@[0],
    {
        self.addresses.first()
    }

    /// The addresses, in order.
    pub fn iter(&self) -> (r: &[Vec<u8>])
        ensures
            byte_views(r@) == self.addresses@,
    {
        self.addresses.iter()
    }

    /// The number of addresses.
    pub fn len(&self) -> (r: usize)
        ensures
            r == self.addresses@.len(),
    {
        self.addresses.len()
    }

    /// The addresses, in order.
    pub fn into_vec(self) -> (r: Vec<Vec<u8>>)
        ensures
            byte_views(r@) == self.addresses@,
    {
        self.addresses.into_vec()
    }

    /// Adds an address that is not there yet, at the end; tells whether
    /// it was added.
    pub fn insert(&mut self, addr: Vec<u8>) -> (r: bool)
        requires
            old(self).addresses.wf(),
        ensures
            final(self).addresses.wf(),
            final(self).public_key == old(self).public_key,
            r == !old(self).addresses@.contains(addr@),
            r ==> final(self).addresses@ == old(self).addresses@.push(addr@),
            !r ==> final(self).addresses@ == old(self).addresses@,
    {
        self.addresses.insert(addr)
    }

    /// The addresses.
    pub fn into_addresses(self) -> (r: Addresses)
        ensures
            r == self.addresses,
    {
        self.addresses
    }
}

} // verus!
