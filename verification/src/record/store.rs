//! Record storage.

use vstd::prelude::*;

pub mod memory;

verus! {

/// The errors a record store gives back.
#[derive(Debug, Copy, Clone, PartialEq, Eq)]
pub enum Error {
    /// The store is at capacity w.r.t. the total number of stored records.
    MaxRecords,
    /// The store is at capacity w.r.t. the total number of stored provider
    /// records.
    MaxProvidedKeys,
    /// The store cannot store this value because it exceeds its maximum
    /// permitted size.
    ValueTooLarge,
}

impl Error {
    /// A description of the error.
    pub fn description(&self) -> (r: &'static str)
        ensures
            r@ == (match *self {
                Error::MaxRecords => "the store cannot contain any more records"@,
                Error::MaxProvidedKeys => "the store cannot contain any more provider records"@,
                Error::ValueTooLarge => "the value is too large to be stored"@,
            }),
    {
        match self {
            Error::MaxRecords => "the store cannot contain any more records",
            Error::MaxProvidedKeys => "the store cannot contain any more provider records",
            Error::ValueTooLarge => "the value is too large to be stored",
        }
    }
}

} // verus!
