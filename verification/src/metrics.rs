//! The kinds of messages that the metrics of the protocol count.

use vstd::prelude::*;

verus! {

/// The kind of a counted message.
#[derive(Debug, Copy, Clone, PartialEq, Eq, Structural)]
pub enum Kind {
    /// A request.
    Request,
    /// A response.
    Response,
    /// An error.
    Error,
}

} // verus!
