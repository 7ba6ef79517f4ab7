//! A stream tagged with an index.

use vstd::prelude::*;

verus! {

/// A stream together with an index that tags each of its items.
#[derive(Debug)]
pub struct IndexedStream<I, S> {
    index: I,
    stream: S,
}

impl<I, S> IndexedStream<I, S> {
    /// The index.
    pub closed spec fn spec_index(&self) -> I {
        self.index
    }

    /// The stream.
    pub closed spec fn spec_stream(&self) -> S {
        self.stream
    }

    /// Tags `stream` with `index`.
    pub fn new(index: I, stream: S) -> (r: Self)
        ensures
            r.spec_index() == index,
            r.spec_stream() == stream,
    {
        Self { index, stream }
    }

    /// The index.
    pub fn index(&self) -> (r: &I)
        ensures
            *r == self.spec_index(),
    {
        &self.index
    }
}

} // verus!
