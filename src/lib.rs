use vstd::prelude::*;

pub mod bytes;
pub mod report;
pub mod scan;
pub mod split;
pub mod stat;
pub mod table;
pub mod temp;

verus! {

/// Why a computation failed.
#[derive(Clone, Copy, Debug, PartialEq, Eq, Structural)]
pub enum Error {
    /// The input could not be opened, measured, read or mapped.
    Io,
    /// The record starting at this byte offset breaks the record grammar.
    MalformedRecord { offset: usize },
    /// An internal invariant does not hold.
    Internal,
}

} // verus!
