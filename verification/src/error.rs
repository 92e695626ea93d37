//! The kinds of failure that the engine and its callers distinguish.

use vstd::prelude::*;

verus! {

/// Why a table could not be loaded or a query could not be answered.
#[derive(Clone, Copy, Debug, PartialEq, Eq, Structural)]
pub enum PrimeError {
    /// The source of the block counts is missing or cannot be read.
    ResourceUnavailable,
    /// A line of the source is not a non-negative decimal integer.
    MalformedTableEntry,
    /// The argument of a query lies outside what the table covers.
    OutOfRange,
}

} // verus!
