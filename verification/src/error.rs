//! Error taxonomy for index construction and encoding.
//!
//! Every error is fatal for the current build: a partial index would
//! silently corrupt downstream range queries, so there is no
//! partial-success mode.

use vstd::prelude::*;

verus! {

/// The ways an index build, encode, or decode can fail.
#[derive(Clone, Copy, Debug, PartialEq, Eq, Structural)]
pub enum IndexError {
    /// The input header is missing or could not be understood.
    Header,
    /// The header declares a sort order other than coordinate order.
    SortOrder,
    /// A record names a reference sequence outside the header's declared range.
    InvalidReference,
    /// A virtual-offset component exceeds its bit width, or a count
    /// exceeds the width the binary layout gives it.
    EncodingOverflow,
    /// A serialized index could not be decoded.
    Malformed,
}

} // verus!
