//! The input contract: the header fields and per-record fields the
//! indexer reads, as plain values.
//!
//! An external reader decodes alignment records from their wire format
//! and hands the indexer one `Record` per alignment, in stream order,
//! together with the byte range (as a chunk of virtual offsets) that
//! bounds the record's on-disk representation.

use vstd::prelude::*;

use crate::binning::MAX_COORDINATE;
use crate::chunk::Chunk;

verus! {

/// The sort order a header declares for its record stream.
#[derive(Clone, Copy, Debug, PartialEq, Eq, Structural)]
pub enum SortOrder {
    Unknown,
    Unsorted,
    QueryName,
    Coordinate,
}

/// What the indexer reads from an alignment header: the declared sort
/// order, if any, and the number of declared reference sequences.
#[derive(Clone, Copy, Debug)]
pub struct Header {
    pub reference_count: usize,
    pub sort_order: Option<SortOrder>,
}

/// Whether the header declares its records coordinate-sorted. A header
/// that declares no sort order at all does not.
pub fn is_coordinate_sorted(header: &Header) -> (r: bool)
    ensures
        r == (header.sort_order == Some(SortOrder::Coordinate)),
{
    matches!(header.sort_order, Some(SortOrder::Coordinate))
}

/// One alignment record, reduced to what indexing reads: an optional
/// reference sequence id, an optional 0-based half-open span, the
/// mapped flag, and the byte range bounding the record on disk.
#[derive(Clone, Copy, Debug)]
pub struct Record {
    pub reference_id: Option<usize>,
    pub start: Option<u32>,
    pub end: Option<u32>,
    pub mapped: bool,
    pub chunk: Chunk,
}

impl Record {
    /// A record with a full alignment context: reference, start and
    /// end all present. Only such records feed the per-reference
    /// aggregators; all others count as unplaced.
    pub open spec fn placed(self) -> bool {
        self.reference_id is Some && self.start is Some && self.end is Some
    }

    /// Coordinates stay inside the five-level scheme's space.
    pub open spec fn wf(self) -> bool {
        &&& (self.start is Some ==> self.start->0 < MAX_COORDINATE)
        &&& (self.end is Some ==> self.end->0 <= MAX_COORDINATE)
    }

    /// Checks `wf` executably, for callers that receive records from
    /// an unverified reader.
    pub fn is_wf(&self) -> (r: bool)
        ensures
            r == self.wf(),
    {
        let start_ok = match self.start {
            Some(s) => s < MAX_COORDINATE,
            None => true,
        };
        let end_ok = match self.end {
            Some(e) => e <= MAX_COORDINATE,
            None => true,
        };
        start_ok && end_ok
    }
}

} // verus!
