//! Per-reference metadata: mapped/unmapped record counts and the
//! observed virtual-offset bounds.

use vstd::prelude::*;

use crate::chunk::Chunk;
use crate::virtual_offset::VirtualOffset;

verus! {

/// Finalized metadata of one reference sequence. `first` and `last`
/// are the least start offset and the greatest end offset observed;
/// they are `None` exactly while no record has been counted.
#[derive(Clone, Copy, Debug, PartialEq, Eq)]
pub struct Metadata {
    pub mapped: u64,
    pub unmapped: u64,
    pub first: Option<VirtualOffset>,
    pub last: Option<VirtualOffset>,
}

/// Metadata before any record.
pub open spec fn spec_meta_init() -> Metadata {
    Metadata { mapped: 0, unmapped: 0, first: None, last: None }
}

/// Counts are zero exactly when no offset bound has been observed.
pub open spec fn spec_meta_coherent(m: Metadata) -> bool {
    &&& (m.mapped == 0 && m.unmapped == 0) <==> m.first is None
    &&& (m.first is None <==> m.last is None)
}

/// One record's effect: bump the matching counter and widen the
/// offset bounds.
pub open spec fn spec_meta_add(m: Metadata, mapped_flag: bool, c: Chunk) -> Metadata {
    Metadata {
        mapped: if mapped_flag {
            (m.mapped + 1) as u64
        } else {
            m.mapped
        },
        unmapped: if mapped_flag {
            m.unmapped
        } else {
            (m.unmapped + 1) as u64
        },
        first: match m.first {
            None => Some(c.start),
            Some(f) => Some(
                if c.start.value < f.value {
                    c.start
                } else {
                    f
                },
            ),
        },
        last: match m.last {
            None => Some(c.end),
            Some(l) => Some(
                if c.end.value > l.value {
                    c.end
                } else {
                    l
                },
            ),
        },
    }
}

/// Accumulates the metadata of one reference sequence.
#[derive(Debug)]
pub struct MetadataAggregator {
    meta: Metadata,
}

impl View for MetadataAggregator {
    type V = Metadata;

    closed spec fn view(&self) -> Metadata {
        self.meta
    }
}

impl MetadataAggregator {
    /// Starts with zero counts and no offset bounds.
    pub fn new() -> (a: MetadataAggregator)
        ensures
            a@ == spec_meta_init(),
    {
        MetadataAggregator { meta: Metadata { mapped: 0, unmapped: 0, first: None, last: None } }
    }

    /// Counts one record of this reference and widens the bounds by
    /// its chunk.
    pub fn update(&mut self, mapped_flag: bool, c: Chunk)
        requires
            old(self)@.mapped < u64::MAX,
            old(self)@.unmapped < u64::MAX,
        ensures
            final(self)@ == spec_meta_add(old(self)@, mapped_flag, c),
    {
        if mapped_flag {
            self.meta.mapped = self.meta.mapped + 1;
        } else {
            self.meta.unmapped = self.meta.unmapped + 1;
        }
        self.meta.first = match self.meta.first {
            None => Some(c.start),
            Some(f) => Some(
                if c.start.value < f.value {
                    c.start
                } else {
                    f
                },
            ),
        };
        self.meta.last = match self.meta.last {
            None => Some(c.end),
            Some(l) => Some(
                if c.end.value > l.value {
                    c.end
                } else {
                    l
                },
            ),
        };
    }

    /// Hands out the accumulated metadata.
    pub fn finalize(self) -> (m: Metadata)
        ensures
            m == self@,
    {
        self.meta
    }
}

} // verus!
