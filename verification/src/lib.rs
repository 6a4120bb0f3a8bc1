//! A streaming builder for a coordinate-based random-access index
//! (hierarchical-bin / linear-index family) over a sorted stream of
//! alignment records, together with a deterministic binary encoder and
//! decoder for the finished structure.

pub mod binning;
pub mod chunk;
pub mod codec;
pub mod error;
pub mod indexer;
pub mod linear;
pub mod metadata;
pub mod record;
pub mod virtual_offset;
