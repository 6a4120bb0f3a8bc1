//! Virtual offsets, chunks, and the binning scheme.

use bam_index::binning::{bin_of, METADATA_BIN_ID};
use bam_index::chunk::Chunk;
use bam_index::error::IndexError;
use bam_index::record::{is_coordinate_sorted, Header, SortOrder};
use bam_index::virtual_offset::VirtualOffset;

#[test]
fn encode_packs_components() {
    let v = VirtualOffset::encode(3, 17).unwrap();
    assert_eq!(v.value, (3 << 16) | 17);
    assert_eq!(v.decode(), (3, 17));
}

#[test]
fn encode_rejects_wide_block_offset() {
    assert_eq!(
        VirtualOffset::encode(1 << 48, 0),
        Err(IndexError::EncodingOverflow)
    );
}

#[test]
fn encode_rejects_wide_in_block_offset() {
    assert_eq!(
        VirtualOffset::encode(0, 0x1_0000),
        Err(IndexError::EncodingOverflow)
    );
}

#[test]
fn encode_accepts_maximal_components() {
    let v = VirtualOffset::encode(0xFFFF_FFFF_FFFF, 0xFFFF).unwrap();
    assert_eq!(v.value, u64::MAX);
    assert_eq!(v.decode(), (0xFFFF_FFFF_FFFF, 0xFFFF));
}

#[test]
fn offset_ordering_is_numeric() {
    let a = VirtualOffset::encode(1, 0xFFFF).unwrap();
    let b = VirtualOffset::encode(2, 0).unwrap();
    assert!(a.le(b));
    assert!(!b.le(a));
}

#[test]
fn chunk_new_keeps_bounds() {
    let c = Chunk::new(VirtualOffset::zero(), VirtualOffset::encode(0, 50).unwrap());
    assert_eq!(c.start.value, 0);
    assert_eq!(c.end.value, 50);
}

#[test]
fn bin_of_matches_reference_scheme() {
    // The smallest bins sit at offset 4681 and are 16384 bases wide.
    assert_eq!(bin_of(0, 1), 4681);
    assert_eq!(bin_of(100, 200), 4681);
    assert_eq!(bin_of(16384, 16385), 4682);
    // An interval crossing a 16384-base boundary climbs one level.
    assert_eq!(bin_of(16000, 17000), 585);
    // Crossing a 2^17 boundary climbs further.
    assert_eq!(bin_of(131000, 132000), 73);
    assert_eq!(bin_of(0, 1 << 20), 73);
    assert_eq!(bin_of(0, 1 << 23), 9);
    assert_eq!(bin_of(0, 1 << 26), 1);
    assert_eq!(bin_of(0, 1 << 29), 0);
    // The last in-range window maps to the largest real bin id.
    assert_eq!(bin_of((1 << 29) - 1, 1 << 29), 37448);
    assert!(37448 < METADATA_BIN_ID);
}

/// The bins a range query `[a, b)` visits: bin 0 and, on each level,
/// every bin whose span touches the query.
fn query_visits(bin: u32, a: u32, b: u32) -> bool {
    let last = b - 1;
    bin == 0
        || (1 + (a >> 26) <= bin && bin <= 1 + (last >> 26))
        || (9 + (a >> 23) <= bin && bin <= 9 + (last >> 23))
        || (73 + (a >> 20) <= bin && bin <= 73 + (last >> 20))
        || (585 + (a >> 17) <= bin && bin <= 585 + (last >> 17))
        || (4681 + (a >> 14) <= bin && bin <= 4681 + (last >> 14))
}

#[test]
fn overlapping_record_bins_are_visited_by_queries() {
    let records = [
        (100u32, 200u32),
        (16000, 17000),
        (131000, 132000),
        (0, 1 << 23),
        (40000, 40100),
        ((1 << 29) - 10, 1 << 29),
    ];
    let queries = [(0u32, 1u32 << 29), (150, 151), (16999, 132001), (39000, 41000)];
    for (s, e) in records {
        for (a, b) in queries {
            if s < b && a < e {
                assert!(
                    query_visits(bin_of(s, e), a, b),
                    "bin of [{s}, {e}) missed by query [{a}, {b})"
                );
            }
        }
    }
}

#[test]
fn degenerate_intervals_map_to_bin_zero() {
    assert_eq!(bin_of(100, 100), 0);
    assert_eq!(bin_of(200, 100), 0);
}

#[test]
fn coordinate_sort_detection() {
    let coord = Header {
        reference_count: 1,
        sort_order: Some(SortOrder::Coordinate),
    };
    let by_name = Header {
        reference_count: 1,
        sort_order: Some(SortOrder::QueryName),
    };
    let missing = Header {
        reference_count: 1,
        sort_order: None,
    };
    assert!(is_coordinate_sorted(&coord));
    assert!(!is_coordinate_sorted(&by_name));
    assert!(!is_coordinate_sorted(&missing));
}
