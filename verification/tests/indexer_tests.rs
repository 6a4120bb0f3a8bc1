//! The streaming state machine: sort-order enforcement, record
//! placement, aggregation, and finalization.

use bam_index::binning::bin_of;
use bam_index::chunk::Chunk;
use bam_index::error::IndexError;
use bam_index::indexer::Indexer;
use bam_index::record::{Header, Record, SortOrder};
use bam_index::virtual_offset::VirtualOffset;

fn coordinate_header(reference_count: usize) -> Header {
    Header {
        reference_count,
        sort_order: Some(SortOrder::Coordinate),
    }
}

fn chunk(a: u64, b: u64) -> Chunk {
    Chunk::new(
        VirtualOffset::encode(0, a).unwrap(),
        VirtualOffset::encode(0, b).unwrap(),
    )
}

fn placed(id: usize, start: u32, end: u32, mapped: bool, c: Chunk) -> Record {
    Record {
        reference_id: Some(id),
        start: Some(start),
        end: Some(end),
        mapped,
        chunk: c,
    }
}

#[test]
fn non_coordinate_order_fails_before_any_record() {
    let header = Header {
        reference_count: 1,
        sort_order: Some(SortOrder::QueryName),
    };
    assert_eq!(Indexer::new(&header).err(), Some(IndexError::SortOrder));
    let no_order = Header {
        reference_count: 1,
        sort_order: None,
    };
    assert_eq!(Indexer::new(&no_order).err(), Some(IndexError::SortOrder));
}

#[test]
fn single_mapped_record_lands_in_its_bin() {
    let mut ix = Indexer::new(&coordinate_header(1)).unwrap();
    ix.add_record(&placed(0, 100, 200, true, chunk(0, 50))).unwrap();
    assert_eq!(ix.records_seen(), 1);
    let g = ix.finalize();
    assert_eq!(g.unplaced, 0);
    assert_eq!(g.references.len(), 1);
    let r = &g.references[0];
    assert_eq!(r.bins.len(), 1);
    assert_eq!(r.bins[0].id, bin_of(100, 200));
    assert_eq!(r.bins[0].chunks, vec![chunk(0, 50)]);
    assert_eq!(r.linear_index.len(), 1);
    assert_eq!(r.linear_index[0], VirtualOffset::encode(0, 0).unwrap());
    assert_eq!(r.metadata.mapped, 1);
    assert_eq!(r.metadata.unmapped, 0);
    assert_eq!(r.metadata.first, Some(VirtualOffset::encode(0, 0).unwrap()));
    assert_eq!(r.metadata.last, Some(VirtualOffset::encode(0, 50).unwrap()));
}

#[test]
fn record_without_reference_only_bumps_unplaced() {
    let mut ix = Indexer::new(&coordinate_header(1)).unwrap();
    let rec = Record {
        reference_id: None,
        start: None,
        end: None,
        mapped: false,
        chunk: chunk(0, 40),
    };
    ix.add_record(&rec).unwrap();
    let g = ix.finalize();
    assert_eq!(g.unplaced, 1);
    let r = &g.references[0];
    assert!(r.bins.is_empty());
    assert!(r.linear_index.is_empty());
    assert_eq!(r.metadata.mapped, 0);
    assert_eq!(r.metadata.unmapped, 0);
    assert_eq!(r.metadata.first, None);
    assert_eq!(r.metadata.last, None);
}

#[test]
fn out_of_range_reference_aborts_the_build() {
    let mut ix = Indexer::new(&coordinate_header(2)).unwrap();
    let bad = placed(2, 10, 20, true, chunk(0, 10));
    assert_eq!(ix.add_record(&bad), Err(IndexError::InvalidReference));
    assert_eq!(ix.records_seen(), 0);
}

#[test]
fn touching_chunks_in_one_bin_merge_and_cover_both() {
    let mut ix = Indexer::new(&coordinate_header(1)).unwrap();
    // Two non-overlapping intervals in the same 16384-base bin, with
    // byte ranges that touch end to start.
    ix.add_record(&placed(0, 100, 200, true, chunk(0, 50))).unwrap();
    ix.add_record(&placed(0, 300, 400, true, chunk(50, 100))).unwrap();
    let g = ix.finalize();
    let r = &g.references[0];
    assert_eq!(r.bins.len(), 1);
    assert_eq!(r.bins[0].id, bin_of(100, 200));
    assert_eq!(r.bins[0].id, bin_of(300, 400));
    // The finalizer merges the touching byte ranges into one chunk
    // that spans both records, so neither can be missed.
    assert_eq!(r.bins[0].chunks, vec![chunk(0, 100)]);
    assert_eq!(r.metadata.mapped, 2);
}

#[test]
fn separated_chunks_in_one_bin_stay_ordered() {
    let mut ix = Indexer::new(&coordinate_header(1)).unwrap();
    ix.add_record(&placed(0, 100, 200, true, chunk(0, 50))).unwrap();
    ix.add_record(&placed(0, 300, 400, true, chunk(60, 100))).unwrap();
    let g = ix.finalize();
    let r = &g.references[0];
    assert_eq!(r.bins[0].chunks, vec![chunk(0, 50), chunk(60, 100)]);
}

#[test]
fn unmapped_flag_goes_to_the_unmapped_counter() {
    let mut ix = Indexer::new(&coordinate_header(1)).unwrap();
    ix.add_record(&placed(0, 100, 200, false, chunk(0, 50))).unwrap();
    let g = ix.finalize();
    assert_eq!(g.references[0].metadata.mapped, 0);
    assert_eq!(g.references[0].metadata.unmapped, 1);
}

#[test]
fn linear_index_gaps_copy_forward() {
    let mut ix = Indexer::new(&coordinate_header(1)).unwrap();
    // Window 0 and window 3; windows 1 and 2 inherit window 0's value.
    ix.add_record(&placed(0, 100, 200, true, chunk(10, 20))).unwrap();
    ix.add_record(&placed(0, 3 * 16384, 3 * 16384 + 10, true, chunk(20, 30)))
        .unwrap();
    let g = ix.finalize();
    let lin = &g.references[0].linear_index;
    assert_eq!(lin.len(), 4);
    assert_eq!(lin[0].value, 10);
    assert_eq!(lin[1].value, lin[0].value);
    assert_eq!(lin[2].value, lin[0].value);
    assert_eq!(lin[3].value, 20);
}

fn chunk_blocks(a: u64, b: u64) -> Chunk {
    Chunk::new(
        VirtualOffset::encode(a, 0).unwrap(),
        VirtualOffset::encode(b, 0).unwrap(),
    )
}

#[test]
fn first_record_of_a_window_keeps_its_offset() {
    let mut ix = Indexer::new(&coordinate_header(1)).unwrap();
    ix.add_record(&placed(0, 100, 200, true, chunk_blocks(10, 20))).unwrap();
    ix.add_record(&placed(0, 150, 250, true, chunk_blocks(20, 30))).unwrap();
    let g = ix.finalize();
    let lin = &g.references[0].linear_index;
    assert_eq!(lin.len(), 1);
    // First write wins: the earliest offset of the window stays.
    assert_eq!(lin[0], VirtualOffset::encode(10, 0).unwrap());
}

#[test]
fn reference_without_records_yields_empty_arrays() {
    let mut ix = Indexer::new(&coordinate_header(2)).unwrap();
    ix.add_record(&placed(1, 100, 200, true, chunk(0, 50))).unwrap();
    let g = ix.finalize();
    assert!(g.references[0].bins.is_empty());
    assert!(g.references[0].linear_index.is_empty());
    assert_eq!(g.references[1].bins.len(), 1);
}

#[test]
fn linear_index_entries_are_non_decreasing() {
    let mut ix = Indexer::new(&coordinate_header(1)).unwrap();
    let spans = [
        (100u32, 200u32, 0u64, 5u64),
        (16500, 16600, 5, 9),
        (50000, 50100, 9, 14),
        (90000, 90100, 14, 22),
    ];
    for (s, e, a, b) in spans {
        ix.add_record(&placed(0, s, e, true, chunk_blocks(a, b))).unwrap();
    }
    let g = ix.finalize();
    let lin = &g.references[0].linear_index;
    assert!(!lin.is_empty());
    for w in 1..lin.len() {
        assert!(lin[w - 1].value <= lin[w].value);
    }
}

#[test]
fn records_with_partial_context_count_as_unplaced() {
    let mut ix = Indexer::new(&coordinate_header(1)).unwrap();
    let rec = Record {
        reference_id: Some(0),
        start: None,
        end: None,
        mapped: false,
        chunk: chunk(0, 40),
    };
    ix.add_record(&rec).unwrap();
    let g = ix.finalize();
    assert_eq!(g.unplaced, 1);
    assert!(g.references[0].bins.is_empty());
}
