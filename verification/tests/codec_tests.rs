//! Serialization: exact bytes, round trips, determinism, and
//! malformed input.

use bam_index::chunk::Chunk;
use bam_index::codec::{parse_index, serialize_index};
use bam_index::error::IndexError;
use bam_index::indexer::{GlobalIndex, Indexer};
use bam_index::record::{Header, Record, SortOrder};
use bam_index::virtual_offset::VirtualOffset;

fn coordinate_header(reference_count: usize) -> Header {
    Header {
        reference_count,
        sort_order: Some(SortOrder::Coordinate),
    }
}

fn chunk(a: u64, b: u64) -> Chunk {
    Chunk::new(
        VirtualOffset::encode(a, 0).unwrap(),
        VirtualOffset::encode(b, 0).unwrap(),
    )
}

fn placed(id: usize, start: u32, end: u32, mapped: bool, c: Chunk) -> Record {
    Record {
        reference_id: Some(id),
        start: Some(start),
        end: Some(end),
        mapped,
        chunk: c,
    }
}

fn build_sample() -> GlobalIndex {
    let mut ix = Indexer::new(&coordinate_header(2)).unwrap();
    ix.add_record(&placed(0, 100, 200, true, chunk(0, 1))).unwrap();
    ix.add_record(&placed(0, 16500, 17200, true, chunk(1, 2))).unwrap();
    ix.add_record(&placed(0, 40000, 40100, false, chunk(2, 3))).unwrap();
    ix.add_record(&placed(1, 5, 25, true, chunk(3, 4))).unwrap();
    ix.add_record(&Record {
        reference_id: None,
        start: None,
        end: None,
        mapped: false,
        chunk: chunk(4, 5),
    })
    .unwrap();
    ix.finalize()
}

#[test]
fn empty_index_serializes_to_magic_and_counts() {
    let ix = Indexer::new(&coordinate_header(0)).unwrap();
    let g = ix.finalize();
    let bytes = serialize_index(&g).unwrap();
    let mut expected = vec![b'B', b'A', b'I', 1];
    expected.extend_from_slice(&0u32.to_le_bytes());
    expected.extend_from_slice(&0u64.to_le_bytes());
    assert_eq!(bytes, expected);
}

#[test]
fn one_record_index_serializes_exactly() {
    let mut ix = Indexer::new(&coordinate_header(1)).unwrap();
    ix.add_record(&placed(0, 100, 200, true, chunk(0, 1))).unwrap();
    let g = ix.finalize();
    let bytes = serialize_index(&g).unwrap();
    let mut expected = vec![b'B', b'A', b'I', 1];
    expected.extend_from_slice(&1u32.to_le_bytes()); // one reference
    expected.extend_from_slice(&2u32.to_le_bytes()); // its bin + pseudo-bin
    expected.extend_from_slice(&4681u32.to_le_bytes()); // bin id
    expected.extend_from_slice(&1u32.to_le_bytes()); // one chunk
    expected.extend_from_slice(&0u64.to_le_bytes()); // chunk start
    expected.extend_from_slice(&(1u64 << 16).to_le_bytes()); // chunk end
    expected.extend_from_slice(&37450u32.to_le_bytes()); // pseudo-bin id
    expected.extend_from_slice(&2u32.to_le_bytes()); // two pairs
    expected.extend_from_slice(&0u64.to_le_bytes()); // first offset
    expected.extend_from_slice(&(1u64 << 16).to_le_bytes()); // last offset
    expected.extend_from_slice(&1u64.to_le_bytes()); // mapped
    expected.extend_from_slice(&0u64.to_le_bytes()); // unmapped
    expected.extend_from_slice(&1u32.to_le_bytes()); // one interval
    expected.extend_from_slice(&0u64.to_le_bytes()); // window 0 offset
    expected.extend_from_slice(&0u64.to_le_bytes()); // unplaced count
    assert_eq!(bytes, expected);
}

#[test]
fn serialize_then_parse_round_trips() {
    let g = build_sample();
    let bytes = serialize_index(&g).unwrap();
    let back = parse_index(&bytes).unwrap();
    assert_eq!(back, g);
}

#[test]
fn empty_index_round_trips() {
    let ix = Indexer::new(&coordinate_header(0)).unwrap();
    let g = ix.finalize();
    let bytes = serialize_index(&g).unwrap();
    assert_eq!(parse_index(&bytes).unwrap(), g);
}

#[test]
fn building_twice_is_byte_identical() {
    let a = serialize_index(&build_sample()).unwrap();
    let b = serialize_index(&build_sample()).unwrap();
    assert_eq!(a, b);
}

#[test]
fn unmapped_only_reference_round_trips() {
    let mut ix = Indexer::new(&coordinate_header(1)).unwrap();
    ix.add_record(&placed(0, 100, 200, false, chunk(0, 1))).unwrap();
    let g = ix.finalize();
    assert_eq!(g.references[0].metadata.mapped, 0);
    assert_eq!(g.references[0].metadata.unmapped, 1);
    let bytes = serialize_index(&g).unwrap();
    assert_eq!(parse_index(&bytes).unwrap(), g);
}

#[test]
fn largest_in_range_interval_round_trips() {
    let mut ix = Indexer::new(&coordinate_header(1)).unwrap();
    ix.add_record(&placed(0, (1 << 29) - 1, 1 << 29, true, chunk(0, 1))).unwrap();
    let g = ix.finalize();
    assert_eq!(g.references[0].bins[0].id, 37448);
    assert_eq!(g.references[0].linear_index.len(), 32768);
    let bytes = serialize_index(&g).unwrap();
    assert_eq!(parse_index(&bytes).unwrap(), g);
}

#[test]
fn parse_rejects_short_input() {
    assert_eq!(parse_index(&[66, 65]), Err(IndexError::Malformed));
}

#[test]
fn parse_rejects_wrong_magic() {
    let g = build_sample();
    let mut bytes = serialize_index(&g).unwrap();
    bytes[0] = b'X';
    assert_eq!(parse_index(&bytes), Err(IndexError::Malformed));
}

#[test]
fn parse_rejects_truncated_input() {
    let g = build_sample();
    let bytes = serialize_index(&g).unwrap();
    assert_eq!(
        parse_index(&bytes[..bytes.len() - 3]),
        Err(IndexError::Malformed)
    );
}

#[test]
fn parse_rejects_trailing_garbage() {
    let g = build_sample();
    let mut bytes = serialize_index(&g).unwrap();
    bytes.push(0);
    assert_eq!(parse_index(&bytes), Err(IndexError::Malformed));
}

#[test]
fn parse_without_trailing_count_defaults_to_zero() {
    let g = build_sample();
    let bytes = serialize_index(&g).unwrap();
    let back = parse_index(&bytes[..bytes.len() - 8]).unwrap();
    assert_eq!(back.unplaced, 0);
    assert_eq!(back.references, g.references);
}
