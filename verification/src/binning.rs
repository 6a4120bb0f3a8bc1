//! Hierarchical interval binning over a 0-based half-open coordinate space.
//!
//! The scheme has five levels with shift amounts 26, 23, 20, 17 and 14;
//! `bin_of` returns the smallest bin that fully contains an interval.
//! A range query for `[a, b)` visits bin 0 and, on each level, the bins
//! whose coordinate spans touch `[a, b)`; `lemma_record_bin_visited`
//! shows that the bin of any overlapping record is among them, so a
//! reader that unions chunks over the visited bins has no false
//! negatives.

use vstd::prelude::*;

verus! {

/// Coordinates must stay below this bound for the five-level scheme
/// (and for the reserved metadata bin id to stay out of the bin range).
pub const MAX_COORDINATE: u32 = 0x2000_0000;

/// Window shift of the linear index: windows are `1 << 14` bases wide.
pub const WINDOW_SHIFT: u32 = 14;

/// The bin id assigned to the interval `[start, end)`: the smallest bin
/// of the 5-level hierarchy that fully contains it. Degenerate
/// intervals (`end <= start`) go to bin 0 by convention.
pub open spec fn spec_bin_of(start: u32, end: u32) -> u32 {
    if end <= start {
        0u32
    } else {
        let last = (end - 1) as u32;
        if start >> 14 == last >> 14 {
            (4681 + (start >> 14)) as u32
        } else if start >> 17 == last >> 17 {
            (585 + (start >> 17)) as u32
        } else if start >> 20 == last >> 20 {
            (73 + (start >> 20)) as u32
        } else if start >> 23 == last >> 23 {
            (9 + (start >> 23)) as u32
        } else if start >> 26 == last >> 26 {
            (1 + (start >> 26)) as u32
        } else {
            0u32
        }
    }
}

/// Shifted values stay well below the level offsets' headroom.
proof fn lemma_shift_bounds(x: u32)
    ensures
        x >> 14 <= 0x3FFFF,
        x >> 17 <= 0x7FFF,
        x >> 20 <= 0xFFF,
        x >> 23 <= 0x1FF,
        x >> 26 <= 0x3F,
{
    assert(x >> 14 <= 0x3FFFF && x >> 17 <= 0x7FFF && x >> 20 <= 0xFFF && x >> 23 <= 0x1FF && x
        >> 26 <= 0x3F) by (bit_vector);
}

/// Maps `[start, end)` to its bin id.
pub fn bin_of(start: u32, end: u32) -> (b: u32)
    ensures
        b == spec_bin_of(start, end),
{
    if end <= start {
        return 0;
    }
    let last = end - 1;
    proof {
        lemma_shift_bounds(start);
    }
    if start >> 14 == last >> 14 {
        4681 + (start >> 14)
    } else if start >> 17 == last >> 17 {
        585 + (start >> 17)
    } else if start >> 20 == last >> 20 {
        73 + (start >> 20)
    } else if start >> 23 == last >> 23 {
        9 + (start >> 23)
    } else if start >> 26 == last >> 26 {
        1 + (start >> 26)
    } else {
        0
    }
}

/// Whether `bin` is among the bins a correct range-query enumeration
/// for the query interval `[a, b)` visits: bin 0, and on each level
/// every bin whose span touches the query.
pub open spec fn spec_bin_visited(bin: u32, a: u32, b: u32) -> bool
    recommends
        a < b,
{
    let qlast = (b - 1) as u32;
    ||| bin == 0
    ||| (1 + (a >> 26) <= bin && bin <= 1 + (qlast >> 26))
    ||| (9 + (a >> 23) <= bin && bin <= 9 + (qlast >> 23))
    ||| (73 + (a >> 20) <= bin && bin <= 73 + (qlast >> 20))
    ||| (585 + (a >> 17) <= bin && bin <= 585 + (qlast >> 17))
    ||| (4681 + (a >> 14) <= bin && bin <= 4681 + (qlast >> 14))
}

/// The reserved pseudo-bin id that carries reference-level metadata in
/// the serialized form; no interval maps to it.
pub const METADATA_BIN_ID: u32 = 37450;

/// Shifts of an in-range coordinate stay within each level's width.
pub proof fn lemma_coordinate_shift_bounds(s: u32)
    requires
        s < MAX_COORDINATE,
    ensures
        s >> 14 <= 0x7FFF,
        s >> 17 <= 0xFFF,
        s >> 20 <= 0x1FF,
        s >> 23 <= 0x3F,
        s >> 26 <= 7,
{
    assert(s < 0x2000_0000 ==> s >> 14 <= 0x7FFF && s >> 17 <= 0xFFF && s >> 20 <= 0x1FF && s >> 23
        <= 0x3F && s >> 26 <= 7) by (bit_vector);
}

/// Every bin of an in-range interval lies below the metadata pseudo-bin.
pub proof fn lemma_bin_of_bound(start: u32, end: u32)
    requires
        end <= MAX_COORDINATE,
    ensures
        spec_bin_of(start, end) < METADATA_BIN_ID,
{
    if end <= start {
    } else {
        assert(start < MAX_COORDINATE);
        lemma_coordinate_shift_bounds(start);
    }
}

/// Right shift is monotone.
pub proof fn lemma_shr_le(x: u32, y: u32, n: u32)
    requires
        x <= y,
    ensures
        x >> n <= y >> n,
{
    assert(x <= y ==> x >> n <= y >> n) by (bit_vector);
}

/// No false negatives: the bin of any record `[s, e)` that overlaps the
/// query `[a, b)` is among the bins the query enumeration visits.
pub proof fn lemma_record_bin_visited(s: u32, e: u32, a: u32, b: u32)
    requires
        s < e,
        a < b,
        s < b,  // the record starts before the query ends
        a < e,  // the query starts before the record ends
    ensures
        spec_bin_visited(spec_bin_of(s, e), a, b),
{
    let last = (e - 1) as u32;
    let qlast = (b - 1) as u32;
    // The record's start is at or before the query's last position, and
    // the query's start is at or before the record's last position.
    assert(s <= qlast);
    assert(a <= last);
    lemma_shr_le(s, qlast, 14);
    lemma_shr_le(a, last, 14);
    lemma_shr_le(s, qlast, 17);
    lemma_shr_le(a, last, 17);
    lemma_shr_le(s, qlast, 20);
    lemma_shr_le(a, last, 20);
    lemma_shr_le(s, qlast, 23);
    lemma_shr_le(a, last, 23);
    lemma_shr_le(s, qlast, 26);
    lemma_shr_le(a, last, 26);
    lemma_shift_bounds(s);
}

} // verus!
