//! Deterministic binary encoding of a finalized index, and its
//! decoder.
//!
//! Layout, all integers little-endian: magic bytes; reference count;
//! per reference in header order: bin count (the reference's bins plus
//! one metadata pseudo-bin when any record was counted), then per bin
//! its id, chunk count and chunks; the pseudo-bin carries the offset
//! bounds and the mapped/unmapped counts as two chunk-shaped pairs;
//! then the linear-index interval count and intervals; and last the
//! global unplaced-record count.

use vstd::bytes::{lemma_auto_spec_u32_to_from_le_bytes, lemma_auto_spec_u64_to_from_le_bytes,
    spec_u32_from_le_bytes, spec_u32_to_le_bytes, spec_u64_from_le_bytes, spec_u64_to_le_bytes,
    u32_from_le_bytes, u32_to_le_bytes, u64_from_le_bytes, u64_to_le_bytes};
use vstd::prelude::*;
use vstd::slice::{slice_index_get, slice_subrange};

use crate::binning::METADATA_BIN_ID;
use crate::chunk::{Bin, BinView, Chunk};
use crate::error::IndexError;
use crate::indexer::{spec_finalize, spec_indexer_init, spec_index_wf, spec_ref_wf, spec_run,
    GlobalIndex, GlobalIndexView, RefIndexView, ReferenceIndex};
use crate::metadata::{spec_meta_init, Metadata};
use crate::record::Record;
use crate::virtual_offset::VirtualOffset;

verus! {

/// The magic bytes that open a serialized index.
pub open spec fn spec_magic() -> Seq<u8> {
    seq![66u8, 65u8, 73u8, 1u8]
}

/// The value of an optional offset bound; zero when absent.
pub open spec fn spec_bound_value(o: Option<VirtualOffset>) -> u64 {
    match o {
        Some(v) => v.value,
        None => 0,
    }
}

/// One chunk: start then end.
pub open spec fn spec_ser_chunk(c: Chunk) -> Seq<u8> {
    spec_u64_to_le_bytes(c.start.value) + spec_u64_to_le_bytes(c.end.value)
}

/// A chunk list, in order.
pub open spec fn spec_ser_chunks(s: Seq<Chunk>) -> Seq<u8>
    decreases s.len(),
{
    if s.len() == 0 {
        Seq::<u8>::empty()
    } else {
        spec_ser_chunk(s[0]) + spec_ser_chunks(s.drop_first())
    }
}

/// One bin: id, chunk count, chunks.
pub open spec fn spec_ser_bin(b: BinView) -> Seq<u8> {
    spec_u32_to_le_bytes(b.id) + spec_u32_to_le_bytes(b.chunks.len() as u32) + spec_ser_chunks(
        b.chunks,
    )
}

/// A bin list, in order.
pub open spec fn spec_ser_bins(s: Seq<BinView>) -> Seq<u8>
    decreases s.len(),
{
    if s.len() == 0 {
        Seq::<u8>::empty()
    } else {
        spec_ser_bin(s[0]) + spec_ser_bins(s.drop_first())
    }
}

/// Whether a reference's metadata is written at all: only once some
/// record of the reference has been counted.
pub open spec fn spec_meta_present(m: Metadata) -> bool {
    m.mapped != 0 || m.unmapped != 0
}

/// The metadata pseudo-bin: the reserved id, two chunk-shaped pairs —
/// the offset bounds, then the counts. Empty when nothing was counted.
pub open spec fn spec_ser_meta(m: Metadata) -> Seq<u8> {
    if spec_meta_present(m) {
        spec_u32_to_le_bytes(METADATA_BIN_ID) + spec_u32_to_le_bytes(2u32) + spec_u64_to_le_bytes(
            spec_bound_value(m.first),
        ) + spec_u64_to_le_bytes(spec_bound_value(m.last)) + spec_u64_to_le_bytes(m.mapped)
            + spec_u64_to_le_bytes(m.unmapped)
    } else {
        Seq::<u8>::empty()
    }
}

/// The linear index, one offset per window.
pub open spec fn spec_ser_offsets(s: Seq<VirtualOffset>) -> Seq<u8>
    decreases s.len(),
{
    if s.len() == 0 {
        Seq::<u8>::empty()
    } else {
        spec_u64_to_le_bytes(s[0].value) + spec_ser_offsets(s.drop_first())
    }
}

/// How many bin entries a reference serializes to.
pub open spec fn spec_bin_count(r: RefIndexView) -> int {
    r.bins.len() + (if spec_meta_present(r.metadata) {
        1int
    } else {
        0int
    })
}

/// One reference: bin count, bins, pseudo-bin, interval count,
/// intervals.
pub open spec fn spec_ser_ref(r: RefIndexView) -> Seq<u8> {
    spec_u32_to_le_bytes(spec_bin_count(r) as u32) + spec_ser_bins(r.bins) + spec_ser_meta(
        r.metadata,
    ) + spec_u32_to_le_bytes(r.linear_index.len() as u32) + spec_ser_offsets(r.linear_index)
}

/// The reference list, in header order.
pub open spec fn spec_ser_refs(s: Seq<RefIndexView>) -> Seq<u8>
    decreases s.len(),
{
    if s.len() == 0 {
        Seq::<u8>::empty()
    } else {
        spec_ser_ref(s[0]) + spec_ser_refs(s.drop_first())
    }
}

/// The whole index.
pub open spec fn spec_ser_index(g: GlobalIndexView) -> Seq<u8> {
    spec_magic() + spec_u32_to_le_bytes(g.references.len() as u32) + spec_ser_refs(g.references)
        + spec_u64_to_le_bytes(g.unplaced)
}

/// Every count of one reference fits its 32-bit field.
pub open spec fn spec_ref_fits(r: RefIndexView) -> bool {
    &&& r.bins.len() + 1 <= u32::MAX
    &&& r.linear_index.len() <= u32::MAX
    &&& forall|k: int| 0 <= k < r.bins.len() ==> #[trigger] r.bins[k].chunks.len() <= u32::MAX
}

/// Every count of the index fits the 32-bit field the layout gives it.
pub open spec fn spec_counts_fit(g: GlobalIndexView) -> bool {
    &&& g.references.len() <= u32::MAX
    &&& forall|i: int| 0 <= i < g.references.len() ==> spec_ref_fits(#[trigger] g.references[i])
}

/// Serializing one more chunk appends its bytes.
proof fn lemma_ser_chunks_push(s: Seq<Chunk>, c: Chunk)
    ensures
        spec_ser_chunks(s.push(c)) == spec_ser_chunks(s) + spec_ser_chunk(c),
    decreases s.len(),
{
    if s.len() == 0 {
        assert(s.push(c)[0] == c);
        assert(s.push(c).drop_first() =~= s);
        assert(spec_ser_chunks(s.push(c)) =~= spec_ser_chunks(s) + spec_ser_chunk(c));
    } else {
        assert(s.push(c).drop_first() =~= s.drop_first().push(c));
        assert(s.push(c)[0] == s[0]);
        lemma_ser_chunks_push(s.drop_first(), c);
        assert(spec_ser_chunks(s.push(c)) == spec_ser_chunk(s[0]) + (spec_ser_chunks(
            s.drop_first(),
        ) + spec_ser_chunk(c)));
        assert(spec_ser_chunk(s[0]) + (spec_ser_chunks(s.drop_first()) + spec_ser_chunk(c)) =~= (
        spec_ser_chunk(s[0]) + spec_ser_chunks(s.drop_first())) + spec_ser_chunk(c));
    }
}

/// Serializing one more bin appends its bytes.
proof fn lemma_ser_bins_push(s: Seq<BinView>, b: BinView)
    ensures
        spec_ser_bins(s.push(b)) == spec_ser_bins(s) + spec_ser_bin(b),
    decreases s.len(),
{
    if s.len() == 0 {
        assert(s.push(b)[0] == b);
        assert(s.push(b).drop_first() =~= s);
        assert(spec_ser_bins(s.push(b)) =~= spec_ser_bins(s) + spec_ser_bin(b));
    } else {
        assert(s.push(b).drop_first() =~= s.drop_first().push(b));
        assert(s.push(b)[0] == s[0]);
        lemma_ser_bins_push(s.drop_first(), b);
        assert(spec_ser_bins(s.push(b)) == spec_ser_bin(s[0]) + (spec_ser_bins(s.drop_first())
            + spec_ser_bin(b)));
        assert(spec_ser_bin(s[0]) + (spec_ser_bins(s.drop_first()) + spec_ser_bin(b)) =~= (
        spec_ser_bin(s[0]) + spec_ser_bins(s.drop_first())) + spec_ser_bin(b));
    }
}

/// Serializing one more interval appends its bytes.
proof fn lemma_ser_offsets_push(s: Seq<VirtualOffset>, v: VirtualOffset)
    ensures
        spec_ser_offsets(s.push(v)) == spec_ser_offsets(s) + spec_u64_to_le_bytes(v.value),
    decreases s.len(),
{
    if s.len() == 0 {
        assert(s.push(v)[0] == v);
        assert(s.push(v).drop_first() =~= s);
        assert(spec_ser_offsets(s.push(v)) =~= spec_ser_offsets(s) + spec_u64_to_le_bytes(
            v.value,
        ));
    } else {
        assert(s.push(v).drop_first() =~= s.drop_first().push(v));
        assert(s.push(v)[0] == s[0]);
        lemma_ser_offsets_push(s.drop_first(), v);
        assert(spec_ser_offsets(s.push(v)) == spec_u64_to_le_bytes(s[0].value) + (spec_ser_offsets(
            s.drop_first(),
        ) + spec_u64_to_le_bytes(v.value)));
        assert(spec_u64_to_le_bytes(s[0].value) + (spec_ser_offsets(s.drop_first())
            + spec_u64_to_le_bytes(v.value)) =~= (spec_u64_to_le_bytes(s[0].value)
            + spec_ser_offsets(s.drop_first())) + spec_u64_to_le_bytes(v.value));
    }
}

/// Serializing one more reference appends its bytes.
proof fn lemma_ser_refs_push(s: Seq<RefIndexView>, r: RefIndexView)
    ensures
        spec_ser_refs(s.push(r)) == spec_ser_refs(s) + spec_ser_ref(r),
    decreases s.len(),
{
    if s.len() == 0 {
        assert(s.push(r)[0] == r);
        assert(s.push(r).drop_first() =~= s);
        assert(spec_ser_refs(s.push(r)) =~= spec_ser_refs(s) + spec_ser_ref(r));
    } else {
        assert(s.push(r).drop_first() =~= s.drop_first().push(r));
        assert(s.push(r)[0] == s[0]);
        lemma_ser_refs_push(s.drop_first(), r);
        assert(spec_ser_refs(s.push(r)) == spec_ser_ref(s[0]) + (spec_ser_refs(s.drop_first())
            + spec_ser_ref(r)));
        assert(spec_ser_ref(s[0]) + (spec_ser_refs(s.drop_first()) + spec_ser_ref(r)) =~= (
        spec_ser_ref(s[0]) + spec_ser_refs(s.drop_first())) + spec_ser_ref(r));
    }
}

/// Appends a `u32` in little-endian order.
fn emit_u32(out: &mut Vec<u8>, x: u32)
    ensures
        final(out)@ == old(out)@ + spec_u32_to_le_bytes(x),
{
    let mut b = u32_to_le_bytes(x);
    out.append(&mut b);
}

/// Appends a `u64` in little-endian order.
fn emit_u64(out: &mut Vec<u8>, x: u64)
    ensures
        final(out)@ == old(out)@ + spec_u64_to_le_bytes(x),
{
    let mut b = u64_to_le_bytes(x);
    out.append(&mut b);
}

/// Appends one chunk list.
fn emit_chunks(out: &mut Vec<u8>, chunks: &Vec<Chunk>)
    ensures
        final(out)@ == old(out)@ + spec_ser_chunks(chunks@),
{
    let ghost base = out@;
    let mut i: usize = 0;
    proof {
        assert(out@ =~= base + spec_ser_chunks(chunks@.take(0)));
    }
    while i < chunks.len()
        invariant
            i <= chunks@.len(),
            out@ == base + spec_ser_chunks(chunks@.take(i as int)),
        decreases chunks@.len() - i,
    {
        let c = chunks[i];
        emit_u64(out, c.start.value);
        emit_u64(out, c.end.value);
        proof {
            lemma_ser_chunks_push(chunks@.take(i as int), c);
            assert(chunks@.take(i + 1) =~= chunks@.take(i as int).push(c));
            assert(out@ =~= base + spec_ser_chunks(chunks@.take(i + 1)));
        }
        i = i + 1;
    }
    proof {
        assert(chunks@.take(chunks@.len() as int) =~= chunks@);
    }
}

/// Appends a bin list.
fn emit_bins(out: &mut Vec<u8>, bins: &Vec<Bin>)
    ensures
        final(out)@ == old(out)@ + spec_ser_bins(crate::chunk::bins_view(bins@)),
{
    let ghost bv = crate::chunk::bins_view(bins@);
    let ghost base = out@;
    let mut i: usize = 0;
    proof {
        assert(out@ =~= base + spec_ser_bins(bv.take(0)));
    }
    while i < bins.len()
        invariant
            i <= bv.len(),
            bv == crate::chunk::bins_view(bins@),
            bv.len() == bins@.len(),
            out@ == base + spec_ser_bins(bv.take(i as int)),
        decreases bv.len() - i,
    {
        let b = &bins[i];
        proof {
            assert(bv[i as int] == bins@[i as int]@);
        }
        emit_u32(out, b.id);
        emit_u32(out, b.chunks.len() as u32);
        emit_chunks(out, &b.chunks);
        proof {
            lemma_ser_bins_push(bv.take(i as int), bv[i as int]);
            assert(bv.take(i + 1) =~= bv.take(i as int).push(bv[i as int]));
            assert(out@ =~= base + spec_ser_bins(bv.take(i + 1)));
        }
        i = i + 1;
    }
    proof {
        assert(bv.take(bv.len() as int) =~= bv);
    }
}

/// Appends the metadata pseudo-bin, if the metadata is present.
fn emit_meta(out: &mut Vec<u8>, m: &Metadata)
    ensures
        final(out)@ == old(out)@ + spec_ser_meta(*m),
{
    if m.mapped != 0 || m.unmapped != 0 {
        emit_u32(out, METADATA_BIN_ID);
        emit_u32(out, 2);
        emit_u64(
            out,
            match m.first {
                Some(v) => v.value,
                None => 0,
            },
        );
        emit_u64(
            out,
            match m.last {
                Some(v) => v.value,
                None => 0,
            },
        );
        emit_u64(out, m.mapped);
        emit_u64(out, m.unmapped);
    } else {
        proof {
            assert(out@ =~= out@ + spec_ser_meta(*m));
        }
    }
}

/// Appends a linear index.
fn emit_offsets(out: &mut Vec<u8>, offsets: &Vec<VirtualOffset>)
    ensures
        final(out)@ == old(out)@ + spec_ser_offsets(offsets@),
{
    let ghost base = out@;
    let mut j: usize = 0;
    proof {
        assert(out@ =~= base + spec_ser_offsets(offsets@.take(0)));
    }
    while j < offsets.len()
        invariant
            j <= offsets@.len(),
            out@ == base + spec_ser_offsets(offsets@.take(j as int)),
        decreases offsets@.len() - j,
    {
        let v = offsets[j];
        emit_u64(out, v.value);
        proof {
            lemma_ser_offsets_push(offsets@.take(j as int), v);
            assert(offsets@.take(j + 1) =~= offsets@.take(j as int).push(v));
            assert(out@ =~= base + spec_ser_offsets(offsets@.take(j + 1)));
        }
        j = j + 1;
    }
    proof {
        assert(offsets@.take(offsets@.len() as int) =~= offsets@);
    }
}

/// Appends one reference: bins, pseudo-bin, linear index.
fn emit_ref(out: &mut Vec<u8>, r: &ReferenceIndex)
    requires
        spec_ref_fits(r@),
    ensures
        final(out)@ == old(out)@ + spec_ser_ref(r@),
{
    let ghost base = out@;
    let with_meta = r.metadata.mapped != 0 || r.metadata.unmapped != 0;
    let n_bin = if with_meta {
        r.bins.len() + 1
    } else {
        r.bins.len()
    };
    emit_u32(out, n_bin as u32);
    emit_bins(out, &r.bins);
    emit_meta(out, &r.metadata);
    emit_u32(out, r.linear_index.len() as u32);
    emit_offsets(out, &r.linear_index);
    proof {
        assert(out@ =~= base + spec_ser_ref(r@));
    }
}

/// Serializes a finalized index to its binary form. Fails only when a
/// count exceeds the 32-bit field the layout gives it.
#[verifier::rlimit(50)]
pub fn serialize_index(g: &GlobalIndex) -> (r: Result<Vec<u8>, IndexError>)
    ensures
        spec_counts_fit(g@) ==> (r matches Ok(out) && out@ == spec_ser_index(g@)),
        !spec_counts_fit(g@) ==> r == Err::<Vec<u8>, IndexError>(IndexError::EncodingOverflow),
{
    // Validation pass: every count must fit its field.
    if g.references.len() > (u32::MAX as usize) {
        return Err(IndexError::EncodingOverflow);
    }
    let mut i: usize = 0;
    while i < g.references.len()
        invariant
            i <= g@.references.len(),
            g@.references.len() <= u32::MAX,
            forall|t: int| 0 <= t < i ==> spec_ref_fits(#[trigger] g@.references[t]),
        decreases g@.references.len() - i,
    {
        let r = &g.references[i];
        proof {
            assert(g@.references[i as int] == g.references@[i as int]@);
        }
        if r.bins.len() >= (u32::MAX as usize) {
            proof {
                assert(!(g@.references[i as int].bins.len() + 1 <= u32::MAX));
            }
            return Err(IndexError::EncodingOverflow);
        }
        if r.linear_index.len() > (u32::MAX as usize) {
            proof {
                assert(!(g@.references[i as int].linear_index.len() <= u32::MAX));
            }
            return Err(IndexError::EncodingOverflow);
        }
        let mut k: usize = 0;
        while k < r.bins.len()
            invariant
                k <= r@.bins.len(),
                0 <= i < g@.references.len(),
                g@.references[i as int] == r@,
                forall|q: int| 0 <= q < k ==> #[trigger] r@.bins[q].chunks.len() <= u32::MAX,
            decreases r@.bins.len() - k,
        {
            proof {
                assert(r@.bins[k as int] == r.bins@[k as int]@);
            }
            if r.bins[k].chunks.len() > (u32::MAX as usize) {
                proof {
                    assert(!(g@.references[i as int].bins[k as int].chunks.len() <= u32::MAX));
                }
                return Err(IndexError::EncodingOverflow);
            }
            k = k + 1;
        }
        proof {
            assert(spec_ref_fits(g@.references[i as int]));
        }
        i = i + 1;
    }
    proof {
        assert(spec_counts_fit(g@));
    }
    // Emission pass.
    let mut out: Vec<u8> = Vec::new();
    out.push(66);
    out.push(65);
    out.push(73);
    out.push(1);
    proof {
        assert(out@ =~= spec_magic());
    }
    emit_u32(&mut out, g.references.len() as u32);
    let ghost after_head = out@;
    let mut t: usize = 0;
    proof {
        assert(out@ =~= after_head + spec_ser_refs(g@.references.take(0)));
    }
    while t < g.references.len()
        invariant
            t <= g@.references.len(),
            out@ == after_head + spec_ser_refs(g@.references.take(t as int)),
            spec_counts_fit(g@),
        decreases g@.references.len() - t,
    {
        let r = &g.references[t];
        proof {
            assert(g@.references[t as int] == g.references@[t as int]@);
        }
        emit_ref(&mut out, r);
        proof {
            lemma_ser_refs_push(g@.references.take(t as int), g@.references[t as int]);
            assert(g@.references.take(t + 1) =~= g@.references.take(t as int).push(
                g@.references[t as int],
            ));
            assert(out@ =~= after_head + spec_ser_refs(g@.references.take(t + 1)));
        }
        t = t + 1;
    }
    emit_u64(&mut out, g.unplaced);
    proof {
        assert(g@.references.take(g@.references.len() as int) =~= g@.references);
        assert(out@ =~= spec_ser_index(g@));
    }
    Ok(out)
}

/// Reads a little-endian `u32` off the front.
pub open spec fn spec_take_u32(b: Seq<u8>) -> Option<(u32, Seq<u8>)> {
    if b.len() >= 4 {
        Some((spec_u32_from_le_bytes(b.take(4)), b.skip(4)))
    } else {
        None
    }
}

/// Reads a little-endian `u64` off the front.
pub open spec fn spec_take_u64(b: Seq<u8>) -> Option<(u64, Seq<u8>)> {
    if b.len() >= 8 {
        Some((spec_u64_from_le_bytes(b.take(8)), b.skip(8)))
    } else {
        None
    }
}

/// Reads `n` chunks off the front.
pub open spec fn spec_parse_chunks(n: nat, b: Seq<u8>) -> Option<(Seq<Chunk>, Seq<u8>)>
    decreases n,
{
    if n == 0 {
        Some((Seq::<Chunk>::empty(), b))
    } else {
        match spec_take_u64(b) {
            None => None,
            Some((sv, b1)) => match spec_take_u64(b1) {
                None => None,
                Some((ev, b2)) => match spec_parse_chunks((n - 1) as nat, b2) {
                    None => None,
                    Some((rest, b3)) => Some(
                        (
                            seq![
                                Chunk {
                                    start: VirtualOffset { value: sv },
                                    end: VirtualOffset { value: ev },
                                },
                            ] + rest,
                            b3,
                        ),
                    ),
                },
            },
        }
    }
}

/// Reads `n` linear-index intervals off the front.
pub open spec fn spec_parse_offsets(n: nat, b: Seq<u8>) -> Option<(Seq<VirtualOffset>, Seq<u8>)>
    decreases n,
{
    if n == 0 {
        Some((Seq::<VirtualOffset>::empty(), b))
    } else {
        match spec_take_u64(b) {
            None => None,
            Some((v, b1)) => match spec_parse_offsets((n - 1) as nat, b1) {
                None => None,
                Some((rest, b2)) => Some((seq![VirtualOffset { value: v }] + rest, b2)),
            },
        }
    }
}

/// Reads `n` bin entries off the front; a bin with the reserved id is
/// decoded as the reference's metadata instead.
pub open spec fn spec_parse_bins(n: nat, b: Seq<u8>) -> Option<
    ((Seq<BinView>, Metadata, bool), Seq<u8>),
>
    decreases n,
{
    if n == 0 {
        Some(((Seq::<BinView>::empty(), spec_meta_init(), false), b))
    } else {
        match spec_take_u32(b) {
            None => None,
            Some((id, b1)) => match spec_take_u32(b1) {
                None => None,
                Some((cnt, b2)) => if id == METADATA_BIN_ID {
                    if cnt != 2 {
                        None
                    } else {
                        match spec_take_u64(b2) {
                            None => None,
                            Some((f, b3)) => match spec_take_u64(b3) {
                                None => None,
                                Some((l, b4)) => match spec_take_u64(b4) {
                                    None => None,
                                    Some((mp, b5)) => match spec_take_u64(b5) {
                                        None => None,
                                        Some((um, b6)) => match spec_parse_bins(
                                            (n - 1) as nat,
                                            b6,
                                        ) {
                                            None => None,
                                            Some(((bins, m, seen), b7)) => Some(
                                                (
                                                    (
                                                        bins,
                                                        if seen {
                                                            m
                                                        } else {
                                                            Metadata {
                                                                mapped: mp,
                                                                unmapped: um,
                                                                first: Some(
                                                                    VirtualOffset { value: f },
                                                                ),
                                                                last: Some(
                                                                    VirtualOffset { value: l },
                                                                ),
                                                            }
                                                        },
                                                        true,
                                                    ),
                                                    b7,
                                                ),
                                            ),
                                        },
                                    },
                                },
                            },
                        }
                    }
                } else {
                    match spec_parse_chunks(cnt as nat, b2) {
                        None => None,
                        Some((chunks, b3)) => match spec_parse_bins((n - 1) as nat, b3) {
                            None => None,
                            Some(((bins, m, seen), b4)) => Some(
                                ((seq![BinView { id, chunks }] + bins, m, seen), b4),
                            ),
                        },
                    }
                },
            },
        }
    }
}

/// Reads one reference off the front.
pub open spec fn spec_parse_ref(b: Seq<u8>) -> Option<(RefIndexView, Seq<u8>)> {
    match spec_take_u32(b) {
        None => None,
        Some((nbin, b1)) => match spec_parse_bins(nbin as nat, b1) {
            None => None,
            Some(((bins, m, _seen), b2)) => match spec_take_u32(b2) {
                None => None,
                Some((nintv, b3)) => match spec_parse_offsets(nintv as nat, b3) {
                    None => None,
                    Some((lin, b4)) => Some(
                        (RefIndexView { bins, linear_index: lin, metadata: m }, b4),
                    ),
                },
            },
        },
    }
}

/// Reads `n` references off the front.
pub open spec fn spec_parse_refs(n: nat, b: Seq<u8>) -> Option<(Seq<RefIndexView>, Seq<u8>)>
    decreases n,
{
    if n == 0 {
        Some((Seq::<RefIndexView>::empty(), b))
    } else {
        match spec_parse_ref(b) {
            None => None,
            Some((r, b1)) => match spec_parse_refs((n - 1) as nat, b1) {
                None => None,
                Some((rest, b2)) => Some((seq![r] + rest, b2)),
            },
        }
    }
}

/// Decodes a whole serialized index. The trailing unplaced count is
/// optional; nothing may follow it.
pub open spec fn spec_parse_index(b: Seq<u8>) -> Option<GlobalIndexView> {
    if b.len() < 4 || b.take(4) != spec_magic() {
        None
    } else {
        match spec_take_u32(b.skip(4)) {
            None => None,
            Some((n, b1)) => match spec_parse_refs(n as nat, b1) {
                None => None,
                Some((refs, b2)) => if b2.len() == 0 {
                    Some(GlobalIndexView { references: refs, unplaced: 0 })
                } else {
                    match spec_take_u64(b2) {
                        None => None,
                        Some((u, b3)) => if b3.len() == 0 {
                            Some(GlobalIndexView { references: refs, unplaced: u })
                        } else {
                            None
                        },
                    }
                },
            },
        }
    }
}

/// Reading a `u32` back off its own bytes recovers it.
proof fn lemma_take_u32_of_ser(x: u32, rest: Seq<u8>)
    ensures
        spec_take_u32(spec_u32_to_le_bytes(x) + rest) == Some((x, rest)),
{
    lemma_auto_spec_u32_to_from_le_bytes();
    let b = spec_u32_to_le_bytes(x) + rest;
    assert(b.take(4) =~= spec_u32_to_le_bytes(x));
    assert(b.skip(4) =~= rest);
}

/// Reading a `u64` back off its own bytes recovers it.
proof fn lemma_take_u64_of_ser(x: u64, rest: Seq<u8>)
    ensures
        spec_take_u64(spec_u64_to_le_bytes(x) + rest) == Some((x, rest)),
{
    lemma_auto_spec_u64_to_from_le_bytes();
    let b = spec_u64_to_le_bytes(x) + rest;
    assert(b.take(8) =~= spec_u64_to_le_bytes(x));
    assert(b.skip(8) =~= rest);
}

/// Parsing a serialized chunk list recovers it.
proof fn lemma_parse_chunks_of_ser(s: Seq<Chunk>, rest: Seq<u8>)
    ensures
        spec_parse_chunks(s.len(), spec_ser_chunks(s) + rest) == Some((s, rest)),
    decreases s.len(),
{
    if s.len() == 0 {
        assert(spec_ser_chunks(s) + rest =~= rest);
        assert(s =~= Seq::<Chunk>::empty());
    } else {
        let c = s[0];
        let tail = spec_ser_chunks(s.drop_first()) + rest;
        assert(spec_ser_chunks(s) + rest =~= spec_u64_to_le_bytes(c.start.value) + (
        spec_u64_to_le_bytes(c.end.value) + tail));
        lemma_take_u64_of_ser(c.start.value, spec_u64_to_le_bytes(c.end.value) + tail);
        lemma_take_u64_of_ser(c.end.value, tail);
        lemma_parse_chunks_of_ser(s.drop_first(), rest);
        assert(VirtualOffset { value: c.start.value } == c.start);
        assert(VirtualOffset { value: c.end.value } == c.end);
        assert(seq![c] + s.drop_first() =~= s);
    }
}

/// Parsing a serialized interval list recovers it.
proof fn lemma_parse_offsets_of_ser(s: Seq<VirtualOffset>, rest: Seq<u8>)
    ensures
        spec_parse_offsets(s.len(), spec_ser_offsets(s) + rest) == Some((s, rest)),
    decreases s.len(),
{
    if s.len() == 0 {
        assert(spec_ser_offsets(s) + rest =~= rest);
        assert(s =~= Seq::<VirtualOffset>::empty());
    } else {
        let v = s[0];
        let tail = spec_ser_offsets(s.drop_first()) + rest;
        assert(spec_ser_offsets(s) + rest =~= spec_u64_to_le_bytes(v.value) + tail);
        lemma_take_u64_of_ser(v.value, tail);
        lemma_parse_offsets_of_ser(s.drop_first(), rest);
        assert(VirtualOffset { value: v.value } == v);
        assert(seq![v] + s.drop_first() =~= s);
    }
}

/// Parsing a serialized pseudo-bin recovers present metadata.
proof fn lemma_parse_meta_of_ser(m: Metadata, rest: Seq<u8>)
    requires
        crate::metadata::spec_meta_coherent(m),
        spec_meta_present(m),
    ensures
        spec_parse_bins(1, spec_ser_meta(m) + rest) == Some(
            ((Seq::<BinView>::empty(), m, true), rest),
        ),
{
    let f = spec_bound_value(m.first);
    let l = spec_bound_value(m.last);
    let t4 = spec_u64_to_le_bytes(m.unmapped) + rest;
    let t3 = spec_u64_to_le_bytes(m.mapped) + t4;
    let t2 = spec_u64_to_le_bytes(l) + t3;
    let t1 = spec_u64_to_le_bytes(f) + t2;
    let t0 = spec_u32_to_le_bytes(2u32) + t1;
    assert(spec_ser_meta(m) + rest =~= spec_u32_to_le_bytes(METADATA_BIN_ID) + t0);
    lemma_take_u32_of_ser(METADATA_BIN_ID, t0);
    lemma_take_u32_of_ser(2u32, t1);
    lemma_take_u64_of_ser(f, t2);
    lemma_take_u64_of_ser(l, t3);
    lemma_take_u64_of_ser(m.mapped, t4);
    lemma_take_u64_of_ser(m.unmapped, rest);
    assert(spec_parse_bins(0, rest) == Some(
        ((Seq::<BinView>::empty(), spec_meta_init(), false), rest),
    ));
    // Counts are nonzero, so both bounds are present and the decoded
    // metadata matches field for field.
    assert(m.first is Some && m.last is Some);
    assert(Some(VirtualOffset { value: f }) == m.first);
    assert(Some(VirtualOffset { value: l }) == m.last);
    assert(Metadata {
        mapped: m.mapped,
        unmapped: m.unmapped,
        first: Some(VirtualOffset { value: f }),
        last: Some(VirtualOffset { value: l }),
    } == m);
}

/// Parsing serialized bins and pseudo-bin recovers them.
proof fn lemma_parse_bins_of_ser(s: Seq<BinView>, m: Metadata, rest: Seq<u8>)
    requires
        forall|k: int| 0 <= k < s.len() ==> #[trigger] s[k].id < METADATA_BIN_ID,
        forall|k: int| 0 <= k < s.len() ==> #[trigger] s[k].chunks.len() <= u32::MAX,
        crate::metadata::spec_meta_coherent(m),
    ensures
        spec_parse_bins(
            (s.len() + (if spec_meta_present(m) {
                1int
            } else {
                0int
            })) as nat,
            spec_ser_bins(s) + spec_ser_meta(m) + rest,
        ) == Some(((s, m, spec_meta_present(m)), rest)),
    decreases s.len(),
{
    if s.len() == 0 {
        assert(spec_ser_bins(s) + spec_ser_meta(m) + rest =~= spec_ser_meta(m) + rest);
        assert(s =~= Seq::<BinView>::empty());
        if spec_meta_present(m) {
            lemma_parse_meta_of_ser(m, rest);
        } else {
            assert(m == spec_meta_init());
        }
    } else {
        let b0 = s[0];
        let cnt = b0.chunks.len() as u32;
        let after_chunks = spec_ser_bins(s.drop_first()) + spec_ser_meta(m) + rest;
        let t1 = spec_u32_to_le_bytes(cnt) + (spec_ser_chunks(b0.chunks) + after_chunks);
        assert(spec_ser_bins(s) + spec_ser_meta(m) + rest =~= spec_u32_to_le_bytes(b0.id) + t1);
        lemma_take_u32_of_ser(b0.id, t1);
        lemma_take_u32_of_ser(cnt, spec_ser_chunks(b0.chunks) + after_chunks);
        assert(cnt as nat == b0.chunks.len());
        lemma_parse_chunks_of_ser(b0.chunks, after_chunks);
        lemma_parse_bins_of_ser(s.drop_first(), m, rest);
        assert(BinView { id: b0.id, chunks: b0.chunks } == b0);
        assert(seq![b0] + s.drop_first() =~= s);
    }
}

/// Parsing one serialized reference recovers it.
proof fn lemma_parse_ref_of_ser(r: RefIndexView, rest: Seq<u8>)
    requires
        spec_ref_wf(r),
        spec_ref_fits(r),
    ensures
        spec_parse_ref(spec_ser_ref(r) + rest) == Some((r, rest)),
{
    let nbin = spec_bin_count(r) as u32;
    let after_bins = spec_u32_to_le_bytes(r.linear_index.len() as u32) + (spec_ser_offsets(
        r.linear_index,
    ) + rest);
    let t1 = spec_ser_bins(r.bins) + spec_ser_meta(r.metadata) + after_bins;
    assert(spec_ser_ref(r) + rest =~= spec_u32_to_le_bytes(nbin) + t1);
    lemma_take_u32_of_ser(nbin, t1);
    assert(nbin as nat == (r.bins.len() + (if spec_meta_present(r.metadata) {
        1int
    } else {
        0int
    })) as nat);
    assert(t1 =~= spec_ser_bins(r.bins) + spec_ser_meta(r.metadata) + after_bins);
    lemma_parse_bins_of_ser(r.bins, r.metadata, after_bins);
    lemma_take_u32_of_ser(r.linear_index.len() as u32, spec_ser_offsets(r.linear_index) + rest);
    assert((r.linear_index.len() as u32) as nat == r.linear_index.len());
    lemma_parse_offsets_of_ser(r.linear_index, rest);
    assert(RefIndexView {
        bins: r.bins,
        linear_index: r.linear_index,
        metadata: r.metadata,
    } == r);
}

/// Parsing a serialized reference list recovers it.
proof fn lemma_parse_refs_of_ser(s: Seq<RefIndexView>, rest: Seq<u8>)
    requires
        forall|i: int| 0 <= i < s.len() ==> spec_ref_wf(#[trigger] s[i]),
        forall|i: int| 0 <= i < s.len() ==> spec_ref_fits(#[trigger] s[i]),
    ensures
        spec_parse_refs(s.len(), spec_ser_refs(s) + rest) == Some((s, rest)),
    decreases s.len(),
{
    if s.len() == 0 {
        assert(spec_ser_refs(s) + rest =~= rest);
        assert(s =~= Seq::<RefIndexView>::empty());
    } else {
        let tail = spec_ser_refs(s.drop_first()) + rest;
        assert(spec_ser_refs(s) + rest =~= spec_ser_ref(s[0]) + tail);
        lemma_parse_ref_of_ser(s[0], tail);
        lemma_parse_refs_of_ser(s.drop_first(), rest);
        assert(seq![s[0]] + s.drop_first() =~= s);
    }
}

/// Round trip: serializing a well-formed index and parsing the bytes
/// back yields an index equal in bins, chunks, linear index, metadata
/// and unplaced count to the original.
pub proof fn lemma_serialize_parse_round_trip(g: GlobalIndexView)
    requires
        spec_index_wf(g),
        spec_counts_fit(g),
    ensures
        spec_parse_index(spec_ser_index(g)) == Some(g),
{
    lemma_auto_spec_u64_to_from_le_bytes();
    let b = spec_ser_index(g);
    let tail_u = spec_u64_to_le_bytes(g.unplaced);
    let t1 = spec_ser_refs(g.references) + tail_u;
    assert(b.len() >= 4 && b.take(4) =~= spec_magic());
    assert(b.skip(4) =~= spec_u32_to_le_bytes(g.references.len() as u32) + t1);
    lemma_take_u32_of_ser(g.references.len() as u32, t1);
    assert((g.references.len() as u32) as nat == g.references.len());
    lemma_parse_refs_of_ser(g.references, tail_u);
    assert(tail_u.len() == 8);
    assert(tail_u =~= tail_u + Seq::<u8>::empty());
    lemma_take_u64_of_ser(g.unplaced, Seq::<u8>::empty());
    assert(GlobalIndexView { references: g.references, unplaced: g.unplaced } == g);
}

/// Reads a little-endian `u32` at `pos`.
fn read_u32(bytes: &[u8], pos: usize) -> (r: Result<(u32, usize), IndexError>)
    requires
        pos <= bytes@.len(),
    ensures
        match r {
            Ok((x, p2)) => p2 == pos + 4 && p2 <= bytes@.len() && spec_take_u32(
                bytes@.skip(pos as int),
            ) == Some((x, bytes@.skip(p2 as int))),
            Err(e) => spec_take_u32(bytes@.skip(pos as int)) is None && e == IndexError::Malformed,
        },
{
    if bytes.len() - pos >= 4 {
        let s = slice_subrange(bytes, pos, pos + 4);
        let x = u32_from_le_bytes(s);
        proof {
            assert(bytes@.skip(pos as int).take(4) =~= bytes@.subrange(pos as int, pos + 4));
            assert(bytes@.skip(pos as int).skip(4) =~= bytes@.skip(pos + 4));
        }
        Ok((x, pos + 4))
    } else {
        Err(IndexError::Malformed)
    }
}

/// Reads a little-endian `u64` at `pos`.
fn read_u64(bytes: &[u8], pos: usize) -> (r: Result<(u64, usize), IndexError>)
    requires
        pos <= bytes@.len(),
    ensures
        match r {
            Ok((x, p2)) => p2 == pos + 8 && p2 <= bytes@.len() && spec_take_u64(
                bytes@.skip(pos as int),
            ) == Some((x, bytes@.skip(p2 as int))),
            Err(e) => spec_take_u64(bytes@.skip(pos as int)) is None && e == IndexError::Malformed,
        },
{
    if bytes.len() - pos >= 8 {
        let s = slice_subrange(bytes, pos, pos + 8);
        let x = u64_from_le_bytes(s);
        proof {
            assert(bytes@.skip(pos as int).take(8) =~= bytes@.subrange(pos as int, pos + 8));
            assert(bytes@.skip(pos as int).skip(8) =~= bytes@.skip(pos + 8));
        }
        Ok((x, pos + 8))
    } else {
        Err(IndexError::Malformed)
    }
}

/// Reads `n` chunks at `pos`.
fn parse_chunks_at(bytes: &[u8], pos: usize, n: u32) -> (r: Result<
    (Vec<Chunk>, usize),
    IndexError,
>)
    requires
        pos <= bytes@.len(),
    ensures
        match r {
            Ok((v, p2)) => p2 <= bytes@.len() && spec_parse_chunks(
                n as nat,
                bytes@.skip(pos as int),
            ) == Some((v@, bytes@.skip(p2 as int))),
            Err(e) => spec_parse_chunks(n as nat, bytes@.skip(pos as int)) is None && e
                == IndexError::Malformed,
        },
{
    let mut acc: Vec<Chunk> = Vec::new();
    let mut cur = pos;
    let mut i: u32 = 0;
    proof {
        match spec_parse_chunks(n as nat, bytes@.skip(pos as int)) {
            Option::None => {},
            Option::Some((s, rem)) => {
                assert(acc@ + s =~= s);
            },
        }
    }
    while i < n
        invariant
            i <= n,
            cur <= bytes@.len(),
            spec_parse_chunks(n as nat, bytes@.skip(pos as int)) == (match spec_parse_chunks(
                (n - i) as nat,
                bytes@.skip(cur as int),
            ) {
                Option::None => Option::<(Seq<Chunk>, Seq<u8>)>::None,
                Option::Some((s, rem)) => Option::Some((acc@ + s, rem)),
            }),
        decreases n - i,
    {
        let ghost old_acc = acc@;
        let ghost old_cur = cur as int;
        let sv = match read_u64(bytes, cur) {
            Ok((x, p)) => {
                cur = p;
                x
            },
            Err(e) => {
                return Err(e);
            },
        };
        let ev = match read_u64(bytes, cur) {
            Ok((x, p)) => {
                cur = p;
                x
            },
            Err(e) => {
                return Err(e);
            },
        };
        let c = Chunk { start: VirtualOffset { value: sv }, end: VirtualOffset { value: ev } };
        acc.push(c);
        i = i + 1;
        proof {
            let inner = spec_parse_chunks((n - i) as nat, bytes@.skip(cur as int));
            match inner {
                Option::None => {},
                Option::Some((s, rem)) => {
                    assert(old_acc.push(c) + s =~= old_acc + (seq![c] + s));
                },
            }
        }
    }
    proof {
        assert(spec_parse_chunks(0, bytes@.skip(cur as int)) == Some(
            (Seq::<Chunk>::empty(), bytes@.skip(cur as int)),
        ));
        assert(acc@ + Seq::<Chunk>::empty() =~= acc@);
    }
    Ok((acc, cur))
}

/// Reads `n` linear-index intervals at `pos`.
fn parse_offsets_at(bytes: &[u8], pos: usize, n: u32) -> (r: Result<
    (Vec<VirtualOffset>, usize),
    IndexError,
>)
    requires
        pos <= bytes@.len(),
    ensures
        match r {
            Ok((v, p2)) => p2 <= bytes@.len() && spec_parse_offsets(
                n as nat,
                bytes@.skip(pos as int),
            ) == Some((v@, bytes@.skip(p2 as int))),
            Err(e) => spec_parse_offsets(n as nat, bytes@.skip(pos as int)) is None && e
                == IndexError::Malformed,
        },
{
    let mut acc: Vec<VirtualOffset> = Vec::new();
    let mut cur = pos;
    let mut i: u32 = 0;
    proof {
        match spec_parse_offsets(n as nat, bytes@.skip(pos as int)) {
            Option::None => {},
            Option::Some((s, rem)) => {
                assert(acc@ + s =~= s);
            },
        }
    }
    while i < n
        invariant
            i <= n,
            cur <= bytes@.len(),
            spec_parse_offsets(n as nat, bytes@.skip(pos as int)) == (match spec_parse_offsets(
                (n - i) as nat,
                bytes@.skip(cur as int),
            ) {
                Option::None => Option::<(Seq<VirtualOffset>, Seq<u8>)>::None,
                Option::Some((s, rem)) => Option::Some((acc@ + s, rem)),
            }),
        decreases n - i,
    {
        let ghost old_acc = acc@;
        let v = match read_u64(bytes, cur) {
            Ok((x, p)) => {
                cur = p;
                x
            },
            Err(e) => {
                return Err(e);
            },
        };
        let vo = VirtualOffset { value: v };
        acc.push(vo);
        i = i + 1;
        proof {
            let inner = spec_parse_offsets((n - i) as nat, bytes@.skip(cur as int));
            match inner {
                Option::None => {},
                Option::Some((s, rem)) => {
                    assert(old_acc.push(vo) + s =~= old_acc + (seq![vo] + s));
                },
            }
        }
    }
    proof {
        assert(spec_parse_offsets(0, bytes@.skip(cur as int)) == Some(
            (Seq::<VirtualOffset>::empty(), bytes@.skip(cur as int)),
        ));
        assert(acc@ + Seq::<VirtualOffset>::empty() =~= acc@);
    }
    Ok((acc, cur))
}

/// Reads `n` bin entries at `pos`, splitting off the pseudo-bin.
#[verifier::rlimit(100)]
fn parse_bins_at(bytes: &[u8], pos: usize, n: u32) -> (r: Result<
    (Vec<Bin>, Metadata, bool, usize),
    IndexError,
>)
    requires
        pos <= bytes@.len(),
    ensures
        match r {
            Ok((bins, m, seen, p2)) => p2 <= bytes@.len() && spec_parse_bins(
                n as nat,
                bytes@.skip(pos as int),
            ) == Some(((crate::chunk::bins_view(bins@), m, seen), bytes@.skip(p2 as int))),
            Err(e) => spec_parse_bins(n as nat, bytes@.skip(pos as int)) is None && e
                == IndexError::Malformed,
        },
{
    let mut acc: Vec<Bin> = Vec::new();
    let mut macc = Metadata { mapped: 0, unmapped: 0, first: None, last: None };
    let mut mseen = false;
    let mut cur = pos;
    let mut i: u32 = 0;
    proof {
        match spec_parse_bins(n as nat, bytes@.skip(pos as int)) {
            Option::None => {},
            Option::Some(((bins, m, seen), rem)) => {
                assert(crate::chunk::bins_view(acc@) + bins =~= bins);
            },
        }
    }
    while i < n
        invariant
            i <= n,
            cur <= bytes@.len(),
            !mseen ==> macc == spec_meta_init(),
            spec_parse_bins(n as nat, bytes@.skip(pos as int)) == (match spec_parse_bins(
                (n - i) as nat,
                bytes@.skip(cur as int),
            ) {
                Option::None => Option::<((Seq<BinView>, Metadata, bool), Seq<u8>)>::None,
                Option::Some(((bins, m, seen), rem)) => Option::Some(
                    (
                        (
                            crate::chunk::bins_view(acc@) + bins,
                            if seen {
                                m
                            } else if mseen {
                                macc
                            } else {
                                m
                            },
                            seen || mseen,
                        ),
                        rem,
                    ),
                ),
            }),
        decreases n - i,
    {
        let ghost old_acc = acc@;
        let ghost old_macc = macc;
        let ghost old_mseen = mseen;
        let id = match read_u32(bytes, cur) {
            Ok((x, p)) => {
                cur = p;
                x
            },
            Err(e) => {
                return Err(e);
            },
        };
        let cnt = match read_u32(bytes, cur) {
            Ok((x, p)) => {
                cur = p;
                x
            },
            Err(e) => {
                return Err(e);
            },
        };
        if id == METADATA_BIN_ID {
            if cnt != 2 {
                return Err(IndexError::Malformed);
            }
            let f = match read_u64(bytes, cur) {
                Ok((x, p)) => {
                    cur = p;
                    x
                },
                Err(e) => {
                    return Err(e);
                },
            };
            let l = match read_u64(bytes, cur) {
                Ok((x, p)) => {
                    cur = p;
                    x
                },
                Err(e) => {
                    return Err(e);
                },
            };
            let mp = match read_u64(bytes, cur) {
                Ok((x, p)) => {
                    cur = p;
                    x
                },
                Err(e) => {
                    return Err(e);
                },
            };
            let um = match read_u64(bytes, cur) {
                Ok((x, p)) => {
                    cur = p;
                    x
                },
                Err(e) => {
                    return Err(e);
                },
            };
            macc = Metadata {
                mapped: mp,
                unmapped: um,
                first: Some(VirtualOffset { value: f }),
                last: Some(VirtualOffset { value: l }),
            };
            mseen = true;
            i = i + 1;
        } else {
            let (chunks, p) = match parse_chunks_at(bytes, cur, cnt) {
                Ok(t) => t,
                Err(e) => {
                    return Err(e);
                },
            };
            cur = p;
            acc.push(Bin { id, chunks });
            i = i + 1;
            proof {
                let inner = spec_parse_bins((n - i) as nat, bytes@.skip(cur as int));
                match inner {
                    Option::None => {},
                    Option::Some(((bins, m, seen), rem)) => {
                        assert(crate::chunk::bins_view(acc@) =~~= crate::chunk::bins_view(old_acc)
                            + seq![BinView { id, chunks: chunks@ }]);
                        assert(crate::chunk::bins_view(old_acc) + (seq![
                            BinView { id, chunks: chunks@ },
                        ] + bins) =~= (crate::chunk::bins_view(old_acc) + seq![
                            BinView { id, chunks: chunks@ },
                        ]) + bins);
                    },
                }
            }
        }
    }
    proof {
        assert(spec_parse_bins(0, bytes@.skip(cur as int)) == Some(
            ((Seq::<BinView>::empty(), spec_meta_init(), false), bytes@.skip(cur as int)),
        ));
        assert(crate::chunk::bins_view(acc@) + Seq::<BinView>::empty() =~= crate::chunk::bins_view(
            acc@,
        ));
    }
    Ok((acc, macc, mseen, cur))
}

/// Reads one reference at `pos`.
fn parse_ref_at(bytes: &[u8], pos: usize) -> (r: Result<(ReferenceIndex, usize), IndexError>)
    requires
        pos <= bytes@.len(),
    ensures
        match r {
            Ok((ri, p2)) => p2 <= bytes@.len() && spec_parse_ref(bytes@.skip(pos as int)) == Some(
                (ri@, bytes@.skip(p2 as int)),
            ),
            Err(e) => spec_parse_ref(bytes@.skip(pos as int)) is None && e == IndexError::Malformed,
        },
{
    let (nbin, p1) = match read_u32(bytes, pos) {
        Ok(t) => t,
        Err(e) => {
            return Err(e);
        },
    };
    let (bins, m, _seen, p2) = match parse_bins_at(bytes, p1, nbin) {
        Ok(t) => t,
        Err(e) => {
            return Err(e);
        },
    };
    let (nintv, p3) = match read_u32(bytes, p2) {
        Ok(t) => t,
        Err(e) => {
            return Err(e);
        },
    };
    let (lin, p4) = match parse_offsets_at(bytes, p3, nintv) {
        Ok(t) => t,
        Err(e) => {
            return Err(e);
        },
    };
    let ri = ReferenceIndex { bins, linear_index: lin, metadata: m };
    Ok((ri, p4))
}

/// Decodes a serialized index. Succeeds exactly on the byte strings
/// the layout admits, and then returns the index they encode.
pub fn parse_index(bytes: &[u8]) -> (r: Result<GlobalIndex, IndexError>)
    ensures
        match r {
            Ok(g) => spec_parse_index(bytes@) == Some(g@),
            Err(e) => spec_parse_index(bytes@) is None && e == IndexError::Malformed,
        },
{
    if bytes.len() < 4 {
        return Err(IndexError::Malformed);
    }
    if !(*slice_index_get(bytes, 0) == 66 && *slice_index_get(bytes, 1) == 65 && *slice_index_get(
        bytes,
        2,
    ) == 73 && *slice_index_get(bytes, 3) == 1) {
        proof {
            assert(bytes@.take(4) != spec_magic());
        }
        return Err(IndexError::Malformed);
    }
    proof {
        assert(bytes@.take(4) =~= spec_magic());
    }
    let (n_ref, p1) = match read_u32(bytes, 4) {
        Ok(t) => t,
        Err(e) => {
            return Err(e);
        },
    };
    let mut refs: Vec<ReferenceIndex> = Vec::new();
    let mut cur = p1;
    let mut i: u32 = 0;
    proof {
        match spec_parse_refs(n_ref as nat, bytes@.skip(p1 as int)) {
            Option::None => {},
            Option::Some((s, rem)) => {
                assert(refs@.map_values(|x: ReferenceIndex| x@) + s =~= s);
            },
        }
    }
    while i < n_ref
        invariant
            i <= n_ref,
            cur <= bytes@.len(),
            bytes@.len() >= 4,
            bytes@.take(4) == spec_magic(),
            spec_take_u32(bytes@.skip(4)) == Some((n_ref, bytes@.skip(p1 as int))),
            spec_parse_refs(n_ref as nat, bytes@.skip(p1 as int)) == (match spec_parse_refs(
                (n_ref - i) as nat,
                bytes@.skip(cur as int),
            ) {
                Option::None => Option::<(Seq<RefIndexView>, Seq<u8>)>::None,
                Option::Some((s, rem)) => Option::Some(
                    (refs@.map_values(|x: ReferenceIndex| x@) + s, rem),
                ),
            }),
        decreases n_ref - i,
    {
        let ghost old_refs = refs@;
        let (ri, p) = match parse_ref_at(bytes, cur) {
            Ok(t) => t,
            Err(e) => {
                return Err(e);
            },
        };
        cur = p;
        refs.push(ri);
        i = i + 1;
        proof {
            let inner = spec_parse_refs((n_ref - i) as nat, bytes@.skip(cur as int));
            assert(refs@.map_values(|x: ReferenceIndex| x@) =~~= old_refs.map_values(
                |x: ReferenceIndex| x@,
            ) + seq![ri@]);
            match inner {
                Option::None => {},
                Option::Some((s, rem)) => {
                    assert(old_refs.map_values(|x: ReferenceIndex| x@) + (seq![ri@] + s) =~= (
                    old_refs.map_values(|x: ReferenceIndex| x@) + seq![ri@]) + s);
                },
            }
        }
    }
    proof {
        assert(spec_parse_refs(0, bytes@.skip(cur as int)) == Some(
            (Seq::<RefIndexView>::empty(), bytes@.skip(cur as int)),
        ));
        assert(refs@.map_values(|x: ReferenceIndex| x@) + Seq::<RefIndexView>::empty()
            =~= refs@.map_values(|x: ReferenceIndex| x@));
    }
    let unplaced: u64;
    if cur == bytes.len() {
        proof {
            assert(bytes@.skip(cur as int).len() == 0);
        }
        unplaced = 0;
    } else {
        let (u, p) = match read_u64(bytes, cur) {
            Ok(t) => t,
            Err(e) => {
                proof {
                    assert(bytes@.skip(cur as int).len() != 0);
                }
                return Err(e);
            },
        };
        if p != bytes.len() {
            proof {
                assert(bytes@.skip(p as int).len() != 0);
            }
            return Err(IndexError::Malformed);
        }
        proof {
            assert(bytes@.skip(p as int).len() == 0);
        }
        unplaced = u;
    }
    let g = GlobalIndex { references: refs, unplaced };
    proof {
        assert(spec_parse_index(bytes@) == Some(g@));
    }
    Ok(g)
}

/// Building twice from the same ordered record stream yields the same
/// index and byte-identical serialized output: both the built index
/// and its encoding are functions of the stream alone.
pub proof fn lemma_build_idempotent(
    n: nat,
    recs: Seq<Record>,
    a: GlobalIndexView,
    b: GlobalIndexView,
)
    requires
        a == spec_finalize(spec_run(spec_indexer_init(n), recs)),
        b == spec_finalize(spec_run(spec_indexer_init(n), recs)),
    ensures
        a == b,
        spec_ser_index(a) == spec_ser_index(b),
{
}

} // verus!
