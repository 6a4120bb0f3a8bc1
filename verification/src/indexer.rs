//! The driving state machine: consumes one record at a time, updates
//! the three per-reference aggregators, and finalizes into the
//! immutable `GlobalIndex`.
//!
//! Construction validates the declared sort order before any record is
//! consumed; an out-of-range reference id aborts the whole build; and
//! because `finalize` takes the indexer by value there is no way back
//! from the finalized index to streaming.

use vstd::prelude::*;

use crate::binning::{bin_of, spec_bin_of, spec_bin_visited, lemma_bin_of_bound, lemma_shr_le,
    METADATA_BIN_ID, WINDOW_SHIFT};
use crate::chunk::{bin_ids_sorted, bins_view, chunk_covered, lemma_add_chunk_contents,
    lemma_add_chunk_ids, spec_add_chunk, spec_finalize_bins, spec_finalize_chunks, Bin, BinView,
    Chunk, ChunkAggregator};
use crate::error::IndexError;
use crate::linear::{entries_monotone, lemma_lin_add_monotone, lemma_lin_fill_monotone,
    offsets_monotone, spec_lin_add, spec_lin_fill, LinearIndexBuilder};
use crate::metadata::{spec_meta_add, spec_meta_coherent, spec_meta_init, Metadata,
    MetadataAggregator};
use crate::record::{Header, Record, SortOrder};
use crate::virtual_offset::VirtualOffset;

verus! {

/// The three aggregators of one reference sequence during streaming.
#[derive(Debug)]
pub struct ReferenceBuilder {
    chunks: ChunkAggregator,
    linear: LinearIndexBuilder,
    metadata: MetadataAggregator,
}

/// The mathematical content of a `ReferenceBuilder`.
#[verifier::ext_equal]
pub ghost struct RefBuilderView {
    pub bins: Seq<BinView>,
    pub entries: Seq<Option<VirtualOffset>>,
    pub meta: Metadata,
}

impl View for ReferenceBuilder {
    type V = RefBuilderView;

    closed spec fn view(&self) -> RefBuilderView {
        RefBuilderView { bins: self.chunks@, entries: self.linear@, meta: self.metadata@ }
    }
}

/// A reference builder before any record.
pub open spec fn spec_ref_builder_init() -> RefBuilderView {
    RefBuilderView {
        bins: Seq::<BinView>::empty(),
        entries: Seq::<Option<VirtualOffset>>::empty(),
        meta: spec_meta_init(),
    }
}

/// What streaming maintains per reference: bin ids sorted and below
/// the metadata pseudo-bin, and coherent metadata.
pub open spec fn spec_ref_builder_wf(rb: RefBuilderView) -> bool {
    &&& bin_ids_sorted(rb.bins)
    &&& forall|k: int| 0 <= k < rb.bins.len() ==> #[trigger] rb.bins[k].id < METADATA_BIN_ID
    &&& spec_meta_coherent(rb.meta)
}

impl ReferenceBuilder {
    /// Starts all three aggregators empty.
    pub fn new() -> (rb: ReferenceBuilder)
        ensures
            rb@ == spec_ref_builder_init(),
    {
        let rb = ReferenceBuilder {
            chunks: ChunkAggregator::new(),
            linear: LinearIndexBuilder::new(),
            metadata: MetadataAggregator::new(),
        };
        proof {
            assert(rb@ =~~= spec_ref_builder_init());
        }
        rb
    }

    /// Applies one placed record: its chunk under `bin`, its bounding
    /// start offset at window `w`, and its counts and bounds.
    fn add_placed(&mut self, bin: u32, w: usize, mapped_flag: bool, c: Chunk)
        requires
            old(self)@.meta.mapped < u64::MAX,
            old(self)@.meta.unmapped < u64::MAX,
        ensures
            final(self)@ == (RefBuilderView {
                bins: spec_add_chunk(old(self)@.bins, bin, c),
                entries: spec_lin_add(old(self)@.entries, w as int, c.start),
                meta: spec_meta_add(old(self)@.meta, mapped_flag, c),
            }),
    {
        self.chunks.add(bin, c);
        self.linear.add(w, c.start);
        self.metadata.update(mapped_flag, c);
        proof {
            assert(self@ =~~= RefBuilderView {
                bins: spec_add_chunk(old(self)@.bins, bin, c),
                entries: spec_lin_add(old(self)@.entries, w as int, c.start),
                meta: spec_meta_add(old(self)@.meta, mapped_flag, c),
            });
        }
    }

    /// Finalizes this reference: sorts and merges each bin's chunks
    /// and gap-fills the linear index.
    pub fn finalize(self) -> (r: ReferenceIndex)
        ensures
            r@ == spec_finalize_ref(self@),
    {
        let ghost sv = self@;
        let ReferenceBuilder { chunks, linear, metadata } = self;
        let r = ReferenceIndex {
            bins: chunks.finalize(),
            linear_index: linear.finalize(),
            metadata: metadata.finalize(),
        };
        proof {
            assert(r@ =~~= spec_finalize_ref(sv));
        }
        r
    }
}

/// One finalized, immutable reference index.
#[derive(Debug, PartialEq)]
pub struct ReferenceIndex {
    pub bins: Vec<Bin>,
    pub linear_index: Vec<VirtualOffset>,
    pub metadata: Metadata,
}

/// The mathematical content of a `ReferenceIndex`.
#[verifier::ext_equal]
pub ghost struct RefIndexView {
    pub bins: Seq<BinView>,
    pub linear_index: Seq<VirtualOffset>,
    pub metadata: Metadata,
}

impl View for ReferenceIndex {
    type V = RefIndexView;

    open spec fn view(&self) -> RefIndexView {
        RefIndexView {
            bins: bins_view(self.bins@),
            linear_index: self.linear_index@,
            metadata: self.metadata,
        }
    }
}

/// What `finalize` makes of one reference builder.
pub open spec fn spec_finalize_ref(rb: RefBuilderView) -> RefIndexView {
    RefIndexView {
        bins: spec_finalize_bins(rb.bins),
        linear_index: spec_lin_fill(rb.entries, VirtualOffset { value: 0 }),
        metadata: rb.meta,
    }
}

/// Well-formedness of a finalized reference index.
pub open spec fn spec_ref_wf(r: RefIndexView) -> bool {
    &&& bin_ids_sorted(r.bins)
    &&& forall|k: int| 0 <= k < r.bins.len() ==> #[trigger] r.bins[k].id < METADATA_BIN_ID
    &&& spec_meta_coherent(r.metadata)
}

/// The finished index: one reference index per header-declared
/// reference, in header order, plus the global unplaced-record count.
#[derive(Debug, PartialEq)]
pub struct GlobalIndex {
    pub references: Vec<ReferenceIndex>,
    pub unplaced: u64,
}

/// The mathematical content of a `GlobalIndex`.
#[verifier::ext_equal]
pub ghost struct GlobalIndexView {
    pub references: Seq<RefIndexView>,
    pub unplaced: u64,
}

impl View for GlobalIndex {
    type V = GlobalIndexView;

    open spec fn view(&self) -> GlobalIndexView {
        GlobalIndexView {
            references: self.references@.map_values(|r: ReferenceIndex| r@),
            unplaced: self.unplaced,
        }
    }
}

/// Well-formedness of a finalized index.
pub open spec fn spec_index_wf(g: GlobalIndexView) -> bool {
    forall|i: int| 0 <= i < g.references.len() ==> spec_ref_wf(#[trigger] g.references[i])
}

/// The mathematical content of an `Indexer` mid-stream.
#[verifier::ext_equal]
pub ghost struct IndexerView {
    pub references: Seq<RefBuilderView>,
    pub unplaced: u64,
}

/// The indexer state right after construction: one empty reference
/// builder per declared reference, and no unplaced records.
pub open spec fn spec_indexer_init(n: nat) -> IndexerView {
    IndexerView {
        references: Seq::new(n, |i: int| spec_ref_builder_init()),
        unplaced: 0,
    }
}

/// A record the indexer accepts: any reference id it names lies in the
/// header's declared range.
pub open spec fn spec_record_ok(v: IndexerView, r: Record) -> bool {
    r.reference_id is Some ==> r.reference_id->0 < v.references.len()
}

/// One placed record's effect on its reference builder.
pub open spec fn spec_ref_add(rb: RefBuilderView, r: Record) -> RefBuilderView
    recommends
        r.placed(),
{
    RefBuilderView {
        bins: spec_add_chunk(rb.bins, spec_bin_of(r.start->0, r.end->0), r.chunk),
        entries: spec_lin_add(rb.entries, (r.start->0 >> WINDOW_SHIFT) as int, r.chunk.start),
        meta: spec_meta_add(rb.meta, r.mapped, r.chunk),
    }
}

/// One record's effect on the whole indexer state.
pub open spec fn spec_step(v: IndexerView, r: Record) -> IndexerView
    recommends
        spec_record_ok(v, r),
{
    if r.placed() {
        let id = r.reference_id->0 as int;
        IndexerView {
            references: v.references.update(id, spec_ref_add(v.references[id], r)),
            unplaced: v.unplaced,
        }
    } else {
        IndexerView { references: v.references, unplaced: (v.unplaced + 1) as u64 }
    }
}

/// The state after consuming a whole record stream in order.
pub open spec fn spec_run(v: IndexerView, recs: Seq<Record>) -> IndexerView
    decreases recs.len(),
{
    if recs.len() == 0 {
        v
    } else {
        spec_step(spec_run(v, recs.drop_last()), recs.last())
    }
}

/// What `Indexer::finalize` makes of the streamed state.
pub open spec fn spec_finalize(v: IndexerView) -> GlobalIndexView {
    GlobalIndexView {
        references: v.references.map_values(|rb: RefBuilderView| spec_finalize_ref(rb)),
        unplaced: v.unplaced,
    }
}

/// A coordinate-sorted stream with monotone byte positions: placed
/// records of one reference arrive with non-decreasing starts, and
/// every record's chunk starts at or after the previous record's.
pub open spec fn spec_stream_sorted(recs: Seq<Record>) -> bool {
    &&& forall|i: int, j: int|
        0 <= i < j < recs.len() && recs[i].placed() && recs[j].placed()
            && #[trigger] recs[i].reference_id == #[trigger] recs[j].reference_id
            ==> recs[i].start->0 <= recs[j].start->0
    &&& forall|i: int, j: int|
        0 <= i < j < recs.len() ==> #[trigger] recs[i].chunk.start.value
            <= #[trigger] recs[j].chunk.start.value
}

/// Every reference id named by the stream is in the declared range.
pub open spec fn spec_stream_ok(n: nat, recs: Seq<Record>) -> bool {
    forall|i: int|
        0 <= i < recs.len() ==> (#[trigger] recs[i].reference_id is Some
            ==> recs[i].reference_id->0 < n)
}

/// Every filled linear-index entry is the bounding start offset of
/// some stream record that started in that window of that reference.
spec fn lin_provenance(v: IndexerView, recs: Seq<Record>) -> bool {
    forall|t: int, k: int|
        0 <= t < v.references.len() && 0 <= k < v.references[t].entries.len()
            && #[trigger] v.references[t].entries[k] is Some ==> exists|i: int|
            0 <= i < recs.len() && (#[trigger] recs[i]).placed() && recs[i].reference_id->0 == t
                && (recs[i].start->0 >> WINDOW_SHIFT) as int == k && v.references[t].entries[k]->0
                == recs[i].chunk.start
}

/// Streaming a sorted stream keeps every reference's filled entries
/// monotone, and every entry comes from a record of its window.
proof fn lemma_run_linear(n: nat, recs: Seq<Record>)
    requires
        spec_stream_sorted(recs),
        spec_stream_ok(n, recs),
    ensures
        spec_run(spec_indexer_init(n), recs).references.len() == n,
        forall|t: int|
            0 <= t < n ==> entries_monotone(
                #[trigger] spec_run(spec_indexer_init(n), recs).references[t].entries,
            ),
        lin_provenance(spec_run(spec_indexer_init(n), recs), recs),
    decreases recs.len(),
{
    if recs.len() == 0 {
        let v = spec_indexer_init(n);
        assert(forall|t: int| 0 <= t < n ==> #[trigger] v.references[t].entries.len() == 0);
    } else {
        let pre = recs.drop_last();
        let r = recs.last();
        assert(spec_stream_sorted(pre) && spec_stream_ok(n, pre)) by {
            assert(forall|i: int| 0 <= i < pre.len() ==> pre[i] == recs[i]);
        }
        lemma_run_linear(n, pre);
        let u = spec_run(spec_indexer_init(n), pre);
        let v = spec_step(u, r);
        assert(v == spec_run(spec_indexer_init(n), recs));
        let last = (recs.len() - 1) as int;
        assert(recs[last] == r);
        if r.placed() {
            let id = r.reference_id->0 as int;
            assert(r.reference_id is Some);
            assert(0 <= id < n);
            let w = (r.start->0 >> WINDOW_SHIFT) as int;
            let oldent = u.references[id].entries;
            // Every filled value comes from an earlier record, whose
            // chunk start is at or below this record's.
            assert forall|k: int|
                0 <= k < oldent.len() && oldent[k] is Some implies oldent[k]->0.value
                <= r.chunk.start.value by {
                let i = choose|i: int|
                    0 <= i < pre.len() && (#[trigger] pre[i]).placed() && pre[i].reference_id->0
                        == id && (pre[i].start->0 >> WINDOW_SHIFT) as int == k
                        && oldent[k]->0 == pre[i].chunk.start;
                assert(recs[i] == pre[i]);
                assert(recs[i].chunk.start.value <= recs[last].chunk.start.value);
            }
            // Nothing is filled past this record's window: starts of
            // one reference never decrease, and shifts are monotone.
            assert forall|k: int| w < k < oldent.len() implies oldent[k] is None by {
                if oldent[k] is Some {
                    let i = choose|i: int|
                        0 <= i < pre.len() && (#[trigger] pre[i]).placed() && pre[i].reference_id->0
                            == id && (pre[i].start->0 >> WINDOW_SHIFT) as int == k
                            && oldent[k]->0 == pre[i].chunk.start;
                    assert(recs[i] == pre[i]);
                    assert(recs[i].reference_id == recs[last].reference_id);
                    assert(recs[i].start->0 <= r.start->0);
                    lemma_shr_le(recs[i].start->0, r.start->0, WINDOW_SHIFT);
                }
            }
            lemma_lin_add_monotone(oldent, w, r.chunk.start);
            let newent = spec_lin_add(oldent, w, r.chunk.start);
            assert forall|t: int|
                0 <= t < n implies entries_monotone(#[trigger] v.references[t].entries) by {
                if t != id {
                    assert(v.references[t] == u.references[t]);
                } else {
                    assert(v.references[t].entries == newent);
                }
            }
            assert forall|t: int, k: int|
                0 <= t < v.references.len() && 0 <= k < v.references[t].entries.len()
                    && #[trigger] v.references[t].entries[k] is Some implies exists|i: int|
                    0 <= i < recs.len() && (#[trigger] recs[i]).placed() && recs[i].reference_id->0
                        == t && (recs[i].start->0 >> WINDOW_SHIFT) as int == k
                        && v.references[t].entries[k]->0 == recs[i].chunk.start by {
                if t != id || (k < oldent.len() && oldent[k] is Some) {
                    let ent = u.references[t].entries;
                    assert(v.references[t].entries[k] == ent[k]);
                    let i = choose|i: int|
                        0 <= i < pre.len() && (#[trigger] pre[i]).placed() && pre[i].reference_id->0
                            == t && (pre[i].start->0 >> WINDOW_SHIFT) as int == k && ent[k]->0
                            == pre[i].chunk.start;
                    assert(recs[i] == pre[i]);
                    assert((recs[i]).placed());
                } else {
                    // The entry is new: it is this record's.
                    assert(v.references[t].entries[k] == newent[k]);
                    if k != w {
                        assert(newent[k] is None);
                    } else {
                        assert(newent[w] == Some(r.chunk.start));
                        assert((recs[last]).placed());
                    }
                }
            }
        } else {
            assert(v.references == u.references);
            assert forall|t: int, k: int|
                0 <= t < v.references.len() && 0 <= k < v.references[t].entries.len()
                    && #[trigger] v.references[t].entries[k] is Some implies exists|i: int|
                    0 <= i < recs.len() && (#[trigger] recs[i]).placed() && recs[i].reference_id->0
                        == t && (recs[i].start->0 >> WINDOW_SHIFT) as int == k
                        && v.references[t].entries[k]->0 == recs[i].chunk.start by {
                let ent = u.references[t].entries;
                let i = choose|i: int|
                    0 <= i < pre.len() && (#[trigger] pre[i]).placed() && pre[i].reference_id->0
                        == t && (pre[i].start->0 >> WINDOW_SHIFT) as int == k && ent[k]->0
                        == pre[i].chunk.start;
                assert(recs[i] == pre[i]);
                assert((recs[i]).placed());
            }
        }
    }
}

/// Linear-index entries are non-decreasing across increasing window
/// index, per reference, for every coordinate-sorted stream with
/// monotone byte positions and in-range reference ids and coordinates.
pub proof fn lemma_linear_index_monotone(n: nat, recs: Seq<Record>)
    requires
        spec_stream_sorted(recs),
        spec_stream_ok(n, recs),
    ensures
        forall|t: int|
            0 <= t < n ==> offsets_monotone(
                #[trigger] spec_finalize(
                    spec_run(spec_indexer_init(n), recs),
                ).references[t].linear_index,
            ),
{
    lemma_run_linear(n, recs);
    let v = spec_run(spec_indexer_init(n), recs);
    let g = spec_finalize(v);
    assert forall|t: int|
        0 <= t < n implies offsets_monotone(#[trigger] g.references[t].linear_index) by {
        assert(g.references[t] == spec_finalize_ref(v.references[t]));
        lemma_lin_fill_monotone(v.references[t].entries, VirtualOffset { value: 0 });
    }
}

/// A finalized index keeps a record reachable: some chunk of the bin
/// `bin_of(start, end)` of the record's reference covers the record's
/// byte range.
pub open spec fn spec_chunk_indexed(g: GlobalIndexView, r: Record) -> bool
    recommends
        r.placed(),
{
    exists|k: int|
        0 <= k < g.references[r.reference_id->0 as int].bins.len() && (
        #[trigger] g.references[r.reference_id->0 as int].bins[k]).id == spec_bin_of(
            r.start->0,
            r.end->0,
        ) && chunk_covered(r.chunk, g.references[r.reference_id->0 as int].bins[k].chunks)
}

/// Mid-stream form: the record's chunk sits verbatim in its bin.
spec fn chunk_recorded(v: IndexerView, r: Record) -> bool
    recommends
        r.placed(),
{
    exists|k: int|
        0 <= k < v.references[r.reference_id->0 as int].bins.len() && (
        #[trigger] v.references[r.reference_id->0 as int].bins[k]).id == spec_bin_of(
            r.start->0,
            r.end->0,
        ) && v.references[r.reference_id->0 as int].bins[k].chunks.contains(r.chunk)
}

/// While streaming, every placed record's chunk stays recorded under
/// its bin of its reference.
proof fn lemma_run_chunk_recorded(n: nat, recs: Seq<Record>)
    requires
        spec_stream_ok(n, recs),
    ensures
        spec_run(spec_indexer_init(n), recs).references.len() == n,
        forall|i: int|
            0 <= i < recs.len() && (#[trigger] recs[i]).placed() ==> chunk_recorded(
                spec_run(spec_indexer_init(n), recs),
                recs[i],
            ),
    decreases recs.len(),
{
    if recs.len() > 0 {
        let pre = recs.drop_last();
        let r = recs.last();
        let last = (recs.len() - 1) as int;
        assert(spec_stream_ok(n, pre)) by {
            assert(forall|i: int| 0 <= i < pre.len() ==> pre[i] == recs[i]);
        }
        lemma_run_chunk_recorded(n, pre);
        let u = spec_run(spec_indexer_init(n), pre);
        let v = spec_step(u, r);
        assert(v == spec_run(spec_indexer_init(n), recs));
        if r.placed() {
            let id = r.reference_id->0 as int;
            assert(recs[last].reference_id is Some);
            assert(0 <= id < n);
            let bin = spec_bin_of(r.start->0, r.end->0);
            lemma_add_chunk_contents(u.references[id].bins, bin, r.chunk);
            let newbins = spec_add_chunk(u.references[id].bins, bin, r.chunk);
            assert(v.references[id].bins == newbins);
            assert forall|i: int|
                0 <= i < recs.len() && (#[trigger] recs[i]).placed() implies chunk_recorded(
                v,
                recs[i],
            ) by {
                if i == last {
                    let k = choose|k: int|
                        0 <= k < newbins.len() && (#[trigger] newbins[k]).id == bin
                            && newbins[k].chunks.contains(r.chunk);
                    assert(v.references[id].bins[k].id == bin);
                } else {
                    assert(recs[i] == pre[i]);
                    assert(chunk_recorded(u, pre[i]));
                    let t = recs[i].reference_id->0 as int;
                    let ibin = spec_bin_of(recs[i].start->0, recs[i].end->0);
                    let k = choose|k: int|
                        0 <= k < u.references[t].bins.len() && (
                        #[trigger] u.references[t].bins[k]).id == ibin
                            && u.references[t].bins[k].chunks.contains(recs[i].chunk);
                    if t != id {
                        assert(v.references[t] == u.references[t]);
                        assert(chunk_recorded(v, recs[i]));
                    } else {
                        let oldbin = u.references[t].bins[k];
                        let k1 = choose|k1: int|
                            0 <= k1 < newbins.len() && (#[trigger] newbins[k1]).id == oldbin.id
                                && oldbin.chunks.is_prefix_of(newbins[k1].chunks);
                        let idx = choose|idx: int|
                            0 <= idx < oldbin.chunks.len() && oldbin.chunks[idx] == recs[i].chunk;
                        assert(oldbin.chunks == newbins[k1].chunks.subrange(
                            0,
                            oldbin.chunks.len() as int,
                        ));
                        assert(newbins[k1].chunks[idx] == recs[i].chunk);
                        assert(newbins[k1].chunks.contains(recs[i].chunk));
                        assert(chunk_recorded(v, recs[i]));
                    }
                }
            }
        } else {
            assert(v.references == u.references);
            assert forall|i: int|
                0 <= i < recs.len() && (#[trigger] recs[i]).placed() implies chunk_recorded(
                v,
                recs[i],
            ) by {
                assert(recs[i] == pre[i]);
                assert(chunk_recorded(u, pre[i]));
            }
        }
    }
}

/// No chunk is ever dropped: after finalizing a whole stream, every
/// placed record's byte range lies inside some chunk stored under the
/// record's own bin, so a reader that unions the chunks of the bins
/// its query enumerates cannot miss the record.
pub proof fn lemma_no_chunk_dropped(n: nat, recs: Seq<Record>)
    requires
        spec_stream_ok(n, recs),
    ensures
        forall|i: int|
            0 <= i < recs.len() && (#[trigger] recs[i]).placed() ==> spec_chunk_indexed(
                spec_finalize(spec_run(spec_indexer_init(n), recs)),
                recs[i],
            ),
{
    lemma_run_chunk_recorded(n, recs);
    let v = spec_run(spec_indexer_init(n), recs);
    let g = spec_finalize(v);
    assert forall|i: int|
        0 <= i < recs.len() && (#[trigger] recs[i]).placed() implies spec_chunk_indexed(
        g,
        recs[i],
    ) by {
        let t = recs[i].reference_id->0 as int;
        assert(recs[i].reference_id is Some);
        assert(0 <= t < n);
        let ibin = spec_bin_of(recs[i].start->0, recs[i].end->0);
        let k = choose|k: int|
            0 <= k < v.references[t].bins.len() && (#[trigger] v.references[t].bins[k]).id == ibin
                && v.references[t].bins[k].chunks.contains(recs[i].chunk);
        assert(g.references[t] == spec_finalize_ref(v.references[t]));
        assert(g.references[t].bins[k] == BinView {
            id: v.references[t].bins[k].id,
            chunks: spec_finalize_chunks(v.references[t].bins[k].chunks),
        });
        crate::chunk::lemma_finalize_covers(recs[i].chunk, v.references[t].bins[k].chunks);
    }
}

/// No false negatives, end to end: for any query `[a, b)` and any
/// placed record of the stream overlapping it, the finalized index
/// stores, under a bin the query enumeration visits, a chunk covering
/// the record's byte range. A reader that unions the chunks of the
/// visited bins of the record's reference therefore cannot miss it.
pub proof fn lemma_query_reaches_record(n: nat, recs: Seq<Record>, i: int, a: u32, b: u32)
    requires
        spec_stream_ok(n, recs),
        0 <= i < recs.len(),
        recs[i].placed(),
        recs[i].start->0 < recs[i].end->0,
        a < b,
        recs[i].start->0 < b,  // the record starts before the query ends
        a < recs[i].end->0,  // the query starts before the record ends
    ensures
        ({
            let g = spec_finalize(spec_run(spec_indexer_init(n), recs));
            let t = recs[i].reference_id->0 as int;
            exists|k: int|
                0 <= k < g.references[t].bins.len() && spec_bin_visited(
                    (#[trigger] g.references[t].bins[k]).id,
                    a,
                    b,
                ) && chunk_covered(recs[i].chunk, g.references[t].bins[k].chunks)
        }),
{
    lemma_no_chunk_dropped(n, recs);
    crate::binning::lemma_record_bin_visited(recs[i].start->0, recs[i].end->0, a, b);
    let g = spec_finalize(spec_run(spec_indexer_init(n), recs));
    let t = recs[i].reference_id->0 as int;
    assert(spec_chunk_indexed(g, recs[i]));
    let k = choose|k: int|
        0 <= k < g.references[t].bins.len() && (#[trigger] g.references[t].bins[k]).id
            == spec_bin_of(recs[i].start->0, recs[i].end->0) && chunk_covered(
            recs[i].chunk,
            g.references[t].bins[k].chunks,
        );
    assert(spec_bin_visited(g.references[t].bins[k].id, a, b));
}

/// Streams coordinate-sorted records into per-reference aggregators.
#[derive(Debug)]
pub struct Indexer {
    references: Vec<ReferenceBuilder>,
    unplaced: u64,
    seen: u64,
}

impl View for Indexer {
    type V = IndexerView;

    closed spec fn view(&self) -> IndexerView {
        IndexerView {
            references: self.references@.map_values(|rb: ReferenceBuilder| rb@),
            unplaced: self.unplaced,
        }
    }
}

impl Indexer {
    /// How many records this indexer has consumed.
    pub closed spec fn seen_records(self) -> u64 {
        self.seen
    }

    /// The streaming invariant: every reference builder is well formed
    /// and every counter is bounded by the number of records consumed.
    pub closed spec fn inv(self) -> bool {
        &&& forall|i: int|
            0 <= i < self@.references.len() ==> spec_ref_builder_wf(#[trigger] self@.references[i])
        &&& forall|i: int|
            0 <= i < self@.references.len() ==> (#[trigger] self@.references[i].meta.mapped
                + self@.references[i].meta.unmapped <= self.seen)
        &&& self@.unplaced <= self.seen
    }

    /// Reads the number of records consumed so far, so that a caller
    /// can keep `add_record`'s counter precondition checkable.
    pub fn records_seen(&self) -> (n: u64)
        ensures
            n == self.seen_records(),
    {
        self.seen
    }

    /// Validates the declared sort order and sets up one empty
    /// reference builder per declared reference. Any declared order
    /// other than coordinate order fails before any record is
    /// consumed.
    pub fn new(header: &Header) -> (r: Result<Indexer, IndexError>)
        ensures
            header.sort_order == Some(SortOrder::Coordinate) ==> (r matches Ok(ix) && ix@
                == spec_indexer_init(header.reference_count as nat) && ix.inv()
                && ix.seen_records() == 0),
            header.sort_order != Some(SortOrder::Coordinate) ==> r == Err::<
                Indexer,
                IndexError,
            >(IndexError::SortOrder),
    {
        if !crate::record::is_coordinate_sorted(header) {
            return Err(IndexError::SortOrder);
        }
        let n = header.reference_count;
        let mut references: Vec<ReferenceBuilder> = Vec::new();
        while references.len() < n
            invariant
                references@.len() <= n,
                forall|i: int|
                    0 <= i < references@.len() ==> #[trigger] references@[i]@
                        == spec_ref_builder_init(),
            decreases n - references@.len(),
        {
            references.push(ReferenceBuilder::new());
        }
        let ix = Indexer { references, unplaced: 0, seen: 0 };
        proof {
            assert(ix@.references =~~= spec_indexer_init(n as nat).references);
            assert(ix@ =~~= spec_indexer_init(n as nat));
        }
        Ok(ix)
    }

    /// Consumes one record in stream order. A record naming a
    /// reference outside the declared range aborts the build; a placed
    /// record updates its reference's aggregators; any other record
    /// only bumps the global unplaced counter.
    pub fn add_record(&mut self, rec: &Record) -> (r: Result<(), IndexError>)
        requires
            old(self).inv(),
            old(self).seen_records() < u64::MAX,
            rec.wf(),
        ensures
            final(self).inv(),
            spec_record_ok(old(self)@, *rec) ==> (r == Ok::<(), IndexError>(()) && final(self)@
                == spec_step(old(self)@, *rec) && final(self).seen_records() == old(
                self,
            ).seen_records() + 1),
            !spec_record_ok(old(self)@, *rec) ==> (r == Err::<(), IndexError>(
                IndexError::InvalidReference,
            ) && final(self)@ == old(self)@ && final(self).seen_records() == old(
                self,
            ).seen_records()),
    {
        let ghost v0 = self@;
        match rec.reference_id {
            Some(id) => {
                if id >= self.references.len() {
                    return Err(IndexError::InvalidReference);
                }
            },
            None => {},
        }
        match (rec.reference_id, rec.start, rec.end) {
            (Some(id), Some(start), Some(end)) => {
                let bin = bin_of(start, end);
                let w = (start >> WINDOW_SHIFT) as usize;
                let ghost pre_refs = self.references@;
                let mut rb = self.references.remove(id);
                proof {
                    assert(rb@ == v0.references[id as int]);
                    assert(v0.references[id as int].meta.mapped + v0.references[id as int]
                        .meta.unmapped <= self.seen);
                }
                rb.add_placed(bin, w, rec.mapped, rec.chunk);
                self.references.insert(id, rb);
                self.seen = self.seen + 1;
                proof {
                    let nv = spec_ref_add(v0.references[id as int], *rec);
                    assert(rb@ =~~= nv);
                    pre_refs.remove(id as int).insert_ensures(id as int, rb);
                    assert forall|i: int| 0 <= i < self@.references.len() implies self@.references[i]
                        == v0.references.update(id as int, nv)[i] by {
                        if i < id {
                            assert(self.references@[i] == pre_refs.remove(id as int)[i]);
                            assert(pre_refs.remove(id as int)[i] == pre_refs[i]);
                        } else if i == id {
                            assert(self.references@[i] == rb);
                        } else {
                            assert(self.references@[i] == pre_refs.remove(id as int)[i - 1]);
                            assert(pre_refs.remove(id as int)[i - 1] == pre_refs[i]);
                        }
                    }
                    assert(self@.references =~~= v0.references.update(id as int, nv));
                    assert(self@ =~~= spec_step(v0, *rec));
                    // The invariant survives: only reference `id` changed.
                    lemma_bin_of_bound(start, end);
                    lemma_add_chunk_ids(v0.references[id as int].bins, bin, rec.chunk);
                    assert forall|i: int|
                        0 <= i < self@.references.len() implies spec_ref_builder_wf(
                        #[trigger] self@.references[i],
                    ) by {
                        if i == id {
                            assert forall|k: int|
                                0 <= k < nv.bins.len() implies #[trigger] nv.bins[k].id
                                < METADATA_BIN_ID by {
                                if nv.bins[k].id != bin {
                                    let j = choose|j: int|
                                        0 <= j < v0.references[id as int].bins.len()
                                            && v0.references[id as int].bins[j].id == nv.bins[k].id;
                                }
                            }
                        }
                    }
                }
                Ok(())
            },
            _ => {
                self.unplaced = self.unplaced + 1;
                self.seen = self.seen + 1;
                proof {
                    assert(self@ =~~= spec_step(v0, *rec));
                }
                Ok(())
            },
        }
    }

    /// Ends the stream: finalizes every reference and hands out the
    /// immutable index. Taking the indexer by value, this is the only
    /// exit from streaming, and there is no way back.
    pub fn finalize(self) -> (g: GlobalIndex)
        requires
            self.inv(),
        ensures
            g@ == spec_finalize(self@),
            spec_index_wf(g@),
    {
        let ghost v0 = self@;
        let mut rest = self.references;
        let mut out: Vec<ReferenceIndex> = Vec::new();
        while rest.len() > 0
            invariant
                out@.len() + rest@.len() == v0.references.len(),
                rest@.map_values(|rb: ReferenceBuilder| rb@) =~= v0.references.skip(
                    out@.len() as int,
                ),
                out@.map_values(|r: ReferenceIndex| r@) == v0.references.take(
                    out@.len() as int,
                ).map_values(|rb: RefBuilderView| spec_finalize_ref(rb)),
            decreases rest@.len(),
        {
            let ghost k = out@.len() as int;
            let ghost pre = rest@;
            let rb = rest.remove(0);
            proof {
                assert(pre.map_values(|rb: ReferenceBuilder| rb@)[0] == pre[0]@);
                assert(rb@ == v0.references[k]);
                assert forall|i: int| 0 <= i < rest@.len() implies #[trigger] rest@[i]@
                    == v0.references.skip(k + 1)[i] by {
                    assert(rest@[i] == pre[i + 1]);
                    assert(pre.map_values(|rb: ReferenceBuilder| rb@)[i + 1] == pre[i + 1]@);
                    assert(pre.map_values(|rb: ReferenceBuilder| rb@)[i + 1] == v0.references.skip(
                        k,
                    )[i + 1]);
                }
                assert(rest@.map_values(|rb: ReferenceBuilder| rb@) =~= v0.references.skip(k + 1));
            }
            let ghost pre_out = out@;
            let fin = rb.finalize();
            out.push(fin);
            proof {
                assert forall|i: int| 0 <= i < out@.len() implies #[trigger] out@[i]@
                    =~~= v0.references.take(k + 1).map_values(
                    |rb: RefBuilderView| spec_finalize_ref(rb),
                )[i] by {
                    assert(v0.references.take(k + 1)[i] == v0.references[i]);
                    if i < k {
                        assert(out@[i] == pre_out[i]);
                        assert(pre_out.map_values(|r: ReferenceIndex| r@)[i] == pre_out[i]@);
                        assert(pre_out.map_values(|r: ReferenceIndex| r@)[i] == v0.references.take(
                            k,
                        ).map_values(|rb: RefBuilderView| spec_finalize_ref(rb))[i]);
                        assert(v0.references.take(k)[i] == v0.references[i]);
                    } else {
                        assert(out@[i] == fin);
                    }
                }
                assert(out@.map_values(|r: ReferenceIndex| r@) =~= v0.references.take(
                    k + 1,
                ).map_values(|rb: RefBuilderView| spec_finalize_ref(rb)));
            }
        }
        let g = GlobalIndex { references: out, unplaced: self.unplaced };
        proof {
            assert(v0.references.take(v0.references.len() as int) =~= v0.references);
            assert(g@ =~~= spec_finalize(v0));
            assert forall|i: int| 0 <= i < g@.references.len() implies spec_ref_wf(
                #[trigger] g@.references[i],
            ) by {
                assert(g@.references[i] == spec_finalize_ref(v0.references[i]));
                assert(spec_ref_builder_wf(v0.references[i]));
                let fb = spec_finalize_bins(v0.references[i].bins);
                assert forall|k: int| 0 <= k < fb.len() implies #[trigger] fb[k].id
                    < METADATA_BIN_ID by {
                    assert(fb[k].id == v0.references[i].bins[k].id);
                }
                assert(bin_ids_sorted(fb)) by {
                    assert forall|a: int, b: int| 0 <= a < b < fb.len() implies fb[a].id
                        < fb[b].id by {
                        assert(fb[a].id == v0.references[i].bins[a].id);
                        assert(fb[b].id == v0.references[i].bins[b].id);
                    }
                }
            }
        }
        g
    }
}

} // verus!
