//! Byte-range chunks, per-bin chunk lists, and the per-reference chunk
//! aggregator.
//!
//! During streaming the aggregator appends each record's chunk to the
//! list of the record's bin. `finalize` sorts every bin's chunks by
//! (start, end) and merges overlapping or touching neighbours; no
//! chunk's byte range is ever dropped (`lemma_finalize_covers`), which
//! is what keeps later range queries free of false negatives.

use vstd::prelude::*;

use crate::virtual_offset::VirtualOffset;

verus! {

/// A byte range `[start, end]` of the underlying file that contains
/// every alignment recorded for one bin between those offsets.
#[derive(Clone, Copy, Debug, PartialEq, Eq, Structural)]
pub struct Chunk {
    pub start: VirtualOffset,
    pub end: VirtualOffset,
}

impl Chunk {
    /// A chunk is well-formed when its bounds are ordered.
    pub open spec fn wf(self) -> bool {
        self.start.value <= self.end.value
    }

    /// Builds a chunk from ordered bounds.
    pub fn new(start: VirtualOffset, end: VirtualOffset) -> (c: Chunk)
        requires
            start.value <= end.value,
        ensures
            c == (Chunk { start, end }),
            c.wf(),
    {
        Chunk { start, end }
    }
}

/// Chunk ordering: by start offset, ties broken by end offset.
/// This is a total order on chunks.
pub open spec fn chunk_le(a: Chunk, b: Chunk) -> bool {
    ||| a.start.value < b.start.value
    ||| (a.start.value == b.start.value && a.end.value <= b.end.value)
}

/// Every pair of neighbours (and so every pair) is ordered by `chunk_le`.
pub open spec fn chunks_sorted(s: Seq<Chunk>) -> bool {
    forall|i: int, j: int| 0 <= i < j < s.len() ==> chunk_le(s[i], s[j])
}

/// `c` sits inside some chunk of `s`: its byte range is not lost.
pub open spec fn chunk_covered(c: Chunk, s: Seq<Chunk>) -> bool {
    exists|i: int|
        0 <= i < s.len() && s[i].start.value <= c.start.value && c.end.value <= s[i].end.value
}

/// Inserts `c` into an already sorted sequence, keeping order.
pub open spec fn spec_insert_chunk(c: Chunk, s: Seq<Chunk>) -> Seq<Chunk>
    decreases s.len(),
{
    if s.len() == 0 {
        seq![c]
    } else if chunk_le(c, s[0]) {
        seq![c] + s
    } else {
        seq![s[0]] + spec_insert_chunk(c, s.drop_first())
    }
}

/// Insertion sort by `chunk_le`.
pub open spec fn spec_sort_chunks(s: Seq<Chunk>) -> Seq<Chunk>
    decreases s.len(),
{
    if s.len() == 0 {
        Seq::<Chunk>::empty()
    } else {
        spec_insert_chunk(s.last(), spec_sort_chunks(s.drop_last()))
    }
}

/// The later of two virtual offsets.
pub open spec fn spec_max_offset(a: VirtualOffset, b: VirtualOffset) -> VirtualOffset {
    if a.value >= b.value {
        a
    } else {
        b
    }
}

/// Merges adjacent chunks of a sorted sequence whose byte ranges touch
/// or overlap, replacing each run by one spanning chunk.
pub open spec fn spec_merge_chunks(s: Seq<Chunk>) -> Seq<Chunk>
    decreases s.len(),
{
    if s.len() <= 1 {
        s
    } else if s[1].start.value <= s[0].end.value {
        spec_merge_chunks(
            seq![Chunk { start: s[0].start, end: spec_max_offset(s[0].end, s[1].end) }] + s.skip(2),
        )
    } else {
        seq![s[0]] + spec_merge_chunks(s.drop_first())
    }
}

/// What `finalize` does to one bin's chunk list.
pub open spec fn spec_finalize_chunks(s: Seq<Chunk>) -> Seq<Chunk> {
    spec_merge_chunks(spec_sort_chunks(s))
}

/// Inserting adds exactly one copy of `c` to the sequence's contents.
proof fn lemma_insert_chunk_multiset(c: Chunk, s: Seq<Chunk>)
    ensures
        spec_insert_chunk(c, s).to_multiset() == s.to_multiset().insert(c),
    decreases s.len(),
{
    broadcast use vstd::seq_lib::group_to_multiset_ensures;

    if s.len() == 0 {
        assert(seq![c] =~= Seq::<Chunk>::empty().push(c));
        assert(spec_insert_chunk(c, s).to_multiset() =~= s.to_multiset().insert(c));
    } else if chunk_le(c, s[0]) {
        vstd::seq_lib::lemma_multiset_commutative(seq![c], s);
        assert(seq![c] =~= Seq::<Chunk>::empty().push(c));
        assert(spec_insert_chunk(c, s).to_multiset() =~= s.to_multiset().insert(c));
    } else {
        lemma_insert_chunk_multiset(c, s.drop_first());
        vstd::seq_lib::lemma_multiset_commutative(seq![s[0]], spec_insert_chunk(c, s.drop_first()));
        vstd::seq_lib::lemma_multiset_commutative(seq![s[0]], s.drop_first());
        assert(s =~= seq![s[0]] + s.drop_first());
        assert(seq![s[0]] =~= Seq::<Chunk>::empty().push(s[0]));
        assert(spec_insert_chunk(c, s).to_multiset() =~= s.to_multiset().insert(c));
    }
}

/// Sorting keeps exactly the same chunks.
proof fn lemma_sort_chunks_multiset(s: Seq<Chunk>)
    ensures
        spec_sort_chunks(s).to_multiset() == s.to_multiset(),
    decreases s.len(),
{
    broadcast use vstd::seq_lib::group_to_multiset_ensures;

    if s.len() > 0 {
        lemma_sort_chunks_multiset(s.drop_last());
        lemma_insert_chunk_multiset(s.last(), spec_sort_chunks(s.drop_last()));
        assert(s =~= s.drop_last().push(s.last()));
    }
}

/// Inserting into a sorted sequence keeps it sorted.
proof fn lemma_insert_chunk_sorted(c: Chunk, s: Seq<Chunk>)
    requires
        chunks_sorted(s),
    ensures
        chunks_sorted(spec_insert_chunk(c, s)),
    decreases s.len(),
{
    broadcast use vstd::seq_lib::group_to_multiset_ensures;

    if s.len() == 0 {
    } else if chunk_le(c, s[0]) {
        let r = seq![c] + s;
        assert forall|i: int, j: int| 0 <= i < j < r.len() implies chunk_le(r[i], r[j]) by {
            if i == 0 {
                assert(chunk_le(s[0], s[j - 1]) || j == 1);
            } else {
                assert(chunk_le(s[i - 1], s[j - 1]));
            }
        }
    } else {
        assert(chunks_sorted(s.drop_first()));
        lemma_insert_chunk_sorted(c, s.drop_first());
        lemma_insert_chunk_multiset(c, s.drop_first());
        let r = seq![s[0]] + spec_insert_chunk(c, s.drop_first());
        assert forall|i: int, j: int| 0 <= i < j < r.len() implies chunk_le(r[i], r[j]) by {
            if i == 0 {
                let y = spec_insert_chunk(c, s.drop_first())[j - 1];
                assert(spec_insert_chunk(c, s.drop_first()).contains(y));
                assert(spec_insert_chunk(c, s.drop_first()).to_multiset().count(y) > 0);
                if y == c {
                    assert(chunk_le(s[0], c));
                } else {
                    assert(s.drop_first().to_multiset().count(y) > 0);
                    assert(s.drop_first().contains(y));
                    let k = choose|k: int|
                        0 <= k < s.drop_first().len() && s.drop_first()[k] == y;
                    assert(chunk_le(s[0], s[k + 1]));
                }
            } else {
                let t = spec_insert_chunk(c, s.drop_first());
                assert(chunk_le(t[i - 1], t[j - 1]));
            }
        }
    }
}

/// The result of sorting is sorted.
proof fn lemma_sort_chunks_sorted(s: Seq<Chunk>)
    ensures
        chunks_sorted(spec_sort_chunks(s)),
    decreases s.len(),
{
    if s.len() > 0 {
        lemma_sort_chunks_sorted(s.drop_last());
        lemma_insert_chunk_sorted(s.last(), spec_sort_chunks(s.drop_last()));
    }
}

/// Merging a sorted sequence yields a sorted sequence whose head still
/// starts where the input's head started and spans at least as far.
proof fn lemma_merge_chunks_sorted(s: Seq<Chunk>)
    requires
        chunks_sorted(s),
    ensures
        chunks_sorted(spec_merge_chunks(s)),
        s.len() > 0 ==> spec_merge_chunks(s).len() > 0,
        s.len() > 0 ==> spec_merge_chunks(s)[0].start == s[0].start,
        s.len() > 0 ==> spec_merge_chunks(s)[0].end.value >= s[0].end.value,
    decreases s.len(),
{
    if s.len() <= 1 {
    } else if s[1].start.value <= s[0].end.value {
        let joined = Chunk { start: s[0].start, end: spec_max_offset(s[0].end, s[1].end) };
        let t = seq![joined] + s.skip(2);
        assert forall|i: int, j: int| 0 <= i < j < t.len() implies chunk_le(t[i], t[j]) by {
            if i == 0 {
                assert(t[j] == s[j + 1]);
                assert(chunk_le(s[0], s[1]));
                assert(chunk_le(s[0], s[j + 1]));
                assert(chunk_le(s[1], s[j + 1]));
            } else {
                assert(t[i] == s[i + 1] && t[j] == s[j + 1]);
                assert(chunk_le(s[i + 1], s[j + 1]));
            }
        }
        lemma_merge_chunks_sorted(t);
    } else {
        assert(chunks_sorted(s.drop_first()));
        lemma_merge_chunks_sorted(s.drop_first());
        let m = spec_merge_chunks(s.drop_first());
        let r = seq![s[0]] + m;
        assert forall|i: int, j: int| 0 <= i < j < r.len() implies chunk_le(r[i], r[j]) by {
            if i == 0 {
                assert(chunk_le(s[0], s[1]));
                assert(m[0].start == s[1].start && m[0].end.value >= s[1].end.value);
                assert(chunk_le(s[0], m[0]));
                if j > 1 {
                    assert(chunk_le(m[0], m[j - 1]));
                }
            }
        }
    }
}

/// Merging drops no byte range: anything covered before is covered after.
proof fn lemma_merge_chunks_covers(c: Chunk, s: Seq<Chunk>)
    requires
        chunks_sorted(s),
        chunk_covered(c, s),
    ensures
        chunk_covered(c, spec_merge_chunks(s)),
    decreases s.len(),
{
    if s.len() <= 1 {
    } else if s[1].start.value <= s[0].end.value {
        let joined = Chunk { start: s[0].start, end: spec_max_offset(s[0].end, s[1].end) };
        let t = seq![joined] + s.skip(2);
        assert forall|i: int, j: int| 0 <= i < j < t.len() implies chunk_le(t[i], t[j]) by {
            if i == 0 {
                assert(t[j] == s[j + 1]);
                assert(chunk_le(s[0], s[1]));
                assert(chunk_le(s[0], s[j + 1]));
                assert(chunk_le(s[1], s[j + 1]));
            } else {
                assert(t[i] == s[i + 1] && t[j] == s[j + 1]);
                assert(chunk_le(s[i + 1], s[j + 1]));
            }
        }
        let w = choose|w: int|
            0 <= w < s.len() && s[w].start.value <= c.start.value && c.end.value
                <= s[w].end.value;
        if w == 0 || w == 1 {
            assert(t[0] == joined);
            assert(chunk_le(s[0], s[1]));
            assert(t[0].start.value <= c.start.value && c.end.value <= t[0].end.value);
        } else {
            assert(t[w - 1] == s[w]);
            assert(t[w - 1].start.value <= c.start.value && c.end.value <= t[w - 1].end.value);
        }
        assert(chunk_covered(c, t));
        lemma_merge_chunks_covers(c, t);
    } else {
        let w = choose|w: int|
            0 <= w < s.len() && s[w].start.value <= c.start.value && c.end.value
                <= s[w].end.value;
        if w == 0 {
            let r = seq![s[0]] + spec_merge_chunks(s.drop_first());
            assert(r[0].start.value <= c.start.value && c.end.value <= r[0].end.value);
            assert(chunk_covered(c, r));
        } else {
            assert(chunks_sorted(s.drop_first()));
            assert(s.drop_first()[w - 1] == s[w]);
            assert(chunk_covered(c, s.drop_first()));
            lemma_merge_chunks_covers(c, s.drop_first());
            let m = spec_merge_chunks(s.drop_first());
            let v = choose|v: int|
                0 <= v < m.len() && m[v].start.value <= c.start.value && c.end.value
                    <= m[v].end.value;
            let r = seq![s[0]] + m;
            assert(r[v + 1] == m[v]);
            assert(chunk_covered(c, r));
        }
    }
}

/// Finalizing a bin's chunk list yields a sorted list.
pub proof fn lemma_finalize_chunks_sorted(s: Seq<Chunk>)
    ensures
        chunks_sorted(spec_finalize_chunks(s)),
{
    lemma_sort_chunks_sorted(s);
    lemma_merge_chunks_sorted(spec_sort_chunks(s));
}

/// No chunk is dropped by finalizing: every chunk that was added to a
/// bin lies inside some finalized chunk, so a reader that unions the
/// finalized chunks of the bins it enumerates misses nothing.
pub proof fn lemma_finalize_covers(c: Chunk, s: Seq<Chunk>)
    requires
        s.contains(c),
    ensures
        chunk_covered(c, spec_finalize_chunks(s)),
{
    broadcast use vstd::seq_lib::group_to_multiset_ensures;

    lemma_sort_chunks_multiset(s);
    lemma_sort_chunks_sorted(s);
    assert(s.to_multiset().count(c) > 0);
    assert(spec_sort_chunks(s).contains(c));
    let i = choose|i: int| 0 <= i < spec_sort_chunks(s).len() && spec_sort_chunks(s)[i] == c;
    assert(chunk_covered(c, spec_sort_chunks(s)));
    lemma_merge_chunks_covers(c, spec_sort_chunks(s));
}

/// Compares two chunks by `chunk_le`.
fn chunk_le_exec(a: &Chunk, b: &Chunk) -> (r: bool)
    ensures
        r == chunk_le(*a, *b),
{
    a.start.value < b.start.value || (a.start.value == b.start.value && a.end.value
        <= b.end.value)
}

/// Inserts `c` at its ordered position.
fn insert_chunk(c: Chunk, v: Vec<Chunk>) -> (r: Vec<Chunk>)
    ensures
        r@ == spec_insert_chunk(c, v@),
    decreases v@.len(),
{
    let ghost v0 = v@;
    if v.len() == 0 {
        let mut r = v;
        r.push(c);
        proof {
            assert(r@ =~= seq![c]);
        }
        r
    } else if chunk_le_exec(&c, &v[0]) {
        let mut r = v;
        r.insert(0, c);
        proof {
            assert(r@ =~= seq![c] + v0);
        }
        r
    } else {
        let mut v2 = v;
        let h = v2.remove(0);
        proof {
            assert(v2@ =~= v0.drop_first());
        }
        let mut r = insert_chunk(c, v2);
        r.insert(0, h);
        proof {
            assert(r@ =~= seq![v0[0]] + spec_insert_chunk(c, v0.drop_first()));
        }
        r
    }
}

/// Sorts a chunk list by `chunk_le`.
pub fn sort_chunks(v: Vec<Chunk>) -> (r: Vec<Chunk>)
    ensures
        r@ == spec_sort_chunks(v@),
    decreases v@.len(),
{
    let ghost v0 = v@;
    if v.len() == 0 {
        v
    } else {
        let mut v2 = v;
        let last = v2.pop().unwrap();
        proof {
            assert(v2@ =~= v0.drop_last());
            assert(last == v0.last());
        }
        let sorted = sort_chunks(v2);
        insert_chunk(last, sorted)
    }
}

/// Merges touching or overlapping neighbours of a sorted chunk list.
pub fn merge_chunks(v: Vec<Chunk>) -> (r: Vec<Chunk>)
    ensures
        r@ == spec_merge_chunks(v@),
    decreases v@.len(),
{
    let ghost v0 = v@;
    if v.len() <= 1 {
        v
    } else {
        let c0 = v[0];
        let c1 = v[1];
        if c1.start.value <= c0.end.value {
            let joined = Chunk {
                start: c0.start,
                end: if c0.end.value >= c1.end.value {
                    c0.end
                } else {
                    c1.end
                },
            };
            let mut v2 = v;
            v2.remove(0);
            v2.remove(0);
            v2.insert(0, joined);
            proof {
                assert(v2@ =~= seq![
                    Chunk { start: v0[0].start, end: spec_max_offset(v0[0].end, v0[1].end) },
                ] + v0.skip(2));
            }
            merge_chunks(v2)
        } else {
            let mut v2 = v;
            let h = v2.remove(0);
            proof {
                assert(v2@ =~= v0.drop_first());
            }
            let mut r = merge_chunks(v2);
            r.insert(0, h);
            proof {
                assert(r@ =~= seq![v0[0]] + spec_merge_chunks(v0.drop_first()));
            }
            r
        }
    }
}

/// One bin: its id and the chunks recorded for it, in insertion order
/// while streaming and in finalized order afterwards.
#[derive(Debug, PartialEq)]
pub struct Bin {
    pub id: u32,
    pub chunks: Vec<Chunk>,
}

/// The mathematical content of a `Bin`.
#[verifier::ext_equal]
pub ghost struct BinView {
    pub id: u32,
    pub chunks: Seq<Chunk>,
}

impl View for Bin {
    type V = BinView;

    open spec fn view(&self) -> BinView {
        BinView { id: self.id, chunks: self.chunks@ }
    }
}

/// The contents of a bin list.
pub open spec fn bins_view(s: Seq<Bin>) -> Seq<BinView> {
    s.map_values(|b: Bin| b@)
}

/// Bin ids strictly increase along the list: sorted and duplicate-free.
pub open spec fn bin_ids_sorted(s: Seq<BinView>) -> bool {
    forall|i: int, j: int| 0 <= i < j < s.len() ==> s[i].id < s[j].id
}

/// Appends `c` to the bin `id` of a list kept sorted by id, creating
/// the bin at its ordered position if it is not there yet.
pub open spec fn spec_add_chunk(bins: Seq<BinView>, id: u32, c: Chunk) -> Seq<BinView>
    decreases bins.len(),
{
    if bins.len() == 0 {
        seq![BinView { id, chunks: seq![c] }]
    } else if id < bins[0].id {
        seq![BinView { id, chunks: seq![c] }] + bins
    } else if id == bins[0].id {
        seq![BinView { id: bins[0].id, chunks: bins[0].chunks.push(c) }] + bins.drop_first()
    } else {
        seq![bins[0]] + spec_add_chunk(bins.drop_first(), id, c)
    }
}

/// Adding a chunk keeps the id order, and introduces no id other than
/// the one added.
pub proof fn lemma_add_chunk_ids(bins: Seq<BinView>, id: u32, c: Chunk)
    requires
        bin_ids_sorted(bins),
    ensures
        bin_ids_sorted(spec_add_chunk(bins, id, c)),
        forall|k: int|
            0 <= k < spec_add_chunk(bins, id, c).len() ==> (spec_add_chunk(bins, id, c)[k].id == id
                || exists|j: int| 0 <= j < bins.len() && bins[j].id == #[trigger] spec_add_chunk(
                bins,
                id,
                c,
            )[k].id),
    decreases bins.len(),
{
    let r = spec_add_chunk(bins, id, c);
    if bins.len() == 0 {
    } else if id < bins[0].id {
        assert forall|k: int| 0 <= k < r.len() implies (r[k].id == id || exists|j: int|
            0 <= j < bins.len() && bins[j].id == r[k].id) by {
            if k > 0 {
                assert(bins[k - 1].id == r[k].id);
            }
        }
    } else if id == bins[0].id {
        assert forall|k: int| 0 <= k < r.len() implies (r[k].id == id || exists|j: int|
            0 <= j < bins.len() && bins[j].id == r[k].id) by {
            if k > 0 {
                assert(bins[k].id == r[k].id);
            }
        }
        assert forall|i: int, j: int| 0 <= i < j < r.len() implies r[i].id < r[j].id by {
            assert(bins[i].id < bins[j].id);
        }
    } else {
        assert(bin_ids_sorted(bins.drop_first()));
        lemma_add_chunk_ids(bins.drop_first(), id, c);
        let m = spec_add_chunk(bins.drop_first(), id, c);
        assert forall|k: int| 0 <= k < r.len() implies (r[k].id == id || exists|j: int|
            0 <= j < bins.len() && bins[j].id == r[k].id) by {
            if k > 0 {
                assert(m[k - 1].id == r[k].id);
                if m[k - 1].id != id {
                    let j = choose|j: int|
                        0 <= j < bins.drop_first().len() && bins.drop_first()[j].id == m[k - 1].id;
                    assert(bins[j + 1].id == r[k].id);
                }
            }
        }
        assert forall|i: int, j: int| 0 <= i < j < r.len() implies r[i].id < r[j].id by {
            if i == 0 {
                assert(r[j].id == m[j - 1].id);
                if m[j - 1].id != id {
                    let w = choose|w: int|
                        0 <= w < bins.drop_first().len() && bins.drop_first()[w].id == m[j - 1].id;
                    assert(bins[0].id < bins[w + 1].id);
                }
            } else {
                assert(m[i - 1].id < m[j - 1].id);
            }
        }
    }
}

/// Adds `c` under `id`, keeping the list sorted by id.
fn add_to_bins(bins: Vec<Bin>, id: u32, c: Chunk) -> (r: Vec<Bin>)
    ensures
        bins_view(r@) == spec_add_chunk(bins_view(bins@), id, c),
    decreases bins@.len(),
{
    let ghost b0 = bins_view(bins@);
    if bins.len() == 0 {
        let mut r = bins;
        r.push(Bin { id, chunks: vec![c] });
        proof {
            assert(bins_view(r@) =~~= seq![BinView { id, chunks: seq![c] }]);
        }
        r
    } else if id < bins[0].id {
        let mut r = bins;
        r.insert(0, Bin { id, chunks: vec![c] });
        proof {
            assert(bins_view(r@) =~~= seq![BinView { id, chunks: seq![c] }] + b0);
        }
        r
    } else if id == bins[0].id {
        let mut r = bins;
        let mut b = r.remove(0);
        b.chunks.push(c);
        r.insert(0, b);
        proof {
            assert(bins_view(r@) =~~= seq![BinView { id: b0[0].id, chunks: b0[0].chunks.push(c) }]
                + b0.drop_first());
        }
        r
    } else {
        let mut v2 = bins;
        let h = v2.remove(0);
        proof {
            assert(bins_view(v2@) =~~= b0.drop_first());
        }
        let mut r = add_to_bins(v2, id, c);
        r.insert(0, h);
        proof {
            assert(bins_view(r@) =~~= seq![b0[0]] + spec_add_chunk(b0.drop_first(), id, c));
        }
        r
    }
}

/// Adding a chunk records it under its bin, and every chunk already
/// recorded stays where it was: each old bin's chunk list is a prefix
/// of the list of a bin with the same id.
pub proof fn lemma_add_chunk_contents(bins: Seq<BinView>, id: u32, c: Chunk)
    ensures
        exists|k: int|
            0 <= k < spec_add_chunk(bins, id, c).len() && (#[trigger] spec_add_chunk(
                bins,
                id,
                c,
            )[k]).id == id && spec_add_chunk(bins, id, c)[k].chunks.contains(c),
        forall|k0: int|
            #![trigger bins[k0]]
            0 <= k0 < bins.len() ==> exists|k1: int|
                0 <= k1 < spec_add_chunk(bins, id, c).len() && (#[trigger] spec_add_chunk(
                    bins,
                    id,
                    c,
                )[k1]).id == bins[k0].id && bins[k0].chunks.is_prefix_of(
                    spec_add_chunk(bins, id, c)[k1].chunks,
                ),
    decreases bins.len(),
{
    let r = spec_add_chunk(bins, id, c);
    if bins.len() == 0 {
        assert(r[0].id == id && r[0].chunks[0] == c);
        assert(r[0].chunks.contains(c));
    } else if id < bins[0].id {
        assert(r[0].id == id && r[0].chunks[0] == c);
        assert(r[0].chunks.contains(c));
        assert forall|k0: int| #![trigger bins[k0]] 0 <= k0 < bins.len() implies exists|k1: int|
            0 <= k1 < r.len() && (#[trigger] r[k1]).id == bins[k0].id && bins[k0].chunks.is_prefix_of(
                r[k1].chunks,
            ) by {
            assert(r[k0 + 1] == bins[k0]);
            assert(bins[k0].chunks.is_prefix_of(r[k0 + 1].chunks));
        }
    } else if id == bins[0].id {
        assert(r[0].id == id);
        assert(r[0].chunks == bins[0].chunks.push(c));
        assert(r[0].chunks[bins[0].chunks.len() as int] == c);
        assert(r[0].chunks.contains(c));
        assert forall|k0: int| #![trigger bins[k0]] 0 <= k0 < bins.len() implies exists|k1: int|
            0 <= k1 < r.len() && (#[trigger] r[k1]).id == bins[k0].id && bins[k0].chunks.is_prefix_of(
                r[k1].chunks,
            ) by {
            if k0 == 0 {
                assert(bins[0].chunks =~= r[0].chunks.subrange(0, bins[0].chunks.len() as int));
                assert(bins[0].chunks.is_prefix_of(r[0].chunks));
            } else {
                assert(r[k0] == bins[k0]);
                assert(bins[k0].chunks.is_prefix_of(r[k0].chunks));
            }
        }
    } else {
        lemma_add_chunk_contents(bins.drop_first(), id, c);
        let m = spec_add_chunk(bins.drop_first(), id, c);
        let k = choose|k: int| 0 <= k < m.len() && (#[trigger] m[k]).id == id && m[k].chunks.contains(c);
        assert(r[k + 1] == m[k]);
        assert(r[k + 1].id == id && r[k + 1].chunks.contains(c));
        assert forall|k0: int| #![trigger bins[k0]] 0 <= k0 < bins.len() implies exists|k1: int|
            0 <= k1 < r.len() && (#[trigger] r[k1]).id == bins[k0].id && bins[k0].chunks.is_prefix_of(
                r[k1].chunks,
            ) by {
            if k0 == 0 {
                assert(r[0] == bins[0]);
                assert(bins[0].chunks.is_prefix_of(r[0].chunks));
            } else {
                assert(bins.drop_first()[k0 - 1] == bins[k0]);
                let k1 = choose|k1: int|
                    0 <= k1 < m.len() && (#[trigger] m[k1]).id == bins.drop_first()[k0 - 1].id
                        && bins.drop_first()[k0 - 1].chunks.is_prefix_of(m[k1].chunks);
                assert(r[k1 + 1] == m[k1]);
                assert(bins[k0].chunks.is_prefix_of(r[k1 + 1].chunks));
            }
        }
    }
}

/// What `finalize` does to a whole bin list: each bin's chunks are
/// sorted and merged; ids and their order are untouched.
pub open spec fn spec_finalize_bins(bins: Seq<BinView>) -> Seq<BinView> {
    bins.map_values(|b: BinView| BinView { id: b.id, chunks: spec_finalize_chunks(b.chunks) })
}

/// Accumulates byte-range chunks per bin for one reference sequence.
#[derive(Debug)]
pub struct ChunkAggregator {
    bins: Vec<Bin>,
}

impl View for ChunkAggregator {
    type V = Seq<BinView>;

    closed spec fn view(&self) -> Seq<BinView> {
        bins_view(self.bins@)
    }
}

impl ChunkAggregator {
    /// Starts with no bins.
    pub fn new() -> (a: ChunkAggregator)
        ensures
            a@ == Seq::<BinView>::empty(),
    {
        let a = ChunkAggregator { bins: Vec::new() };
        proof {
            assert(a@ =~= Seq::<BinView>::empty());
        }
        a
    }

    /// Records `c` under bin `id`.
    pub fn add(&mut self, id: u32, c: Chunk)
        ensures
            final(self)@ == spec_add_chunk(old(self)@, id, c),
    {
        let mut taken: Vec<Bin> = Vec::new();
        core::mem::swap(&mut self.bins, &mut taken);
        self.bins = add_to_bins(taken, id, c);
    }

    /// Sorts and merges every bin's chunks, yielding the immutable
    /// per-reference bin list.
    pub fn finalize(self) -> (r: Vec<Bin>)
        ensures
            bins_view(r@) == spec_finalize_bins(self@),
    {
        let ghost orig = self@;
        let mut bins = self.bins;
        let mut out: Vec<Bin> = Vec::new();
        proof {
            assert(bins_view(out@) =~~= spec_finalize_bins(orig.take(0)));
        }
        while bins.len() > 0
            invariant
                out@.len() + bins@.len() == orig.len(),
                bins_view(bins@) =~= orig.skip(out@.len() as int),
                bins_view(out@) == spec_finalize_bins(orig.take(out@.len() as int)),
            decreases bins@.len(),
        {
            let ghost k = out@.len() as int;
            let ghost prev = bins@;
            let b = bins.remove(0);
            proof {
                assert(bins_view(prev)[0] == prev[0]@);
                assert(b@ == orig[k]);
                assert(bins@ =~= prev.drop_first());
                assert forall|i: int| 0 <= i < bins@.len() implies bins_view(bins@)[i] == orig.skip(
                    k + 1,
                )[i] by {
                    assert(bins@[i] == prev[i + 1]);
                    assert(bins_view(prev)[i + 1] == prev[i + 1]@);
                    assert(bins_view(prev)[i + 1] == orig.skip(k)[i + 1]);
                }
                assert(bins_view(bins@) =~= orig.skip(k + 1));
            }
            let ghost prev_out = out@;
            let merged = merge_chunks(sort_chunks(b.chunks));
            out.push(Bin { id: b.id, chunks: merged });
            proof {
                assert forall|i: int| 0 <= i < out@.len() implies bins_view(out@)[i]
                    =~= spec_finalize_bins(orig.take(k + 1))[i] by {
                    assert(orig.take(k + 1)[i] == orig[i]);
                    if i < k {
                        assert(out@[i] == prev_out[i]);
                        assert(bins_view(prev_out)[i] == prev_out[i]@);
                        assert(bins_view(prev_out)[i] == spec_finalize_bins(orig.take(k))[i]);
                        assert(orig.take(k)[i] == orig[i]);
                    } else {
                        assert(out@[i]@ == BinView { id: b.id, chunks: merged@ });
                    }
                }
                assert(bins_view(out@) =~= spec_finalize_bins(orig.take(k + 1)));
            }
        }
        proof {
            assert(orig.take(orig.len() as int) =~= orig);
        }
        out
    }
}

} // verus!
