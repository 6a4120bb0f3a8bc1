//! The sparse per-window linear index of one reference sequence.
//!
//! Each fixed-size coordinate window keeps the earliest virtual offset
//! from which a scan suffices to find every alignment overlapping that
//! window or a later one. While streaming, the first record whose start
//! falls in a window sets the window's entry; later records never
//! lower it. `finalize` copies each gap forward from its nearest
//! preceding filled window, so seeking at any window never skips an
//! alignment; windows before the first filled one get offset zero.

use vstd::prelude::*;

use crate::virtual_offset::VirtualOffset;

verus! {

/// First-write-wins insertion at window `w`, padding unseen windows
/// with `None`.
pub open spec fn spec_lin_add(
    s: Seq<Option<VirtualOffset>>,
    w: int,
    off: VirtualOffset,
) -> Seq<Option<VirtualOffset>>
    recommends
        0 <= w,
{
    if w < s.len() {
        if s[w] is Some {
            s
        } else {
            s.update(w, Some(off))
        }
    } else {
        s + Seq::new((w - s.len()) as nat, |i: int| None::<VirtualOffset>) + seq![Some(off)]
    }
}

/// Copy-forward gap filling: a window without an entry inherits the
/// nearest preceding filled window's offset, or `prev` before any.
pub open spec fn spec_lin_fill(
    s: Seq<Option<VirtualOffset>>,
    prev: VirtualOffset,
) -> Seq<VirtualOffset>
    decreases s.len(),
{
    if s.len() == 0 {
        Seq::<VirtualOffset>::empty()
    } else {
        match s[0] {
            Some(x) => seq![x] + spec_lin_fill(s.drop_first(), x),
            None => seq![prev] + spec_lin_fill(s.drop_first(), prev),
        }
    }
}

/// Filled entries never decrease with increasing window index.
pub open spec fn entries_monotone(s: Seq<Option<VirtualOffset>>) -> bool {
    forall|i: int, j: int|
        0 <= i < j < s.len() && s[i] is Some && s[j] is Some ==> s[i]->0.value <= s[j]->0.value
}

/// A fully filled index is non-decreasing.
pub open spec fn offsets_monotone(s: Seq<VirtualOffset>) -> bool {
    forall|i: int, j: int| 0 <= i < j < s.len() ==> s[i].value <= s[j].value
}

/// An insertion at or past every filled window, with an offset at or
/// past every filled value, keeps the entries monotone.
pub proof fn lemma_lin_add_monotone(s: Seq<Option<VirtualOffset>>, w: int, off: VirtualOffset)
    requires
        0 <= w,
        entries_monotone(s),
        forall|k: int| 0 <= k < s.len() && s[k] is Some ==> s[k]->0.value <= off.value,
        forall|k: int| w < k < s.len() ==> s[k] is None,
    ensures
        entries_monotone(spec_lin_add(s, w, off)),
{
    let r = spec_lin_add(s, w, off);
    assert forall|i: int, j: int|
        0 <= i < j < r.len() && r[i] is Some && r[j] is Some implies r[i]->0.value
        <= r[j]->0.value by {
        if i < s.len() && j < s.len() {
            if i != w && j != w {
                assert(s[i] == r[i] && s[j] == r[j]);
            }
        }
    }
}

/// Gap filling a monotone entry sequence from a floor below all of its
/// values yields a non-decreasing index whose values stay at or above
/// the floor.
pub proof fn lemma_lin_fill_monotone(s: Seq<Option<VirtualOffset>>, prev: VirtualOffset)
    requires
        entries_monotone(s),
        forall|k: int| 0 <= k < s.len() && s[k] is Some ==> prev.value <= s[k]->0.value,
    ensures
        offsets_monotone(spec_lin_fill(s, prev)),
        forall|k: int|
            0 <= k < spec_lin_fill(s, prev).len() ==> prev.value <= #[trigger] spec_lin_fill(
                s,
                prev,
            )[k].value,
    decreases s.len(),
{
    if s.len() > 0 {
        let head = match s[0] {
            Some(x) => x,
            None => prev,
        };
        assert(entries_monotone(s.drop_first()));
        assert forall|k: int|
            0 <= k < s.drop_first().len() && s.drop_first()[k] is Some implies head.value
            <= s.drop_first()[k]->0.value by {
            assert(s[k + 1] == s.drop_first()[k]);
        }
        lemma_lin_fill_monotone(s.drop_first(), head);
        let r = spec_lin_fill(s, prev);
        let rest = spec_lin_fill(s.drop_first(), head);
        assert(r == seq![head] + rest);
        assert forall|i: int, j: int| 0 <= i < j < r.len() implies r[i].value <= r[j].value by {
            if i > 0 {
                assert(r[i] == rest[i - 1] && r[j] == rest[j - 1]);
            } else {
                assert(r[j] == rest[j - 1]);
            }
        }
    }
}

/// Accumulates the sparse linear index of one reference sequence.
#[derive(Debug)]
pub struct LinearIndexBuilder {
    entries: Vec<Option<VirtualOffset>>,
}

impl View for LinearIndexBuilder {
    type V = Seq<Option<VirtualOffset>>;

    closed spec fn view(&self) -> Seq<Option<VirtualOffset>> {
        self.entries@
    }
}

impl LinearIndexBuilder {
    /// Starts with no windows observed.
    pub fn new() -> (b: LinearIndexBuilder)
        ensures
            b@ == Seq::<Option<VirtualOffset>>::empty(),
    {
        LinearIndexBuilder { entries: Vec::new() }
    }

    /// Records the bounding offset of a record starting in window `w`;
    /// an already filled window keeps its earlier value.
    pub fn add(&mut self, w: usize, off: VirtualOffset)
        ensures
            final(self)@ == spec_lin_add(old(self)@, w as int, off),
    {
        let ghost s0 = self.entries@;
        if w < self.entries.len() {
            if self.entries[w].is_none() {
                self.entries[w] = Some(off);
            }
        } else {
            while self.entries.len() < w
                invariant
                    s0.len() <= self.entries@.len() <= w,
                    self.entries@ =~= s0 + Seq::new(
                        (self.entries@.len() - s0.len()) as nat,
                        |i: int| None::<VirtualOffset>,
                    ),
                decreases w - self.entries@.len(),
            {
                self.entries.push(None);
                proof {
                    assert(self.entries@ =~= s0 + Seq::new(
                        (self.entries@.len() - s0.len()) as nat,
                        |i: int| None::<VirtualOffset>,
                    ));
                }
            }
            self.entries.push(Some(off));
            proof {
                assert(self.entries@ =~= s0 + Seq::new(
                    (w - s0.len()) as nat,
                    |i: int| None::<VirtualOffset>,
                ) + seq![Some(off)]);
            }
        }
    }

    /// Fills the gaps forward and yields the immutable index; a
    /// reference with no records yields an empty array.
    pub fn finalize(self) -> (r: Vec<VirtualOffset>)
        ensures
            r@ == spec_lin_fill(self@, VirtualOffset { value: 0 }),
    {
        let ghost orig = self@;
        let mut rest = self.entries;
        let mut out: Vec<VirtualOffset> = Vec::new();
        let mut prev = VirtualOffset { value: 0 };
        proof {
            assert(out@ + spec_lin_fill(rest@, prev) =~= spec_lin_fill(
                orig,
                VirtualOffset { value: 0 },
            ));
        }
        while rest.len() > 0
            invariant
                out@ + spec_lin_fill(rest@, prev) == spec_lin_fill(
                    orig,
                    VirtualOffset { value: 0 },
                ),
            decreases rest@.len(),
        {
            let ghost pre = rest@;
            let e = rest.remove(0);
            proof {
                assert(rest@ =~= pre.drop_first());
            }
            let v = match e {
                Some(x) => x,
                None => prev,
            };
            out.push(v);
            prev = v;
            proof {
                assert(out@ + spec_lin_fill(rest@, prev) =~= spec_lin_fill(
                    orig,
                    VirtualOffset { value: 0 },
                ));
            }
        }
        proof {
            assert(out@ =~= spec_lin_fill(orig, VirtualOffset { value: 0 }));
        }
        out
    }
}

} // verus!
