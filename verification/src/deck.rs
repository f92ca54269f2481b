//! `Deck`: a nested list stored as a flat item buffer plus marks.
use vstd::prelude::*;

use crate::layout::{
    calc_stride_count, calc_strides, depth_sum, first_is_max, last_above, layout_correct,
    law_layout_follows_marks, lemma_depth_sum_mono, lemma_depth_sum_prefix, lemma_entry_in_table, lemma_last_above_prefix,
    lemma_next_above_prefix, link_pegs, marks_sorted, offsets_correct, strides_upto, pegs_correct, stored_stride, stride_entry,
};
use crate::mark::OrcMark;

verus! {

/// A nested list of items. `items` holds the leaves in order; every mark
/// opens new groups at the item position it names.
#[derive(Debug)]
pub struct Deck<T> where T: Default {
    items: Vec<T>,
    marks: Vec<OrcMark>,
    stride_offset: Vec<u64>,
    strides: Vec<u64>,
    pegs: Vec<usize>,
}

/// The depth a mark of `depth` gets when pushed after `marks`: no mark may
/// be deeper than the first one.
pub open spec fn clamp_depth(marks: Seq<OrcMark>, depth: u8) -> u8 {
    if marks.len() > 0 && marks[0].depth < depth {
        marks[0].depth
    } else {
        depth
    }
}

/// The marks after pushing an item (or an empty group) at external depth
/// `depth` when `n_items` items exist: depth 0 continues the current group,
/// depth `d >= 1` opens a group of internal depth `d - 1`.
pub open spec fn marks_after_push(marks: Seq<OrcMark>, n_items: int, depth: u8) -> Seq<OrcMark> {
    if depth > 0 {
        marks.push(OrcMark { depth: clamp_depth(marks, (depth - 1) as u8), pos: n_items as u64 })
    } else {
        marks
    }
}

/// Well-formed raw deck data: sorted marks within the items, the first mark
/// the deepest, and a stride table that fits in memory.
pub open spec fn raw_deck_wf(marks: Seq<OrcMark>, n_items: int) -> bool {
    &&& marks_sorted(marks, n_items)
    &&& first_is_max(marks)
    &&& depth_sum(marks, marks.len() as int) <= usize::MAX
}


/// Depth-0 marks at every position in `[from, to)`.
pub open spec fn fill_marks(from: int, to: int) -> Seq<OrcMark>
    decreases to - from,
{
    if to <= from {
        seq![]
    } else {
        fill_marks(from, to - 1).push(OrcMark { depth: 0, pos: (to - 1) as u64 })
    }
}

/// First item position not yet wrapped after the first `k` marks were grafted.
pub open spec fn graft_prev(marks: Seq<OrcMark>, k: int) -> int {
    if k <= 0 {
        0
    } else {
        marks[k - 1].pos + 1
    }
}

/// The grafted marks that come from the first `k` marks: every item before a
/// mark gets a group of its own, and the mark itself goes one level deeper.
pub open spec fn graft_prefix(marks: Seq<OrcMark>, k: int) -> Seq<OrcMark>
    decreases k,
{
    if k <= 0 {
        seq![]
    } else {
        (graft_prefix(marks, k - 1) + fill_marks(graft_prev(marks, k - 1), marks[k - 1].pos as int)).push(
            OrcMark { depth: (marks[k - 1].depth + 1) as u8, pos: marks[k - 1].pos },
        )
    }
}

/// The marks of a deck after `graft`.
pub open spec fn graft_marks(marks: Seq<OrcMark>, n_items: int) -> Seq<OrcMark> {
    graft_prefix(marks, marks.len() as int) + fill_marks(graft_prev(marks, marks.len() as int), n_items)
}

/// Some mark has depth `e`.
pub open spec fn depth_present(marks: Seq<OrcMark>, e: int) -> bool {
    exists|k: int| 0 <= k < marks.len() && #[trigger] marks[k].depth == e
}

/// Number of distinct mark depths below `d`.
pub open spec fn depth_rank(marks: Seq<OrcMark>, d: int) -> int
    decreases d,
{
    if d <= 0 {
        0
    } else {
        depth_rank(marks, d - 1) + if depth_present(marks, d - 1) {
            1int
        } else {
            0int
        }
    }
}

/// The marks of a deck after `simplify`: each depth becomes the number of
/// distinct depths below it.
pub open spec fn simplify_marks(marks: Seq<OrcMark>) -> Seq<OrcMark> {
    Seq::new(
        marks.len(),
        |k: int| OrcMark { depth: depth_rank(marks, marks[k].depth as int) as u8, pos: marks[k].pos },
    )
}

/// Pushing a mark adds its depth to the depth sum.
pub proof fn lemma_depth_sum_push(s: Seq<OrcMark>, m: OrcMark)
    ensures
        depth_sum(s.push(m), s.len() + 1int) == depth_sum(s, s.len() as int) + m.depth,
{
    lemma_depth_sum_prefix(s.push(m), s, s.len() as int);
}

/// Ranks grow with the depth, by at most the difference of the depths.
pub proof fn lemma_depth_rank_mono(marks: Seq<OrcMark>, a: int, b: int)
    requires
        0 <= a <= b,
    ensures
        depth_rank(marks, a) <= depth_rank(marks, b),
        depth_rank(marks, b) - depth_rank(marks, a) <= b - a,
        0 <= depth_rank(marks, a),
    decreases b - a,
{
    lemma_depth_rank_nonneg(marks, a);
    if b > a {
        lemma_depth_rank_mono(marks, a, b - 1);
    }
}

/// Ranks are never negative.
pub proof fn lemma_depth_rank_nonneg(marks: Seq<OrcMark>, d: int)
    ensures
        0 <= depth_rank(marks, d),
    decreases d,
{
    if d > 0 {
        lemma_depth_rank_nonneg(marks, d - 1);
    }
}

/// Depth sums grow with the depths.
pub proof fn lemma_depth_sum_pointwise(a: Seq<OrcMark>, b: Seq<OrcMark>, i: int)
    requires
        0 <= i <= a.len(),
        a.len() == b.len(),
        forall|k: int| 0 <= k < a.len() ==> #[trigger] a[k].depth <= b[k].depth,
    ensures
        depth_sum(a, i) <= depth_sum(b, i),
    decreases i,
{
    if i > 0 {
        lemma_depth_sum_pointwise(a, b, i - 1);
    }
}

/// Every depth from 0 up to the first mark's depth occurs among the marks.
pub open spec fn depths_contiguous(marks: Seq<OrcMark>) -> bool {
    marks.len() > 0 ==> forall|e: int| 0 <= e <= marks[0].depth ==> #[trigger] depth_present(marks, e)
}

proof fn lemma_rank_identity(marks: Seq<OrcMark>, d: int)
    requires
        depths_contiguous(marks),
        marks.len() > 0,
        0 <= d <= marks[0].depth + 1,
    ensures
        depth_rank(marks, d) == d,
    decreases d,
{
    if d > 0 {
        lemma_rank_identity(marks, d - 1);
        assert(depth_present(marks, d - 1));
    }
}

/// Every rank below `depth_rank(marks, t)` is the rank of a present depth
/// below `t`.
proof fn lemma_rank_onto(marks: Seq<OrcMark>, t: int, e: int)
    requires
        0 <= e < depth_rank(marks, t),
    ensures
        exists|x: int| 0 <= x < t && depth_present(marks, x) && #[trigger] depth_rank(marks, x) == e,
    decreases t,
{
    if t > 0 {
        if e < depth_rank(marks, t - 1) {
            lemma_rank_onto(marks, t - 1, e);
            let x = choose|x: int| 0 <= x < t - 1 && depth_present(marks, x) && #[trigger] depth_rank(marks, x) == e;
            assert(0 <= x < t && depth_present(marks, x) && depth_rank(marks, x) == e);
        } else {
            assert(depth_present(marks, t - 1));
            assert(depth_rank(marks, t - 1) == e);
        }
    }
}

/// Simplified marks keep the first mark the deepest and use every depth up
/// to it.
proof fn lemma_simplified_contiguous(marks: Seq<OrcMark>)
    requires
        first_is_max(marks),
        marks.len() > 0,
        depth_rank(marks, marks[0].depth + 1) <= 255,
    ensures
        first_is_max(simplify_marks(marks)),
        depths_contiguous(simplify_marks(marks)),
{
    let s = simplify_marks(marks);
    let d0 = marks[0].depth as int;
    lemma_depth_rank_mono(marks, d0, d0 + 1);
    assert forall|k: int| 0 <= k < s.len() implies #[trigger] s[k].depth <= s[0].depth by {
        lemma_depth_rank_mono(marks, marks[k].depth as int, d0);
    }
    assert(depth_present(marks, d0)) by {
        assert(marks[0].depth == d0);
    }
    assert forall|e: int| 0 <= e <= s[0].depth implies #[trigger] depth_present(s, e) by {
        assert(depth_rank(marks, d0 + 1) == depth_rank(marks, d0) + 1);
        lemma_rank_onto(marks, d0 + 1, e);
        let x = choose|x: int| 0 <= x < d0 + 1 && depth_present(marks, x) && #[trigger] depth_rank(marks, x) == e;
        let k = choose|k: int| 0 <= k < marks.len() && #[trigger] marks[k].depth == x;
        lemma_depth_rank_mono(marks, x, d0);
        assert(s[k].depth == e);
    }
}

/// Simplifying marks whose depths already run without gaps from 0 up to
/// the first mark's depth changes nothing.
pub proof fn law_simplify_keeps_contiguous(marks: Seq<OrcMark>)
    requires
        first_is_max(marks),
        depths_contiguous(marks),
    ensures
        simplify_marks(marks) == marks,
{
    if marks.len() > 0 {
        assert forall|k: int| 0 <= k < marks.len() implies #[trigger] simplify_marks(marks)[k] == marks[k] by {
            lemma_rank_identity(marks, marks[k].depth as int);
        }
        assert(simplify_marks(marks) =~= marks);
    } else {
        assert(simplify_marks(marks) =~= marks);
    }
}

/// Simplifying twice is simplifying once.
pub proof fn law_simplify_idempotent(marks: Seq<OrcMark>)
    requires
        first_is_max(marks),
        marks.len() > 0 ==> depth_rank(marks, marks[0].depth + 1) <= 255,
    ensures
        simplify_marks(simplify_marks(marks)) == simplify_marks(marks),
{
    if marks.len() > 0 {
        lemma_simplified_contiguous(marks);
        law_simplify_keeps_contiguous(simplify_marks(marks));
    } else {
        assert(simplify_marks(marks) =~= marks);
        law_simplify_keeps_contiguous(marks);
    }
}

proof fn lemma_fill_marks(from: int, to: int, j: int)
    requires
        0 <= j < to - from,
    ensures
        fill_marks(from, to).len() == to - from,
        fill_marks(from, to)[j] == (OrcMark { depth: 0, pos: (from + j) as u64 }),
    decreases to - from,
{
    if j < to - 1 - from {
        lemma_fill_marks(from, to - 1, j);
    } else {
        if to - 1 > from {
            lemma_fill_marks(from, to - 1, 0);
        } else {
            assert(fill_marks(from, to - 1).len() == 0);
        }
    }
}

proof fn lemma_graft_prefix_first(marks: Seq<OrcMark>, k: int)
    requires
        1 <= k <= marks.len(),
        marks[0].pos == 0,
    ensures
        graft_prefix(marks, k).len() > 0,
        graft_prefix(marks, k)[0] == (OrcMark { depth: (marks[0].depth + 1) as u8, pos: 0 }),
    decreases k,
{
    if k > 1 {
        lemma_graft_prefix_first(marks, k - 1);
    } else {
        assert(graft_prefix(marks, 0).len() == 0);
        assert(fill_marks(graft_prev(marks, 0), marks[0].pos as int).len() == 0);
    }
}

/// Grafting makes a deck one level deeper: its first mark is one deeper
/// than before, and a deck of items without marks gets marks of depth 0.
pub proof fn law_graft_deepens(marks: Seq<OrcMark>, n_items: int)
    requires
        marks.len() > 0 ==> marks[0].pos == 0 && marks[0].depth < 255,
        marks.len() > 0 || n_items > 0,
    ensures
        graft_marks(marks, n_items).len() > 0,
        graft_marks(marks, n_items)[0].depth == (if marks.len() > 0 {
            marks[0].depth + 1
        } else {
            0
        }),
{
    if marks.len() > 0 {
        lemma_graft_prefix_first(marks, marks.len() as int);
    } else {
        assert(graft_prefix(marks, 0).len() == 0);
        lemma_fill_marks(0, n_items, 0);
        assert(graft_marks(marks, n_items) == fill_marks(0, n_items));
    }
}

impl<T> Deck<T> where T: Default {
    /// The items, in order.
    pub closed spec fn item_seq(&self) -> Seq<T> {
        self.items@
    }

    /// The marks, in order.
    pub closed spec fn mark_seq(&self) -> Seq<OrcMark> {
        self.marks@
    }

    /// The deck's internal invariant: its marks are well-formed for its items,
    /// and the stride table and pegs describe the marks.
    pub closed spec fn wf(&self) -> bool {
        &&& raw_deck_wf(self.marks@, self.items@.len() as int)
        &&& layout_correct(self.marks@, self.stride_offset@, self.strides@)
        &&& pegs_correct(self.marks@, self.pegs@, self.marks@.len() as int)
    }

    /// The stride offsets of a well-formed deck.
    pub closed spec fn offset_seq(&self) -> Seq<u64> {
        self.stride_offset@
    }

    /// The stride table of a well-formed deck.
    pub closed spec fn stride_seq(&self) -> Seq<u64> {
        self.strides@
    }

    /// The pegs of a well-formed deck.
    pub closed spec fn peg_seq(&self) -> Seq<usize> {
        self.pegs@
    }

    /// The parts of a well-formed deck satisfy the layout predicates.
    pub proof fn lemma_wf(&self)
        requires
            self.wf(),
        ensures
            raw_deck_wf(self.mark_seq(), self.item_seq().len() as int),
            layout_correct(self.mark_seq(), self.offset_seq(), self.stride_seq()),
    {
    }

    /// The tables a well-formed deck keeps beside its marks are those the
    /// marks decide: two well-formed decks with the same marks have the same
    /// stride offsets, stride table and pegs. So a deck rebuilt by
    /// `from_raw_data` from the items and marks of a deck, however that deck
    /// was grown, has the very tables it had kept up to date.
    pub proof fn law_tables_follow_marks(&self, other: &Deck<T>)
        requires
            self.wf(),
            other.wf(),
            self.mark_seq() == other.mark_seq(),
        ensures
            self.offset_seq() == other.offset_seq(),
            self.stride_seq() == other.stride_seq(),
            self.peg_seq() == other.peg_seq(),
    {
        law_layout_follows_marks(
            self.marks@,
            self.stride_offset@,
            self.strides@,
            self.pegs@,
            other.stride_offset@,
            other.strides@,
            other.pegs@,
        );
    }

    /// An empty deck.
    pub fn new() -> (d: Self)
        ensures
            d.wf(),
            d.item_seq() == Seq::<T>::empty(),
            d.mark_seq() == Seq::<OrcMark>::empty(),
    {
        Deck {
            items: Vec::new(),
            marks: Vec::new(),
            stride_offset: Vec::new(),
            strides: Vec::new(),
            pegs: Vec::new(),
        }
    }

    /// Create a deck from the raw data buffer, and a raw marks buffer that
    /// indicates the structure of the data.
    pub fn from_raw_data(items: &[T], marks: &[OrcMark]) -> (d: Self) where T: Clone
        requires
            raw_deck_wf(marks@, items@.len() as int),
        ensures
            d.wf(),
            d.item_seq().len() == items@.len(),
            forall|i: int| 0 <= i < items@.len() ==> cloned::<T>(items@[i], #[trigger] d.item_seq()[i]),
            d.mark_seq() == marks@,
    {
        let mut its: Vec<T> = Vec::new();
        its.extend_from_slice(items);
        let mut mks: Vec<OrcMark> = Vec::new();
        let mut i: usize = 0;
        while i < marks.len()
            invariant
                0 <= i <= marks.len(),
                mks@ == marks@.subrange(0, i as int),
            decreases marks.len() - i,
        {
            mks.push(marks[i]);
            i = i + 1;
        }
        proof {
            assert(mks@ == marks@);
        }
        let mut out = Deck {
            items: its,
            marks: mks,
            stride_offset: Vec::new(),
            strides: Vec::new(),
            pegs: Vec::new(),
        };
        calc_strides(out.marks.as_slice(), &mut out.pegs, &mut out.stride_offset, &mut out.strides);
        out
    }

    /// Get the maximum depth of this deck. By definition, this is the depth of
    /// the first mark, plus one.
    pub fn max_depth(&self) -> (r: u8)
        requires
            self.wf(),
            self.mark_seq().len() > 0 ==> self.mark_seq()[0].depth < 255,
        ensures
            r == (if self.mark_seq().len() > 0 {
                self.mark_seq()[0].depth + 1
            } else {
                0
            }),
    {
        if self.marks.len() > 0 {
            self.marks[0].depth + 1
        } else {
            0u8
        }
    }

    /// Number of items in this deck.
    pub fn len(&self) -> (r: usize)
        ensures
            r == self.item_seq().len(),
    {
        self.items.len()
    }

    pub fn is_empty(&self) -> (r: bool)
        ensures
            r == (self.item_seq().len() == 0),
    {
        self.items.len() == 0
    }

    /// Push an item. `depth` uses external numbering: 0 = continuation (no
    /// mark), 1+ = starts a new group at that level.
    pub fn push(&mut self, item: T, depth: u8)
        requires
            old(self).wf(),
        ensures
            final(self).wf(),
            final(self).item_seq() == old(self).item_seq().push(item),
            final(self).mark_seq() == marks_after_push(
                old(self).mark_seq(),
                old(self).item_seq().len() as int,
                depth,
            ),
    {
        self.start_new_arr(depth);
        self.items.push(item);
        proof {
            let ms = self.marks@;
            assert forall|k: int| 0 <= k < ms.len() implies #[trigger] ms[k].pos <= self.items@.len() by {
            }
        }
    }

    /// Push an empty group at the given external depth (must be >= 1 to have
    /// an effect). No item is added; this creates a mark at the current item
    /// position.
    pub fn start_new_arr(&mut self, depth: u8)
        requires
            old(self).wf(),
        ensures
            final(self).wf(),
            final(self).item_seq() == old(self).item_seq(),
            final(self).mark_seq() == marks_after_push(
                old(self).mark_seq(),
                old(self).item_seq().len() as int,
                depth,
            ),
    {
        if depth > 0 {
            let pos = self.items.len();
            proof {
                assert forall|k: int| 0 <= k < self.marks@.len() implies #[trigger] self.marks@[k].pos <= pos by {}
            }
            self.push_mark(OrcMark { depth: depth - 1, pos: pos as u64 });
        }
    }

    /// Appends a mark, clamped to the depth of the first mark, and updates the
    /// stride table incrementally.
    fn push_mark(&mut self, mark: OrcMark)
        requires
            old(self).wf(),
            mark.pos <= old(self).item_seq().len(),
            forall|k: int| 0 <= k < old(self).mark_seq().len() ==> #[trigger] old(self).mark_seq()[k].pos <= mark.pos,
        ensures
            final(self).wf(),
            final(self).item_seq() == old(self).item_seq(),
            final(self).mark_seq() == old(self).mark_seq().push(
                OrcMark { depth: clamp_depth(old(self).mark_seq(), mark.depth), pos: mark.pos },
            ),
    {
        // Ensure no mark exceeds the first mark's depth. This lets the table be
        // updated incrementally: the number of levels kept by the first mark
        // never changes.
        let depth = if self.marks.len() > 0 {
            if self.marks[0].depth < mark.depth {
                self.marks[0].depth
            } else {
                mark.depth
            }
        } else {
            mark.depth
        };
        let mark = OrcMark { depth, pos: mark.pos };
        let ghost old_marks = self.marks@;
        let ghost ms = self.marks@.push(mark);
        let ghost old_strides = self.strides@;
        let ghost old_offsets = self.stride_offset@;
        let ghost old_pegs = self.pegs@;
        let ghost old_items = self.items@;
        let d = depth as usize;
        if d > self.pegs.len() {
            while self.pegs.len() < d
                invariant
                    self.pegs@.len() <= d,
                    self.pegs@.len() >= old_pegs.len(),
                    forall|j: int| 0 <= j < old_pegs.len() ==> #[trigger] self.pegs@[j] == old_pegs[j],
                    self.marks@ == old_marks,
                    self.stride_offset@ == old_offsets,
                    self.strides@ == old_strides,
                    self.items@ == old_items,
                decreases d - self.pegs@.len(),
            {
                self.pegs.push(0);
            }
        }
        // Update the scan then push the actual marker.
        let ghost pegs1 = self.pegs@;
        let count = calc_stride_count(self.marks.as_slice(), self.stride_offset.as_slice());
        self.stride_offset.push(count as u64);
        let ghost offsets1 = self.stride_offset@;
        let mut t: usize = 0;
        while t < d
            invariant
                0 <= t <= d,
                self.pegs@ == pegs1,
                self.marks@ == old_marks,
                self.stride_offset@ == offsets1,
                self.items@ == old_items,
                self.strides@.len() == old_strides.len() + t,
                forall|x: int| 0 <= x < old_strides.len() ==> #[trigger] self.strides@[x] == old_strides[x],
                forall|x: int| old_strides.len() <= x < self.strides@.len() ==> #[trigger] self.strides@[x] == u64::MAX,
            decreases d - t,
        {
            self.strides.push(u64::MAX);
            t = t + 1;
        }
        proof {
            let n = old_marks.len() as int;
            assert(ms[n] == mark);
            assert forall|k: int| 0 <= k < n implies ms[k] == old_marks[k] by {}
            lemma_depth_sum_prefix(ms, old_marks, n);
            assert(depth_sum(ms, n + 1) == depth_sum(ms, n) + d);
            assert forall|i: int| 0 <= i < ms.len() implies #[trigger] self.stride_offset@[i] == depth_sum(ms, i) by {
                if i < n {
                    lemma_depth_sum_prefix(ms, old_marks, i);
                }
            }
            assert(first_is_max(ms)) by {
                assert forall|k: int| 0 <= k < ms.len() implies #[trigger] ms[k].depth <= ms[0].depth by {
                    if n > 0 {
                        assert(old_marks[0].depth <= ms[0].depth);
                    }
                }
            }
            assert forall|i: int, j: int|
                0 <= i < ms.len() && 0 <= j < ms[i].depth implies #[trigger] stored_stride(
                self.stride_offset@,
                self.strides@,
                i,
                j,
            ) == (if i < n {
                stride_entry(ms, i, j, n)
            } else {
                u64::MAX
            }) by {
                if i < n {
                    lemma_entry_in_table(old_marks, i, j);
                    lemma_next_above_prefix(ms, old_marks, i + 1, n, j);
                    assert(stored_stride(self.stride_offset@, self.strides@, i, j) == stored_stride(
                        old_offsets,
                        old_strides,
                        i,
                        j,
                    ));
                } else {
                    assert(i == n);
                    lemma_depth_sum_mono(ms, n, n);
                }
            }
            if n > 0 {
                assert forall|j: int| 0 <= j < self.pegs@.len() implies #[trigger] self.pegs@[j] == last_above(
                    ms,
                    n,
                    j,
                ) by {
                    lemma_last_above_prefix(ms, old_marks, n, j);
                }
            }
        }
        link_pegs(&mut self.pegs, self.stride_offset.as_slice(), &mut self.strides, self.marks.len(), d, Ghost(ms));
        self.marks.push(mark);
        proof {
            let n = old_marks.len() as int;
            assert(self.marks@ == ms);
            assert forall|j: int| 0 <= j < self.pegs@.len() implies #[trigger] self.pegs@[j] == last_above(
                ms,
                n + 1,
                j,
            ) by {
                if j >= d {
                    lemma_last_above_prefix(ms, old_marks, n, j);
                }
            }
            assert(marks_sorted(ms, self.items@.len() as int)) by {
                assert forall|a: int, b: int| 0 <= a <= b < ms.len() implies #[trigger] ms[a].pos
                    <= #[trigger] ms[b].pos by {
                    if b == n && a < n {
                        assert(old_marks[a].pos <= mark.pos);
                    }
                }
            }
            assert(first_is_max(ms));
            assert(self.strides@.len() == self.strides.len());
            assert(depth_sum(ms, ms.len() as int) <= usize::MAX);
            assert(offsets_correct(ms, self.stride_offset@));
            assert(self.strides@.len() == depth_sum(ms, ms.len() as int));
            assert(strides_upto(ms, self.stride_offset@, self.strides@, ms.len() as int));
            assert(self.pegs@.len() == ms[0].depth);
        }
    }

    /// Clear the contents of this deck.
    pub fn clear(&mut self)
        requires
            old(self).wf(),
        ensures
            final(self).wf(),
            final(self).item_seq() == Seq::<T>::empty(),
            final(self).mark_seq() == Seq::<OrcMark>::empty(),
    {
        self.items.clear();
        self.marks.clear();
        self.stride_offset.clear();
        self.strides.clear();
        self.pegs.clear();
    }

    /// Reserve memory for `additional` number of elements.
    pub fn reserve(&mut self, additional: usize)
        requires
            old(self).wf(),
        ensures
            final(self).wf(),
            final(self).item_seq() == old(self).item_seq(),
            final(self).mark_seq() == old(self).mark_seq(),
    {
        self.items.reserve(additional);
        self.marks.reserve(additional);
        self.stride_offset.reserve(additional);
    }

    /// Flattens all items into one list.
    pub fn flatten(&mut self)
        requires
            old(self).wf(),
        ensures
            final(self).wf(),
            final(self).item_seq() == old(self).item_seq(),
            final(self).mark_seq() == (if old(self).item_seq().len() > 1 {
                seq![OrcMark { depth: 0, pos: 0 }]
            } else {
                Seq::<OrcMark>::empty()
            }),
    {
        self.marks.clear();
        self.stride_offset.clear();
        self.strides.clear();
        self.pegs.clear();
        if self.items.len() > 1 {
            self.push_mark(OrcMark { depth: 0, pos: 0 });
        }
    }


    /// Increases the depth of the tree by 1, by wrapping each item in its own
    /// list.
    ///
    /// The first mark must sit at position 0. Were it further on, the items
    /// before it would each get a depth-0 mark ahead of a deeper one, so the
    /// result would break the rule of a well-formed deck that its first mark
    /// is its deepest, and the stride tables built from it would not describe
    /// any deck.
    pub fn graft(&mut self)
        requires
            old(self).wf(),
            forall|k: int| 0 <= k < old(self).mark_seq().len() ==> #[trigger] old(self).mark_seq()[k].depth < 255,
            old(self).mark_seq().len() > 0 ==> old(self).mark_seq()[0].pos == 0,
            old(self).mark_seq().len() + old(self).item_seq().len() <= usize::MAX,
            depth_sum(old(self).mark_seq(), old(self).mark_seq().len() as int) + old(self).mark_seq().len()
                <= usize::MAX,
        ensures
            final(self).wf(),
            final(self).item_seq() == old(self).item_seq(),
            final(self).mark_seq() == graft_marks(old(self).mark_seq(), old(self).item_seq().len() as int),
    {
        let ghost old_marks = self.marks@;
        let count = self.marks.len();
        let n_items = self.items.len();
        let mut new_marks: Vec<OrcMark> = Vec::with_capacity(count + n_items);
        let mut prev: u64 = 0;
        let mut k: usize = 0;
        while k < count
            invariant
                0 <= k <= count,
                count == old_marks.len(),
                count + n_items <= usize::MAX,
                self.marks@ == old_marks,
                n_items == self.items@.len(),
                raw_deck_wf(old_marks, n_items as int),
                forall|x: int| 0 <= x < old_marks.len() ==> #[trigger] old_marks[x].depth < 255,
                count > 0 ==> old_marks[0].pos == 0,
                new_marks@ == graft_prefix(old_marks, k as int),
                prev == graft_prev(old_marks, k as int),
                forall|a: int, b: int|
                    0 <= a <= b < new_marks@.len() ==> #[trigger] new_marks@[a].pos <= #[trigger] new_marks@[b].pos,
                forall|x: int| 0 <= x < new_marks@.len() ==> #[trigger] new_marks@[x].pos < prev,
                prev <= n_items + 1,
                forall|x: int| 0 <= x < new_marks@.len() ==> #[trigger] new_marks@[x].depth <= old_marks[0].depth + 1,
                k > 0 ==> new_marks@.len() > 0 && new_marks@[0].depth == old_marks[0].depth + 1,
                depth_sum(new_marks@, new_marks@.len() as int) == depth_sum(old_marks, k as int) + k,
            decreases count - k,
        {
            let m = self.marks[k];
            proof {
                if k > 0 {
                    assert(old_marks[k - 1].pos <= old_marks[k as int].pos);
                }
                assert(m.pos <= n_items);
                assert(m.depth <= old_marks[0].depth);
            }
            let mut pos = prev;
            let ghost base = new_marks@;
            while pos < m.pos
                invariant
                    prev <= pos,
                    pos <= m.pos || pos == prev,
                    m.pos <= n_items,
                    base == graft_prefix(old_marks, k as int),
                    new_marks@ == base + fill_marks(prev as int, pos as int),
                    forall|a: int, b: int|
                        0 <= a <= b < new_marks@.len() ==> #[trigger] new_marks@[a].pos <= #[trigger] new_marks@[b].pos,
                    forall|x: int| 0 <= x < new_marks@.len() ==> #[trigger] new_marks@[x].pos < pos || (
                    new_marks@.len() == 0),
                    forall|x: int| 0 <= x < base.len() ==> #[trigger] base[x].pos < prev,
                    forall|x: int| 0 <= x < new_marks@.len() ==> #[trigger] new_marks@[x].depth <= old_marks[0].depth
                        + 1,
                    k > 0 ==> new_marks@.len() > 0 && new_marks@[0] == base[0],
                    depth_sum(new_marks@, new_marks@.len() as int) == depth_sum(base, base.len() as int),
                decreases m.pos - pos,
            {
                let fm = OrcMark { depth: 0, pos };
                proof {
                    lemma_depth_sum_push(new_marks@, fm);
                }
                new_marks.push(fm);
                pos = pos + 1;
                proof {
                    assert(new_marks@ == base + fill_marks(prev as int, pos as int));
                }
            }
            let bumped = OrcMark { depth: m.depth + 1, pos: m.pos };
            proof {
                lemma_depth_sum_push(new_marks@, bumped);
                assert forall|x: int| 0 <= x < new_marks@.len() implies #[trigger] new_marks@[x].pos <= m.pos by {
                    if k > 0 {
                        assert(old_marks[k - 1].pos <= old_marks[k as int].pos);
                    }
                }
                if k == 0 {
                    assert(pos == 0);
                    assert(new_marks@.len() == 0);
                }
            }
            new_marks.push(bumped);
            prev = m.pos + 1;
            k = k + 1;
            proof {
                assert(new_marks@ == graft_prefix(old_marks, k as int));
            }
        }
        let ghost base = new_marks@;
        let mut pos = prev;
        while pos < n_items as u64
            invariant
                prev <= pos,
                pos <= n_items || pos == prev,
                prev <= n_items + 1,
                base == graft_prefix(old_marks, count as int),
                new_marks@ == base + fill_marks(prev as int, pos as int),
                forall|a: int, b: int|
                    0 <= a <= b < new_marks@.len() ==> #[trigger] new_marks@[a].pos <= #[trigger] new_marks@[b].pos,
                forall|x: int| 0 <= x < new_marks@.len() ==> #[trigger] new_marks@[x].pos < pos || (new_marks@.len()
                    == 0),
                forall|x: int| 0 <= x < base.len() ==> #[trigger] base[x].pos < prev,
                forall|x: int| 0 <= x < new_marks@.len() ==> #[trigger] new_marks@[x].depth <= old_marks[0].depth + 1
                    || count == 0,
                forall|x: int| 0 <= x < new_marks@.len() ==> #[trigger] new_marks@[x].depth == 0 || count > 0,
                count > 0 ==> new_marks@.len() > 0 && new_marks@[0] == base[0],
                count > 0 ==> base[0].depth == old_marks[0].depth + 1,
                depth_sum(new_marks@, new_marks@.len() as int) == depth_sum(base, base.len() as int),
            decreases n_items - pos,
        {
            let fm = OrcMark { depth: 0, pos };
            proof {
                lemma_depth_sum_push(new_marks@, fm);
            }
            new_marks.push(fm);
            pos = pos + 1;
            proof {
                assert(new_marks@ == base + fill_marks(prev as int, pos as int));
            }
        }
        proof {
            let ms = new_marks@;
            assert(ms == graft_marks(old_marks, n_items as int));
            assert forall|x: int| 0 <= x < ms.len() implies #[trigger] ms[x].pos <= n_items by {}
            assert(first_is_max(ms));
            assert(depth_sum(ms, ms.len() as int) <= usize::MAX);
        }
        self.marks = new_marks;
        calc_strides(self.marks.as_slice(), &mut self.pegs, &mut self.stride_offset, &mut self.strides);
    }

    /// Eliminates redundant hierarchy in the tree: the distinct mark depths are
    /// renumbered `0, 1, 2, ...` in order, so that levels no mark uses vanish.
    /// Data from different branches is never combined.
    pub fn simplify(&mut self)
        requires
            old(self).wf(),
            old(self).mark_seq().len() > 0 ==> depth_rank(
                old(self).mark_seq(),
                old(self).mark_seq()[0].depth + 1,
            ) <= 255,
        ensures
            final(self).wf(),
            final(self).item_seq() == old(self).item_seq(),
            final(self).mark_seq() == simplify_marks(old(self).mark_seq()),
    {
        let ghost ms = self.marks@;
        let ghost its = self.items@;
        let dmax: usize = if self.marks.len() > 0 {
            self.marks[0].depth as usize
        } else {
            0
        };
        let mut remap: Vec<u8> = Vec::new();
        while remap.len() < dmax + 1
            invariant
                dmax <= 255,
                self.marks@ == ms,
                self.items@ == its,
                remap@.len() <= dmax + 1,
                forall|e: int| 0 <= e < remap@.len() ==> #[trigger] remap@[e] == 0,
            decreases dmax + 1 - remap@.len(),
        {
            remap.push(0);
        }
        // Mark depths that are seen.
        let mut i: usize = 0;
        while i < self.marks.len()
            invariant
                0 <= i <= ms.len(),
                dmax <= 255,
                self.items@ == its,
                self.marks@ == ms,
                raw_deck_wf(ms, self.items@.len() as int),
                ms.len() > 0 ==> dmax == ms[0].depth,
                remap@.len() == dmax + 1,
                forall|e: int| 0 <= e <= dmax ==> #[trigger] remap@[e] == (if exists|k: int|
                    0 <= k < i && #[trigger] ms[k].depth == e {
                    1u8
                } else {
                    0u8
                }),
            decreases ms.len() - i,
        {
            let d = self.marks[i].depth as usize;
            proof {
                assert(ms[i as int].depth <= ms[0].depth);
            }
            remap.set(d, 1);
            i = i + 1;
            proof {
                assert forall|e: int| 0 <= e <= dmax implies #[trigger] remap@[e] == (if exists|k: int|
                    0 <= k < i && #[trigger] ms[k].depth == e {
                    1u8
                } else {
                    0u8
                }) by {
                    if e == d {
                        assert(ms[i - 1].depth == e);
                    } else if exists|k: int| 0 <= k < i && #[trigger] ms[k].depth == e {
                        let k = choose|k: int| 0 <= k < i && #[trigger] ms[k].depth == e;
                        assert(k < i - 1);
                    }
                }
            }
        }
        proof {
            assert forall|e: int| 0 <= e <= dmax implies #[trigger] remap@[e] == (if depth_present(ms, e) {
                1u8
            } else {
                0u8
            }) by {
                if depth_present(ms, e) {
                    let k = choose|k: int| 0 <= k < ms.len() && #[trigger] ms[k].depth == e;
                    assert(ms[k].depth == e);
                }
            }
            if ms.len() > 0 {
                lemma_depth_rank_mono(ms, 0, dmax + 1);
            }
        }
        // Exclusive prefix sum: each seen depth becomes its rank.
        let mut acc: u8 = 0;
        let mut j: usize = 0;
        while j <= dmax
            invariant
                0 <= j <= dmax + 1,
                dmax <= 255,
                self.items@ == its,
                self.marks@ == ms,
                remap@.len() == dmax + 1,
                ms.len() > 0 ==> depth_rank(ms, dmax + 1) <= 255,
                ms.len() == 0 ==> dmax == 0,
                acc == depth_rank(ms, j as int),
                forall|e: int| 0 <= e < j ==> #[trigger] remap@[e] == depth_rank(ms, e),
                forall|e: int| j <= e <= dmax ==> #[trigger] remap@[e] == (if depth_present(ms, e) {
                    1u8
                } else {
                    0u8
                }),
            decreases dmax + 1 - j,
        {
            let r = remap[j];
            proof {
                if ms.len() > 0 {
                    lemma_depth_rank_mono(ms, j + 1, dmax + 1);
                } else {
                    assert(!depth_present(ms, 0));
                }
            }
            remap.set(j, acc);
            acc = acc + r;
            j = j + 1;
        }
        let mut k: usize = 0;
        while k < self.marks.len()
            invariant
                0 <= k <= ms.len(),
                dmax <= 255,
                self.items@ == its,
                self.marks@.len() == ms.len(),
                raw_deck_wf(ms, self.items@.len() as int),
                ms.len() > 0 ==> dmax == ms[0].depth,
                remap@.len() == dmax + 1,
                forall|e: int| 0 <= e <= dmax ==> #[trigger] remap@[e] == depth_rank(ms, e),
                forall|x: int| 0 <= x < k ==> #[trigger] self.marks@[x] == simplify_marks(ms)[x],
                forall|x: int| k <= x < ms.len() ==> #[trigger] self.marks@[x] == ms[x],
            decreases ms.len() - k,
        {
            let m = self.marks[k];
            proof {
                assert(ms[k as int].depth <= ms[0].depth);
            }
            let nd = remap[m.depth as usize];
            self.marks.set(k, OrcMark { depth: nd, pos: m.pos });
            k = k + 1;
        }
        proof {
            let ns = self.marks@;
            assert(ns == simplify_marks(ms));
            assert forall|x: int| 0 <= x < ns.len() implies #[trigger] ns[x].depth <= ns[0].depth by {
                assert(ms[x].depth <= ms[0].depth);
                lemma_depth_rank_mono(ms, ms[x].depth as int, ms[0].depth as int);
            }
            assert forall|x: int| 0 <= x < ns.len() implies #[trigger] ns[x].depth <= ms[x].depth by {
                lemma_depth_rank_mono(ms, 0, ms[x].depth as int);
            }
            lemma_depth_sum_pointwise(ns, ms, ns.len() as int);
            assert(marks_sorted(ns, self.items@.len() as int));
        }
        calc_strides(self.marks.as_slice(), &mut self.pegs, &mut self.stride_offset, &mut self.strides);
    }


    /// Appends items to the current group without adding marks.
    pub(crate) fn extend_items(&mut self, items: &[T]) where T: Clone
        requires
            old(self).wf(),
        ensures
            final(self).wf(),
            final(self).mark_seq() == old(self).mark_seq(),
            final(self).item_seq().len() == old(self).item_seq().len() + items@.len(),
            forall|i: int|
                0 <= i < old(self).item_seq().len() ==> #[trigger] final(self).item_seq()[i] == old(self).item_seq()[i],
            forall|i: int|
                0 <= i < items@.len() ==> cloned::<T>(
                    items@[i],
                    #[trigger] final(self).item_seq()[old(self).item_seq().len() + i],
                ),
    {
        let ghost n = self.items@.len();
        self.items.extend_from_slice(items);
        proof {
            assert forall|i: int| 0 <= i < items@.len() implies cloned::<T>(
                items@[i],
                #[trigger] self.items@[n + i],
            ) by {
                assert(self.items@[n + i] == self.items@[n + i]);
            }
        }
    }

    /// Mutable access to item `i`; nothing else changes.
    pub(crate) fn item_mut(&mut self, i: usize) -> (r: &mut T)
        requires
            i < old(self).item_seq().len(),
        ensures
            *r == old(self).item_seq()[i as int],
            final(self).item_seq() == old(self).item_seq().update(i as int, *final(r)),
            final(self).mark_seq() == old(self).mark_seq(),
            final(self).offset_seq() == old(self).offset_seq(),
            final(self).stride_seq() == old(self).stride_seq(),
            final(self).peg_seq() == old(self).peg_seq(),
            old(self).wf() ==> final(self).wf(),
    {
        &mut self.items[i]
    }

    /// Mutable access to the items; their number and the marks stay as they are.
    pub(crate) fn items_mut(&mut self) -> (r: &mut [T])
        ensures
            r@ == old(self).item_seq(),
            final(self).item_seq() == final(r)@,
            final(self).mark_seq() == old(self).mark_seq(),
            final(self).offset_seq() == old(self).offset_seq(),
            final(self).stride_seq() == old(self).stride_seq(),
            final(self).peg_seq() == old(self).peg_seq(),
            old(self).wf() && final(r)@.len() == r@.len() ==> final(self).wf(),
    {
        self.items.as_mut_slice()
    }

    /// The items of this deck.
    pub fn items(&self) -> (r: &[T])
        ensures
            r@ == self.item_seq(),
    {
        self.items.as_slice()
    }

    /// The marks of this deck.
    pub fn marks(&self) -> (r: &[OrcMark])
        ensures
            r@ == self.mark_seq(),
    {
        self.marks.as_slice()
    }

    /// The stride offsets and the stride table of this deck.
    pub fn stride_info(&self) -> (r: (&[u64], &[u64]))
        requires
            self.wf(),
        ensures
            layout_correct(self.mark_seq(), r.0@, r.1@),
            r.0@ == self.offset_seq(),
            r.1@ == self.stride_seq(),
    {
        (self.stride_offset.as_slice(), self.strides.as_slice())
    }
}

impl<T> Default for Deck<T> where T: Default {
    fn default() -> (d: Self)
        ensures
            d.wf(),
            d.item_seq() == Seq::<T>::empty(),
            d.mark_seq() == Seq::<OrcMark>::empty(),
    {
        Deck::new()
    }
}

} // verus!
