//! Read cursors over the levels of a deck, and `DeckView`, a cursor paired
//! with the deck's items.
use vstd::prelude::*;

use crate::deck::{raw_deck_wf, Deck};
use crate::layout::{
    layout_correct, lemma_next_above, lemma_stride_bounds, mark_pos, mark_pos_spec, marks_sorted, next_above, stride,
    stride_spec,
};
use crate::mark::OrcMark;

verus! {

/// A position in a deck at one level. At depth >= 1, `start`/`end` are mark
/// indices; at depth 0, they are item indices.
#[derive(Clone, Copy, Debug)]
pub struct ReadCursor<'a> {
    pub n_items: usize,
    pub marks: &'a [OrcMark],
    pub strides: &'a [u64],
    pub stride_offset: &'a [u64],
    pub depth: u8,
    pub start: usize,
    pub end: usize,
}

/// How far `advance` moves a cursor at `depth` standing at `start`.
pub open spec fn step_spec(marks: Seq<OrcMark>, depth: u8, start: int) -> int {
    if depth == 0 {
        1
    } else {
        stride_spec(marks, start, depth - 1)
    }
}

/// The item range covered by the group a cursor stands on.
pub open spec fn range_spec(marks: Seq<OrcMark>, n_items: int, depth: u8, start: int) -> (int, int) {
    if depth == 0 {
        (start, start + 1)
    } else {
        (
            mark_pos_spec(marks, n_items, start),
            mark_pos_spec(marks, n_items, start + stride_spec(marks, start, depth - 1)),
        )
    }
}

/// The starts a cursor visits while it advances from `start` until `end`.
pub open spec fn visit_starts(marks: Seq<OrcMark>, depth: u8, start: int, end: int) -> Seq<int>
    decreases end - start,
{
    if start >= end {
        seq![]
    } else {
        let next = start + step_spec(marks, depth, start);
        if next <= start || next >= end {
            seq![start]
        } else {
            seq![start] + visit_starts(marks, depth, next, end)
        }
    }
}

/// Every visited start lies in `[start, end)`.
pub proof fn lemma_visit_starts(marks: Seq<OrcMark>, depth: u8, start: int, end: int)
    ensures
        forall|k: int|
            0 <= k < visit_starts(marks, depth, start, end).len() ==> start <= #[trigger] visit_starts(
                marks,
                depth,
                start,
                end,
            )[k] < end,
    decreases end - start,
{
    if start < end {
        let next = start + step_spec(marks, depth, start);
        if next > start && next < end {
            lemma_visit_starts(marks, depth, next, end);
            let rest = visit_starts(marks, depth, next, end);
            assert forall|k: int|
                0 <= k < visit_starts(marks, depth, start, end).len() implies start <= #[trigger] visit_starts(
                marks,
                depth,
                start,
                end,
            )[k] < end by {
                if k > 0 {
                    assert(visit_starts(marks, depth, start, end)[k] == rest[k - 1]);
                }
            }
        }
    }
}

/// At level 0 a cursor steps over the items one by one.
proof fn lemma_visit_items(marks: Seq<OrcMark>, a: int, b: int)
    requires
        a <= b,
    ensures
        visit_starts(marks, 0, a, b) == Seq::new((b - a) as nat, |k: int| a + k),
    decreases b - a,
{
    if a < b {
        lemma_visit_items(marks, a + 1, b);
        if a + 1 < b {
            assert(visit_starts(marks, 0, a, b) == seq![a] + visit_starts(marks, 0, a + 1, b));
        }
    }
    assert(visit_starts(marks, 0, a, b) =~= Seq::new((b - a) as nat, |k: int| a + k));
}

/// The child of a cursor stands one level lower, level 0 staying at 0; the
/// child of a level-0 cursor is the cursor itself, and the child of a
/// level-1 cursor visits the items of its group one by one, in order.
pub proof fn law_child_levels<'a>(c: ReadCursor<'a>)
    requires
        c.wf(),
    ensures
        c.child_spec().depth == (if c.depth > 0 {
            c.depth - 1
        } else {
            0
        }),
        c.depth == 0 ==> c.child_spec() == c,
        c.depth == 1 ==> {
            let r = range_spec(c.marks@, c.n_items as int, c.depth, c.start as int);
            visit_starts(c.marks@, 0, c.child_spec().start as int, c.child_spec().end as int) == Seq::new(
                (r.1 - r.0) as nat,
                |k: int| r.0 + k,
            )
        },
{
    if c.depth == 1 {
        c.lemma_range();
        let r = range_spec(c.marks@, c.n_items as int, c.depth, c.start as int);
        assert(c.child_spec().start == r.0);
        assert(c.child_spec().end == r.1);
        lemma_visit_items(c.marks@, r.0, r.1);
    }
}

/// The groups at `level` from mark `s` on, up to the mark `e` that ends a
/// group one level up (or the end of the marks), follow one another without
/// a gap: each ends where the next begins, and the last ends at `e`.
proof fn lemma_groups_chain(marks: Seq<OrcMark>, n_items: int, level: u8, s: int, e: int)
    requires
        1 <= level,
        0 <= s < e <= marks.len(),
        level == 1 || marks[s].depth >= level - 1,
        e == marks.len() || marks[e].depth >= level,
    ensures
        ({
            let vs = visit_starts(marks, level, s, e);
            &&& vs.len() > 0
            &&& vs[0] == s
            &&& forall|k: int|
                0 <= k < vs.len() - 1 ==> (#[trigger] range_spec(marks, n_items, level, vs[k])).1 == range_spec(
                    marks,
                    n_items,
                    level,
                    vs[k + 1],
                ).0
            &&& range_spec(marks, n_items, level, vs[vs.len() - 1]).1 == mark_pos_spec(marks, n_items, e)
        }),
    decreases e - s,
{
    let next = s + step_spec(marks, level, s);
    if level >= 2 {
        lemma_next_above(marks, s + 1, marks.len() as int, (level - 2) as int);
        assert(next == next_above(marks, s + 1, marks.len() as int, (level - 2) as int));
        if e < marks.len() && next > e {
            assert(marks[e].depth <= level - 2);
        }
    }
    assert(s < next <= e);
    let vs = visit_starts(marks, level, s, e);
    if next < e {
        lemma_groups_chain(marks, n_items, level, next, e);
        let ws = visit_starts(marks, level, next, e);
        assert(vs == seq![s] + ws);
        assert forall|k: int| 0 <= k < vs.len() - 1 implies (#[trigger] range_spec(marks, n_items, level, vs[k])).1
            == range_spec(marks, n_items, level, vs[k + 1]).0 by {
            if k > 0 {
                assert(vs[k] == ws[k - 1]);
                assert(vs[k + 1] == ws[k]);
            }
        }
    } else {
        assert(vs == seq![s]);
    }
}

/// Advancing from the start of a group reaches only starts of groups: when
/// the mark a cursor at `depth` stands on is at least `depth - 1` deep, so is
/// every mark it visits. A view of a deck at the deck's own depth (one more
/// than its first mark's) stands on such a mark, and so do its children.
pub proof fn law_visits_stay_on_group_starts(marks: Seq<OrcMark>, depth: u8, s: int, e: int)
    requires
        depth >= 1,
        0 <= s,
        e <= marks.len(),
        s < e ==> marks[s].depth >= depth - 1,
    ensures
        forall|k: int|
            0 <= k < visit_starts(marks, depth, s, e).len() ==> marks[#[trigger] visit_starts(marks, depth, s, e)[k]].depth
                >= depth - 1,
    decreases e - s,
{
    if s < e {
        let next = s + step_spec(marks, depth, s);
        if depth >= 2 {
            lemma_next_above(marks, s + 1, marks.len() as int, (depth - 2) as int);
        }
        if next > s && next < e {
            law_visits_stay_on_group_starts(marks, depth, next, e);
            let vs = visit_starts(marks, depth, s, e);
            let ws = visit_starts(marks, depth, next, e);
            assert forall|k: int| 0 <= k < vs.len() implies marks[#[trigger] vs[k]].depth >= depth - 1 by {
                if k > 0 {
                    assert(vs[k] == ws[k - 1]);
                }
            }
        }
    }
}

/// The child of a cursor that stands on a group at level 2 or more walks
/// its subgroups, which cover the group's items without gap or overlap:
/// the first begins where the group begins, each ends where the next
/// begins, and the last ends where the group ends. The cursor stands at
/// the start of a group: its mark is at least one level less deep than
/// the cursor, as for every cursor a view of a deck or of its children
/// stands on.
pub proof fn law_child_splits_group<'a>(c: ReadCursor<'a>)
    requires
        c.wf(),
        c.depth >= 2,
        c.start < c.marks@.len(),
        c.marks@[c.start as int].depth >= c.depth - 1,
    ensures
        ({
            let ch = c.child_spec();
            let vs = visit_starts(c.marks@, ch.depth, ch.start as int, ch.end as int);
            let r = range_spec(c.marks@, c.n_items as int, c.depth, c.start as int);
            &&& vs.len() > 0
            &&& range_spec(c.marks@, c.n_items as int, ch.depth, vs[0]).0 == r.0
            &&& forall|k: int|
                0 <= k < vs.len() - 1 ==> (#[trigger] range_spec(c.marks@, c.n_items as int, ch.depth, vs[k])).1
                    == range_spec(c.marks@, c.n_items as int, ch.depth, vs[k + 1]).0
            &&& range_spec(c.marks@, c.n_items as int, ch.depth, vs[vs.len() - 1]).1 == r.1
        }),
{
    let marks = c.marks@;
    let s = c.start as int;
    let level = (c.depth - 1) as u8;
    c.lemma_len_bound();
    lemma_next_above(marks, s + 1, marks.len() as int, (level - 1) as int);
    let e = next_above(marks, s + 1, marks.len() as int, (level - 1) as int);
    assert(s + stride_spec(marks, s, level as int) == e);
    assert(c.child_spec().end == e);
    lemma_groups_chain(marks, c.n_items as int, level, s, e);
}

impl<'a> ReadCursor<'a> {
    /// The marks of a cursor fit in a `usize` count.
    pub proof fn lemma_len_bound(&self)
        ensures
            self.marks@.len() <= usize::MAX,
    {
        assert(self.marks@.len() == self.marks.len());
    }

    /// The data the cursor walks is a well-formed deck layout, and its bounds
    /// stay inside it.
    pub open spec fn wf(&self) -> bool {
        &&& raw_deck_wf(self.marks@, self.n_items as int)
        &&& layout_correct(self.marks@, self.stride_offset@, self.strides@)
        &&& self.start <= self.end || self.start <= (if self.depth == 0 {
            self.n_items as int
        } else {
            self.marks@.len() as int
        })
        &&& self.end <= (if self.depth == 0 {
            self.n_items as int
        } else {
            self.marks@.len() as int
        })
    }

    /// The same data with other bounds.
    pub open spec fn same_data(&self, other: ReadCursor<'a>) -> bool {
        &&& self.n_items == other.n_items
        &&& self.marks == other.marks
        &&& self.strides == other.strides
        &&& self.stride_offset == other.stride_offset
    }

    /// The cursor `child` yields.
    pub open spec fn child_spec(&self) -> ReadCursor<'a> {
        if self.depth == 0 {
            *self
        } else if self.depth < 2 {
            ReadCursor {
                depth: 0,
                start: mark_pos_spec(self.marks@, self.n_items as int, self.start as int) as usize,
                end: mark_pos_spec(
                    self.marks@,
                    self.n_items as int,
                    self.start + stride_spec(self.marks@, self.start as int, (self.depth - 1) as int),
                ) as usize,
                ..*self
            }
        } else {
            ReadCursor {
                depth: (self.depth - 1) as u8,
                start: self.start,
                end: (self.start + stride_spec(self.marks@, self.start as int, (self.depth - 1) as int)) as usize,
                ..*self
            }
        }
    }

    /// Whether `advance` moves this cursor.
    pub open spec fn can_advance(&self) -> bool {
        self.start < self.end && self.start + step_spec(self.marks@, self.depth, self.start as int) < self.end
    }

    /// The cursor after `advance`.
    pub open spec fn advance_spec(&self) -> ReadCursor<'a> {
        if self.can_advance() {
            ReadCursor {
                start: (self.start + step_spec(self.marks@, self.depth, self.start as int)) as usize,
                ..*self
            }
        } else {
            *self
        }
    }

    pub open spec fn len_spec(&self) -> int {
        if self.start >= self.end {
            0
        } else if self.depth == 0 {
            1
        } else {
            range_spec(self.marks@, self.n_items as int, self.depth, self.start as int).1 - range_spec(
                self.marks@,
                self.n_items as int,
                self.depth,
                self.start as int,
            ).0
        }
    }

    /// The range of a group stays inside the items.
    pub proof fn lemma_range(&self)
        requires
            self.wf(),
            self.depth > 0,
        ensures
            0 <= range_spec(self.marks@, self.n_items as int, self.depth, self.start as int).0 <= range_spec(
                self.marks@,
                self.n_items as int,
                self.depth,
                self.start as int,
            ).1 <= self.n_items,
    {
        let ms = self.marks@;
        let s = self.start as int;
        if s < ms.len() {
            lemma_stride_bounds(ms, s, (self.depth - 1) as int);
            let e = s + stride_spec(ms, s, (self.depth - 1) as int);
            if e < ms.len() {
                assert(ms[s].pos <= ms[e].pos);
            }
            assert(ms[s].pos <= self.n_items);
        }
    }

    pub fn depth(&self) -> (r: u8)
        ensures
            r == self.depth,
    {
        self.depth
    }

    pub fn len(&self) -> (r: usize)
        requires
            self.wf(),
        ensures
            r == self.len_spec(),
    {
        if self.start >= self.end {
            0
        } else if self.depth == 0 {
            1
        } else {
            proof {
                self.lemma_range();
                self.lemma_len_bound();
                lemma_stride_bounds(self.marks@, self.start as int, (self.depth - 1) as int);
            }
            let start = mark_pos(self.marks, self.n_items, self.start);
            let end = mark_pos(
                self.marks,
                self.n_items,
                self.start + stride(self.marks, self.strides, self.stride_offset, self.start, self.depth - 1),
            );
            end - start
        }
    }

    pub fn range(&self) -> (r: std::ops::Range<usize>)
        requires
            self.wf(),
            self.depth == 0 ==> self.start < usize::MAX,
        ensures
            r.start == range_spec(self.marks@, self.n_items as int, self.depth, self.start as int).0,
            r.end == range_spec(self.marks@, self.n_items as int, self.depth, self.start as int).1,
    {
        if self.depth == 0 {
            self.start..(self.start + 1)
        } else {
            proof {
                self.lemma_range();
                self.lemma_len_bound();
                if self.start < self.marks@.len() {
                    lemma_stride_bounds(self.marks@, self.start as int, (self.depth - 1) as int);
                }
            }
            let start = mark_pos(self.marks, self.n_items, self.start);
            let end = mark_pos(
                self.marks,
                self.n_items,
                self.start + stride(self.marks, self.strides, self.stride_offset, self.start, self.depth - 1),
            );
            start..end
        }
    }

    /// A child of a well-formed cursor is well-formed.
    pub proof fn lemma_child_wf(&self)
        requires
            self.wf(),
        ensures
            self.child_spec().wf(),
            self.child_spec().same_data(*self),
    {
        self.lemma_len_bound();
        if self.depth > 0 {
            self.lemma_range();
            if self.start < self.marks@.len() {
                lemma_stride_bounds(self.marks@, self.start as int, (self.depth - 1) as int);
            }
        }
    }

    /// Advancing keeps a cursor well-formed.
    pub proof fn lemma_advance_wf(&self)
        requires
            self.wf(),
        ensures
            self.advance_spec().wf(),
            self.advance_spec().same_data(*self),
            self.advance_spec().depth == self.depth,
    {
        if self.depth > 0 && self.start < self.marks@.len() {
            lemma_stride_bounds(self.marks@, self.start as int, (self.depth - 1) as int);
        }
    }

    pub fn child(&self) -> (r: Self)
        requires
            self.wf(),
        ensures
            r == self.child_spec(),
            r.wf(),
    {
        proof {
            self.lemma_child_wf();
        }
        if self.depth == 0 {
            *self
        } else if self.depth < 2 {
            proof {
                self.lemma_range();
                self.lemma_len_bound();
                if self.start < self.marks@.len() {
                    lemma_stride_bounds(self.marks@, self.start as int, (self.depth - 1) as int);
                }
            }
            ReadCursor {
                n_items: self.n_items,
                marks: self.marks,
                strides: self.strides,
                stride_offset: self.stride_offset,
                depth: 0,
                start: mark_pos(self.marks, self.n_items, self.start),
                end: mark_pos(
                    self.marks,
                    self.n_items,
                    self.start + stride(self.marks, self.strides, self.stride_offset, self.start, self.depth - 1),
                ),
            }
        } else {
            proof {
                self.lemma_len_bound();
                if self.start < self.marks@.len() {
                    lemma_stride_bounds(self.marks@, self.start as int, (self.depth - 1) as int);
                }
            }
            ReadCursor {
                n_items: self.n_items,
                marks: self.marks,
                strides: self.strides,
                stride_offset: self.stride_offset,
                depth: self.depth - 1,
                start: self.start,
                end: self.start + stride(self.marks, self.strides, self.stride_offset, self.start, self.depth - 1),
            }
        }
    }

    pub fn advance(&mut self) -> (advanced: bool)
        requires
            old(self).wf(),
        ensures
            advanced == old(self).can_advance(),
            *final(self) == old(self).advance_spec(),
            final(self).wf(),
    {
        if self.start >= self.end {
            return false;
        }
        proof {
            self.lemma_len_bound();
            if self.depth > 0 {
                lemma_stride_bounds(self.marks@, self.start as int, (self.depth - 1) as int);
            }
        }
        let mut new_start = self.start;
        if self.depth == 0 {
            new_start = new_start + 1;
        } else {
            new_start = new_start + stride(self.marks, self.strides, self.stride_offset, self.start, self.depth - 1);
        }
        if new_start < self.end {
            self.start = new_start;
            true
        } else {
            false
        }
    }
}

/// A view into a `Deck` at one level: the deck's items and a cursor over them.
pub struct DeckView<'a, T> {
    items: &'a [T],
    cursor: ReadCursor<'a>,
}

impl<'a, T> Clone for DeckView<'a, T> {
    fn clone(&self) -> (r: Self)
        ensures
            r == *self,
    {
        DeckView { items: self.items, cursor: self.cursor }
    }
}

impl<'a, T> Copy for DeckView<'a, T> {

}

impl<'a, T> DeckView<'a, T> {
    /// The items the view reads.
    pub closed spec fn item_seq(&self) -> Seq<T> {
        self.items@
    }

    /// The view's position.
    pub closed spec fn cursor_view(&self) -> ReadCursor<'a> {
        self.cursor
    }

    /// A view on `items` at the cursor's position.
    pub fn new(items: &'a [T], cursor: ReadCursor<'a>) -> (r: Self)
        ensures
            r.item_seq() == items@,
            r.cursor_view() == cursor,
    {
        DeckView { items, cursor }
    }
}

impl<'a, T> DeckView<'a, T> where T: Default {
    /// The view is over a well-formed deck whose items it holds.
    pub open spec fn wf(&self) -> bool {
        &&& self.cursor_view().wf()
        &&& self.item_seq().len() == self.cursor_view().n_items
    }

    pub fn depth(&self) -> (r: u8)
        ensures
            r == self.cursor_view().depth,
    {
        self.cursor.depth()
    }

    /// Number of items in the group this view stands on (1 at depth 0; 0
    /// when the view is exhausted).
    pub fn len(&self) -> (r: usize)
        requires
            self.wf(),
        ensures
            r == self.cursor_view().len_spec(),
    {
        self.cursor.len()
    }

    pub fn is_empty(&self) -> (r: bool)
        requires
            self.wf(),
        ensures
            r == (self.cursor_view().len_spec() == 0),
    {
        self.len() == 0
    }

    /// The items of the group this view stands on.
    pub fn as_slice(&self) -> (r: &'a [T])
        requires
            self.wf(),
            self.cursor_view().depth == 0 ==> self.cursor_view().start < self.cursor_view().n_items,
        ensures
            r@ == self.item_seq().subrange(
                range_spec(self.cursor_view().marks@, self.cursor_view().n_items as int, self.cursor_view().depth, self.cursor_view().start as int).0,
                range_spec(self.cursor_view().marks@, self.cursor_view().n_items as int, self.cursor_view().depth, self.cursor_view().start as int).1,
            ),
    {
        proof {
            if self.cursor.depth > 0 {
                self.cursor.lemma_range();
            }
        }
        let r = self.cursor.range();
        let items: &'a [T] = self.items;
        &items[r]
    }

    /// The first item of the group this view stands on.
    pub fn as_ref(&self) -> (r: &'a T)
        requires
            self.wf(),
            self.cursor_view().depth == 0 ==> self.cursor_view().start < self.cursor_view().n_items,
            self.cursor_view().depth > 0 ==> self.cursor_view().start < self.cursor_view().marks@.len() && self.cursor_view().marks@[self.cursor_view().start as int].pos < self.cursor_view().n_items,
        ensures
            *r == (if self.cursor_view().depth == 0 {
                self.item_seq()[self.cursor_view().start as int]
            } else {
                self.item_seq()[self.cursor_view().marks@[self.cursor_view().start as int].pos as int]
            }),
    {
        let items: &'a [T] = self.items;
        if self.cursor.depth == 0 {
            &items[self.cursor.start]
        } else {
            &items[self.cursor.marks[self.cursor.start].pos as usize]
        }
    }

    /// A view one level down, on the first subgroup of this group.
    pub fn child(&self) -> (r: DeckView<'a, T>)
        requires
            self.wf(),
        ensures
            r.item_seq() == self.item_seq(),
            r.cursor_view() == self.cursor_view().child_spec(),
            r.wf(),
    {
        DeckView { items: self.items, cursor: self.cursor.child() }
    }

    /// Moves to the next group at the same level; false when there is none.
    pub fn advance(&mut self) -> (advanced: bool)
        requires
            old(self).wf(),
        ensures
            advanced == old(self).cursor_view().can_advance(),
            final(self).item_seq() == old(self).item_seq(),
            final(self).cursor_view() == old(self).cursor_view().advance_spec(),
            final(self).wf(),
    {
        self.cursor.advance()
    }

    /// Every group at this view's level, from the current one on.
    pub fn advance_iter(self) -> (r: Vec<DeckView<'a, T>>)
        requires
            self.wf(),
        ensures
            r@.len() == visit_starts(
                self.cursor_view().marks@,
                self.cursor_view().depth,
                self.cursor_view().start as int,
                self.cursor_view().end as int,
            ).len(),
            forall|k: int|
                #![trigger r@[k]]
                0 <= k < r@.len() ==> {
                    &&& r@[k].item_seq() == self.item_seq()
                    &&& r@[k].cursor_view() == ReadCursor {
                        start: visit_starts(
                            self.cursor_view().marks@,
                            self.cursor_view().depth,
                            self.cursor_view().start as int,
                            self.cursor_view().end as int,
                        )[k] as usize,
                        ..self.cursor_view()
                    }
                    &&& r@[k].wf()
                },
    {
        let mut out: Vec<DeckView<'a, T>> = Vec::new();
        let mut cur = self;
        let ghost starts = visit_starts(
            self.cursor.marks@,
            self.cursor.depth,
            self.cursor.start as int,
            self.cursor.end as int,
        );
        let mut valid = true;
        while valid && cur.cursor.start < cur.cursor.end
            invariant
                cur.wf(),
                self.wf(),
                cur.items == self.items,
                cur.cursor == (ReadCursor { start: cur.cursor.start, ..self.cursor }),
                starts == visit_starts(
                    self.cursor.marks@,
                    self.cursor.depth,
                    self.cursor.start as int,
                    self.cursor.end as int,
                ),
                valid ==> out@.len() <= starts.len(),
                valid ==> visit_starts(
                    self.cursor.marks@,
                    self.cursor.depth,
                    cur.cursor.start as int,
                    self.cursor.end as int,
                ) == starts.subrange(out@.len() as int, starts.len() as int),
                !valid ==> out@.len() == starts.len(),
                forall|k: int|
                    0 <= k < out@.len() ==> {
                        &&& #[trigger] out@[k].items == self.items
                        &&& out@[k].cursor == ReadCursor { start: starts[k] as usize, ..self.cursor }
                        &&& out@[k].wf()
                    },
            decreases (if valid {
                1int
            } else {
                0int
            }), cur.cursor.end - cur.cursor.start,
        {
            let ghost s0 = cur.cursor.start as int;
            let ghost n0 = out@.len() as int;
            proof {
                lemma_visit_starts(self.cursor.marks@, self.cursor.depth, self.cursor.start as int, self.cursor.end as int);
                if cur.cursor.depth > 0 {
                    lemma_stride_bounds(self.cursor.marks@, s0, (cur.cursor.depth - 1) as int);
                }
                let rest = visit_starts(self.cursor.marks@, self.cursor.depth, s0, self.cursor.end as int);
                assert(rest[0] == s0);
                assert(rest.len() > 0);
                assert(starts.subrange(n0, starts.len() as int)[0] == starts[n0]);
                assert(starts[n0] == s0);
            }
            let copy = cur;
            out.push(copy);
            valid = cur.advance();
            proof {
                let nx = s0 + step_spec(self.cursor.marks@, self.cursor.depth, s0);
                let rest = visit_starts(self.cursor.marks@, self.cursor.depth, s0, self.cursor.end as int);
                if valid {
                    assert(rest == seq![s0] + visit_starts(self.cursor.marks@, self.cursor.depth, nx, self.cursor.end as int));
                    assert(visit_starts(self.cursor.marks@, self.cursor.depth, nx, self.cursor.end as int)
                        == rest.subrange(1, rest.len() as int));
                    assert(visit_starts(self.cursor.marks@, self.cursor.depth, cur.cursor.start as int, self.cursor.end as int)
                        == starts.subrange(out@.len() as int, starts.len() as int));
                } else {
                    assert(rest.len() == 1);
                    assert(out@.len() == starts.len());
                }
            }
        }
        proof {
            assert forall|k: int| #![trigger out@[k]] 0 <= k < out@.len() implies {
                &&& out@[k].item_seq() == self.item_seq()
                &&& out@[k].cursor_view() == ReadCursor { start: starts[k] as usize, ..self.cursor_view() }
                &&& out@[k].wf()
            } by {
                assert(out@[k].items == self.items);
            }
            assert(self.cursor_view() == self.cursor);
            assert(starts == visit_starts(
                self.cursor_view().marks@,
                self.cursor_view().depth,
                self.cursor_view().start as int,
                self.cursor_view().end as int,
            ));
            if valid {
                assert(visit_starts(
                    self.cursor.marks@,
                    self.cursor.depth,
                    cur.cursor.start as int,
                    self.cursor.end as int,
                ).len() == 0);
            }
        }
        out
    }
}

impl<T> Deck<T> where T: Default {
    /// A view on the whole deck at `depth`.
    pub fn view(&self, depth: u8) -> (v: DeckView<'_, T>)
        requires
            self.wf(),
        ensures
            v.wf(),
            v.item_seq() == self.item_seq(),
            v.cursor_view().marks@ == self.mark_seq(),
            v.cursor_view().n_items == self.item_seq().len(),
            v.cursor_view().stride_offset@ == self.offset_seq(),
            v.cursor_view().strides@ == self.stride_seq(),
            v.cursor_view().depth == depth,
            v.cursor_view().start == 0,
            v.cursor_view().end == (if depth == 0 {
                self.item_seq().len()
            } else {
                self.mark_seq().len()
            }),
    {
        proof {
            self.lemma_wf();
        }
        let items = self.items();
        let marks = self.marks();
        let (stride_offset, strides) = self.stride_info();
        DeckView {
            items,
            cursor: ReadCursor {
                n_items: items.len(),
                marks,
                strides,
                stride_offset,
                depth,
                start: 0,
                end: if depth == 0 {
                    items.len()
                } else {
                    marks.len()
                },
            },
        }
    }
}

} // verus!
