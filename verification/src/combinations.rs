//! Iterating the combinations of several decks read at given depths, with
//! outputs written at given depths: the loop a plugin function runs.
//!
//! Each input and output keeps a stack of `stack_depth` cursors, from the
//! outermost level down to the level the function reads or writes. Inputs
//! whose structure is shallower than the others stop at their last group and
//! are reused for the remaining groups of the others ("broadcast-last").
use vstd::prelude::*;

use crate::deck::{raw_deck_wf, Deck};
use crate::error::Error;
use crate::layout::layout_correct;
use crate::mark::OrcMark;
use crate::view::{DeckView, ReadCursor};
use crate::writer::{DeckWriter, WriteCursor};

verus! {

/// What a combination reads of an input deck: the number of items, the
/// marks and the stride tables.
#[derive(Clone, Copy, Debug)]
pub struct DeckShape<'a> {
    pub n_items: usize,
    pub marks: &'a [OrcMark],
    pub stride_offset: &'a [u64],
    pub strides: &'a [u64],
}

impl<'a> DeckShape<'a> {
    /// The shape describes a well-formed deck.
    pub open spec fn wf(&self) -> bool {
        &&& raw_deck_wf(self.marks@, self.n_items as int)
        &&& layout_correct(self.marks@, self.stride_offset@, self.strides@)
    }

    /// The depth of the deck: one more than the depth of its first mark.
    pub open spec fn depth_spec(&self) -> int {
        if self.marks@.len() > 0 {
            self.marks@[0].depth + 1
        } else {
            0
        }
    }

    /// A cursor over the whole deck at `depth`.
    pub open spec fn top_cursor(&self, depth: u8) -> ReadCursor<'a> {
        ReadCursor {
            n_items: self.n_items,
            marks: self.marks,
            strides: self.strides,
            stride_offset: self.stride_offset,
            depth,
            start: 0,
            end: if self.marks@.len() == 0 {
                self.n_items
            } else {
                self.marks@.len() as usize
            },
        }
    }
}

impl<T> Deck<T> where T: Default {
    /// The shape of this deck.
    pub fn shape(&self) -> (r: DeckShape<'_>)
        requires
            self.wf(),
        ensures
            r.wf(),
            r.n_items == self.item_seq().len(),
            r.marks@ == self.mark_seq(),
    {
        proof {
            self.lemma_wf();
        }
        let (stride_offset, strides) = self.stride_info();
        DeckShape { n_items: self.len(), marks: self.marks(), stride_offset, strides }
    }
}

/// `a - b`, or 0 where that is negative.
pub open spec fn sat_sub(a: int, b: int) -> int {
    if a >= b {
        a - b
    } else {
        0
    }
}

/// The largest amount by which one of the first `k` inputs is deeper than the
/// depth it is read at.
pub open spec fn max_delta_upto(inputs: Seq<DeckShape>, depths: Seq<u8>, k: int) -> int
    decreases k,
{
    if k <= 0 {
        0
    } else {
        let d = sat_sub(inputs[k - 1].depth_spec(), depths[k - 1] as int);
        let m = max_delta_upto(inputs, depths, k - 1);
        if d > m {
            d
        } else {
            m
        }
    }
}

/// `c` followed `k` times to its first child.
pub open spec fn telescope<'a>(c: ReadCursor<'a>, k: int) -> ReadCursor<'a>
    decreases k,
{
    if k <= 0 {
        c
    } else {
        telescope(c, k - 1).child_spec()
    }
}

/// Following children keeps a cursor well-formed and on the same data.
pub proof fn lemma_telescope_wf<'a>(c: ReadCursor<'a>, k: int)
    requires
        c.wf(),
    ensures
        telescope(c, k).wf(),
        telescope(c, k).same_data(c),
    decreases k,
{
    if k > 0 {
        lemma_telescope_wf(c, k - 1);
        telescope(c, k - 1).lemma_child_wf();
    }
}

/// The write cursor at level `l` of a stack whose top writes at `d`: only the
/// bottom one holds the pending groups.
pub open spec fn write_stack_at(d: int, l: int, stack_depth: int) -> WriteCursor {
    WriteCursor {
        depth: sat_sub(d, l) as u8,
        next_depth: if l == stack_depth - 1 {
            Some(d as u8)
        } else {
            None
        },
    }
}

/// How many levels the deepest input lies below the depth it is read at:
/// the number of extra levels every stack carries.
pub open spec fn combination_delta(inputs: Seq<DeckShape>, depths: Seq<u8>) -> int {
    max_delta_upto(inputs, depths, inputs.len() as int)
}

/// The depths fit in a `u8` once the extra levels are added, and an input
/// without marks holds no item unless it is read at depth 0. Past these the
/// stacks cannot be built: a depth and its extra levels are added as `u8`,
/// which overflows above 255, and a cursor above depth 0 over an input with
/// items but no marks would read marks that input does not have.
pub open spec fn shapes_fit(inputs: Seq<DeckShape>, depths: Seq<u8>, out_depths: Seq<u8>) -> bool {
    let md = combination_delta(inputs, depths);
    &&& forall|i: int| 0 <= i < inputs.len() ==> #[trigger] depths[i] + md <= 255
    &&& forall|i: int|
        0 <= i < inputs.len() ==> ((#[trigger] inputs[i]).marks@.len() == 0 && inputs[i].n_items > 0
            ==> depths[i] + md == 0)
    &&& forall|o: int| 0 <= o < out_depths.len() ==> #[trigger] out_depths[o] + md <= 255
}

proof fn lemma_max_delta(inputs: Seq<DeckShape>, depths: Seq<u8>, k: int)
    requires
        0 <= k <= inputs.len(),
        forall|i: int| 0 <= i < inputs.len() ==> (#[trigger] inputs[i]).depth_spec() <= 255,
    ensures
        0 <= max_delta_upto(inputs, depths, k) <= 255,
        forall|j: int|
            0 <= j < k ==> sat_sub((#[trigger] inputs[j]).depth_spec(), depths[j] as int) <= max_delta_upto(
                inputs,
                depths,
                k,
            ),
    decreases k,
{
    if k > 0 {
        lemma_max_delta(inputs, depths, k - 1);
        assert(inputs[k - 1].depth_spec() <= 255);
    }
}

fn copy_depths(depths: &[u8]) -> (v: Vec<u8>)
    ensures
        v@ == depths@,
{
    let mut v: Vec<u8> = Vec::new();
    let mut k: usize = 0;
    while k < depths.len()
        invariant
            0 <= k <= depths@.len(),
            v@ == depths@.subrange(0, k as int),
        decreases depths@.len() - k,
    {
        v.push(depths[k]);
        k = k + 1;
    }
    v
}

/// A combination iterator: for every input and output a stack of cursors,
/// one per level from the outermost down to the level the function works at.
pub struct Combinations<'a> {
    input_cursors: Vec<Vec<ReadCursor<'a>>>,
    input_depths: Vec<u8>,
    output_cursors: Vec<Vec<WriteCursor>>,
    output_depths: Vec<u8>,
    stack_depth: usize,
}

impl<'a> Combinations<'a> {
    /// Number of cursors in each stack.
    pub closed spec fn stack_depth_view(&self) -> int {
        self.stack_depth as int
    }

    /// The depths the inputs are read at.
    pub closed spec fn input_depth_seq(&self) -> Seq<u8> {
        self.input_depths@
    }

    /// The depths the outputs are written at.
    pub closed spec fn output_depth_seq(&self) -> Seq<u8> {
        self.output_depths@
    }

    /// The cursor of input `i` at stack level `l`.
    pub closed spec fn input_at(&self, i: int, l: int) -> ReadCursor<'a> {
        self.input_cursors@[i]@[l]
    }

    /// The cursor of output `o` at stack level `l`.
    pub closed spec fn output_at(&self, o: int, l: int) -> WriteCursor {
        self.output_cursors@[o]@[l]
    }

    pub closed spec fn wf(&self) -> bool {
        &&& self.stack_depth >= 1
        &&& self.input_cursors@.len() == self.input_depths@.len()
        &&& self.output_cursors@.len() == self.output_depths@.len()
        &&& forall|i: int|
            0 <= i < self.input_cursors@.len() ==> (#[trigger] self.input_cursors@[i])@.len()
                == self.stack_depth
        &&& forall|o: int|
            0 <= o < self.output_cursors@.len() ==> (#[trigger] self.output_cursors@[o])@.len()
                == self.stack_depth
        &&& forall|i: int, l: int|
            0 <= i < self.input_depths@.len() && 0 <= l < self.stack_depth ==> (#[trigger] self.input_at(
                i,
                l,
            )).wf()
    }

    /// Same number of levels, inputs and outputs, read and written at the
    /// same depths.
    pub open spec fn same_shape(&self, other: Combinations<'a>) -> bool {
        &&& self.stack_depth_view() == other.stack_depth_view()
        &&& self.input_depth_seq() == other.input_depth_seq()
        &&& self.output_depth_seq() == other.output_depth_seq()
    }

    /// The state `from_shapes` builds: every input stack telescoped down from
    /// the whole deck, every output stack holding the groups to open in its
    /// bottom cursor.
    pub open spec fn starts_at(&self, inputs: Seq<DeckShape<'a>>, in_depths: Seq<u8>, out_depths: Seq<u8>) -> bool {
        let md = combination_delta(inputs, in_depths);
        &&& self.wf()
        &&& self.stack_depth_view() == md + 1
        &&& self.input_depth_seq() == in_depths
        &&& self.output_depth_seq() == out_depths
        &&& forall|i: int, l: int|
            0 <= i < inputs.len() && 0 <= l <= md ==> #[trigger] self.input_at(i, l) == telescope(
                inputs[i].top_cursor((in_depths[i] + md) as u8),
                l,
            )
        &&& forall|o: int, l: int|
            0 <= o < out_depths.len() && 0 <= l <= md ==> #[trigger] self.output_at(o, l)
                == write_stack_at(out_depths[o] + md, l, md + 1)
    }

    /// Some input cursor at level `l` can move to its next group.
    pub open spec fn level_can_advance(&self, l: int) -> bool {
        exists|i: int| 0 <= i < self.input_depth_seq().len() && (#[trigger] self.input_at(i, l)).can_advance()
    }

    /// The deepest level at or above `l` where some input can advance; -1 if
    /// there is none.
    pub open spec fn top_from(&self, l: int) -> int
        decreases l + 1,
    {
        if l < 0 {
            -1
        } else if self.level_can_advance(l) {
            l
        } else {
            self.top_from(l - 1)
        }
    }

    /// The level `advance` moves at; -1 when every level is exhausted.
    pub open spec fn advance_level(&self) -> int {
        self.top_from(self.stack_depth_view() - 1)
    }

    /// Input cursor `i` at level `l` after `advance`: the levels above the
    /// one that moves stay, that level moves to its next group, the levels
    /// below start over inside it.
    pub open spec fn input_after_advance(&self, i: int, l: int) -> ReadCursor<'a> {
        let t = self.advance_level();
        if t < 0 || l < t {
            self.input_at(i, l)
        } else {
            telescope(self.input_at(i, t).advance_spec(), l - t)
        }
    }

    /// Output cursor `o` at level `l` after `advance`: from the level that
    /// moves down, a fresh stack whose bottom opens a group at that level.
    pub open spec fn output_after_advance(&self, o: int, l: int) -> WriteCursor {
        let t = self.advance_level();
        if t < 0 || l < t {
            self.output_at(o, l)
        } else {
            write_stack_at(self.output_at(o, t).depth as int, l - t, self.stack_depth_view() - t)
        }
    }

    proof fn lemma_top_from(&self, l: int, t: int)
        requires
            -1 <= t <= l,
            forall|k: int| t < k <= l ==> !self.level_can_advance(k),
            t >= 0 ==> self.level_can_advance(t),
        ensures
            self.top_from(l) == t,
        decreases l - t,
    {
        if l > t {
            self.lemma_top_from(l - 1, t);
        }
    }

    /// Builds the stacks for inputs read at `input_depths` and outputs
    /// written at `output_depths`. Fails when the number of depths does not
    /// match the number of inputs.
    pub fn from_shapes(inputs: &[DeckShape<'a>], input_depths: &[u8], output_depths: &[u8]) -> (r: Result<
        Self,
        Error,
    >)
        requires
            forall|i: int| 0 <= i < inputs@.len() ==> (#[trigger] inputs@[i]).wf(),
            forall|i: int| 0 <= i < inputs@.len() ==> (#[trigger] inputs@[i]).depth_spec() <= 255,
            input_depths@.len() == inputs@.len() ==> shapes_fit(inputs@, input_depths@, output_depths@),
        ensures
            match r {
                Ok(c) => input_depths@.len() == inputs@.len() && c.starts_at(
                    inputs@,
                    input_depths@,
                    output_depths@,
                ),
                Err(e) => e == Error::InvalidCombinations && input_depths@.len() != inputs@.len(),
            },
    {
        if input_depths.len() != inputs.len() {
            return Err(Error::InvalidCombinations);
        }
        let n_inputs = inputs.len();
        let n_outputs = output_depths.len();
        let mut max_delta: u8 = 0;
        let mut k: usize = 0;
        proof {
            lemma_max_delta(inputs@, input_depths@, 0);
        }
        while k < n_inputs
            invariant
                n_inputs == inputs@.len(),
                input_depths@.len() == n_inputs,
                0 <= k <= n_inputs,
                forall|i: int| 0 <= i < inputs@.len() ==> (#[trigger] inputs@[i]).depth_spec() <= 255,
                max_delta == max_delta_upto(inputs@, input_depths@, k as int),
            decreases n_inputs - k,
        {
            let marks = inputs[k].marks;
            assert(inputs@[k as int].depth_spec() <= 255);
            let depth: u8 = if marks.len() > 0 {
                marks[0].depth + 1
            } else {
                0
            };
            let arg = input_depths[k];
            let d: u8 = if depth >= arg {
                depth - arg
            } else {
                0
            };
            if d > max_delta {
                max_delta = d;
            }
            k = k + 1;
        }
        let ghost md: int = max_delta as int;
        proof {
            lemma_max_delta(inputs@, input_depths@, n_inputs as int);
        }
        let stack_depth: usize = max_delta as usize + 1;
        let mut input_cursors: Vec<Vec<ReadCursor<'a>>> = Vec::new();
        let mut i: usize = 0;
        while i < n_inputs
            invariant
                n_inputs == inputs@.len(),
                input_depths@.len() == n_inputs,
                0 <= i <= n_inputs,
                md == combination_delta(inputs@, input_depths@),
                max_delta == md,
                stack_depth == md + 1,
                shapes_fit(inputs@, input_depths@, output_depths@),
                forall|j: int| 0 <= j < inputs@.len() ==> (#[trigger] inputs@[j]).wf(),
                forall|j: int|
                    0 <= j < inputs@.len() ==> sat_sub(
                        (#[trigger] inputs@[j]).depth_spec(),
                        input_depths@[j] as int,
                    ) <= md,
                input_cursors@.len() == i,
                forall|j: int| 0 <= j < i ==> (#[trigger] input_cursors@[j])@.len() == stack_depth,
                forall|j: int, l: int|
                    0 <= j < i && 0 <= l < stack_depth ==> #[trigger] input_cursors@[j]@[l] == telescope(
                        inputs@[j].top_cursor((input_depths@[j] + md) as u8),
                        l,
                    ),
            decreases n_inputs - i,
        {
            let shape = inputs[i];
            assert(input_depths@[i as int] + md <= 255);
            let end: usize = if shape.marks.len() == 0 {
                shape.n_items
            } else {
                shape.marks.len()
            };
            let top = ReadCursor {
                n_items: shape.n_items,
                marks: shape.marks,
                strides: shape.strides,
                stride_offset: shape.stride_offset,
                depth: input_depths[i] + max_delta,
                start: 0,
                end,
            };
            proof {
                assert(top == shape.top_cursor((input_depths@[i as int] + md) as u8));
                assert(sat_sub(inputs@[i as int].depth_spec(), input_depths@[i as int] as int) <= md);
                assert(shape.marks@.len() == 0 && shape.n_items > 0 ==> input_depths@[i as int] + md == 0);
                assert(top.wf());
            }
            let mut c = top;
            let mut stack: Vec<ReadCursor<'a>> = Vec::new();
            let mut l: usize = 0;
            while l < stack_depth
                invariant
                    l <= stack_depth,
                    stack@.len() == l,
                    c.wf(),
                    c == telescope(top, l as int),
                    forall|m: int| 0 <= m < l ==> #[trigger] stack@[m] == telescope(top, m),
                decreases stack_depth - l,
            {
                stack.push(c);
                c = c.child();
                l = l + 1;
            }
            input_cursors.push(stack);
            i = i + 1;
        }
        let mut output_cursors: Vec<Vec<WriteCursor>> = Vec::new();
        let mut o: usize = 0;
        while o < n_outputs
            invariant
                n_outputs == output_depths@.len(),
                0 <= o <= n_outputs,
                md == combination_delta(inputs@, input_depths@),
                max_delta == md,
                stack_depth == md + 1,
                shapes_fit(inputs@, input_depths@, output_depths@),
                output_cursors@.len() == o,
                forall|j: int| 0 <= j < o ==> (#[trigger] output_cursors@[j])@.len() == stack_depth,
                forall|j: int, l: int|
                    0 <= j < o && 0 <= l < stack_depth ==> #[trigger] output_cursors@[j]@[l] == write_stack_at(
                        output_depths@[j] + md,
                        l,
                        md + 1,
                    ),
            decreases n_outputs - o,
        {
            assert(output_depths@[o as int] + md <= 255);
            let depth: u8 = output_depths[o] + max_delta;
            let mut stack: Vec<WriteCursor> = Vec::new();
            stack.push(WriteCursor { depth, next_depth: Some(depth) });
            let mut l: usize = 1;
            while l < stack_depth
                invariant
                    1 <= l <= stack_depth,
                    stack@.len() == l,
                    forall|m: int| 0 <= m < l ==> #[trigger] stack@[m] == write_stack_at(depth as int, m, l as int),
                decreases stack_depth - l,
            {
                let last = l - 1;
                let mut w = stack[last];
                let child = w.child();
                stack.set(last, w);
                stack.push(child);
                l = l + 1;
            }
            output_cursors.push(stack);
            o = o + 1;
        }
        let r = Combinations {
            input_cursors,
            input_depths: copy_depths(input_depths),
            output_cursors,
            output_depths: copy_depths(output_depths),
            stack_depth,
        };
        proof {
            assert forall|j: int, l: int|
                0 <= j < r.input_depths@.len() && 0 <= l < r.stack_depth implies (#[trigger] r.input_at(
                j,
                l,
            )).wf() by {
                lemma_telescope_wf(inputs@[j].top_cursor((input_depths@[j] + md) as u8), l);
            }
        }
        Ok(r)
    }

    /// Moves the input cursors at `level` that can move.
    fn advance_inputs_at(&mut self, level: usize) -> (any: bool)
        requires
            old(self).wf(),
            level < old(self).stack_depth_view(),
        ensures
            final(self).wf(),
            final(self).same_shape(*old(self)),
            any == old(self).level_can_advance(level as int),
            forall|o: int, l: int| #[trigger] final(self).output_at(o, l) == old(self).output_at(o, l),
            forall|i: int, l: int|
                0 <= i < old(self).input_depth_seq().len() && 0 <= l < old(self).stack_depth_view()
                    ==> #[trigger] final(self).input_at(i, l) == if l == level {
                    old(self).input_at(i, l).advance_spec()
                } else {
                    old(self).input_at(i, l)
                },
    {
        let mut any = false;
        let n = self.input_cursors.len();
        let mut i: usize = 0;
        while i < n
            invariant
                old(self).wf(),
                level < old(self).stack_depth_view(),
                n == old(self).input_cursors@.len(),
                0 <= i <= n,
                self.stack_depth == old(self).stack_depth,
                self.input_depths == old(self).input_depths,
                self.output_depths == old(self).output_depths,
                self.output_cursors == old(self).output_cursors,
                self.input_cursors@.len() == n,
                forall|j: int| 0 <= j < n ==> (#[trigger] self.input_cursors@[j])@.len() == self.stack_depth,
                forall|j: int, l: int|
                    0 <= j < n && 0 <= l < self.stack_depth ==> #[trigger] self.input_cursors@[j]@[l] == if j
                        < i && l == level {
                        old(self).input_at(j, l).advance_spec()
                    } else {
                        old(self).input_at(j, l)
                    },
                any == exists|j: int| 0 <= j < i && (#[trigger] old(self).input_at(j, level as int)).can_advance(),
            decreases n - i,
        {
            let mut stack: Vec<ReadCursor<'a>> = Vec::new();
            self.input_cursors.set_and_swap(i, &mut stack);
            assert(stack@ == old(self).input_cursors@[i as int]@);
            let mut c = stack[level];
            let advanced = c.advance();
            stack.set(level, c);
            self.input_cursors.set_and_swap(i, &mut stack);
            if advanced {
                assert(old(self).input_at(i as int, level as int).can_advance());
                any = true;
            }
            i = i + 1;
        }
        proof {
            assert forall|j: int, l: int|
                0 <= j < self.input_depths@.len() && 0 <= l < self.stack_depth implies (#[trigger] self.input_at(
                j,
                l,
            )).wf() by {
                old(self).input_at(j, l).lemma_advance_wf();
            }
        }
        any
    }

    /// Rebuilds every input stack below `top` from the cursor at `top`.
    fn telescope_inputs_from(&mut self, top: usize)
        requires
            old(self).wf(),
            top < old(self).stack_depth_view(),
        ensures
            final(self).wf(),
            final(self).same_shape(*old(self)),
            forall|o: int, l: int| #[trigger] final(self).output_at(o, l) == old(self).output_at(o, l),
            forall|i: int, l: int|
                0 <= i < old(self).input_depth_seq().len() && 0 <= l < old(self).stack_depth_view()
                    ==> #[trigger] final(self).input_at(i, l) == if l < top {
                    old(self).input_at(i, l)
                } else {
                    telescope(old(self).input_at(i, top as int), l - top)
                },
    {
        let n = self.input_cursors.len();
        let s = self.stack_depth;
        let mut i: usize = 0;
        while i < n
            invariant
                old(self).wf(),
                top < s,
                s == old(self).stack_depth,
                n == old(self).input_cursors@.len(),
                0 <= i <= n,
                self.stack_depth == old(self).stack_depth,
                self.input_depths == old(self).input_depths,
                self.output_depths == old(self).output_depths,
                self.output_cursors == old(self).output_cursors,
                self.input_cursors@.len() == n,
                forall|j: int| 0 <= j < n ==> (#[trigger] self.input_cursors@[j])@.len() == s,
                forall|j: int, l: int|
                    0 <= j < n && 0 <= l < s ==> #[trigger] self.input_cursors@[j]@[l] == if j < i && l
                        >= top {
                        telescope(old(self).input_at(j, top as int), l - top)
                    } else {
                        old(self).input_at(j, l)
                    },
            decreases n - i,
        {
            let mut stack: Vec<ReadCursor<'a>> = Vec::new();
            self.input_cursors.set_and_swap(i, &mut stack);
            let ghost base = old(self).input_at(i as int, top as int);
            assert(stack@ == old(self).input_cursors@[i as int]@);
            let mut d: usize = top + 1;
            while d < s
                invariant
                    old(self).wf(),
                    top < d <= s,
                    s == old(self).stack_depth,
                    i < n,
                    n == old(self).input_cursors@.len(),
                    base == old(self).input_at(i as int, top as int),
                    base.wf(),
                    stack@.len() == s,
                    forall|l: int|
                        0 <= l < s ==> #[trigger] stack@[l] == if top <= l < d {
                            telescope(base, l - top)
                        } else {
                            old(self).input_at(i as int, l)
                        },
                decreases s - d,
            {
                let prev = stack[d - 1];
                proof {
                    lemma_telescope_wf(base, d - 1 - top);
                }
                let next = prev.child();
                stack.set(d, next);
                d = d + 1;
            }
            self.input_cursors.set_and_swap(i, &mut stack);
            i = i + 1;
        }
        proof {
            assert forall|j: int, l: int|
                0 <= j < self.input_depths@.len() && 0 <= l < self.stack_depth implies (#[trigger] self.input_at(
                j,
                l,
            )).wf() by {
                if l >= top {
                    lemma_telescope_wf(old(self).input_at(j, top as int), l - top);
                }
            }
        }
    }

    /// Opens a group at `top` in every output and rebuilds the stack below it.
    fn reset_outputs_from(&mut self, top: usize)
        requires
            old(self).wf(),
            top < old(self).stack_depth_view(),
        ensures
            final(self).wf(),
            final(self).same_shape(*old(self)),
            forall|i: int, l: int| #[trigger] final(self).input_at(i, l) == old(self).input_at(i, l),
            forall|o: int, l: int|
                0 <= o < old(self).output_depth_seq().len() && 0 <= l < old(self).stack_depth_view()
                    ==> #[trigger] final(self).output_at(o, l) == if l < top {
                    old(self).output_at(o, l)
                } else {
                    write_stack_at(old(self).output_at(o, top as int).depth as int, l - top, old(self).stack_depth_view() - top)
                },
    {
        let n = self.output_cursors.len();
        let s = self.stack_depth;
        let mut o: usize = 0;
        while o < n
            invariant
                old(self).wf(),
                top < s,
                s == old(self).stack_depth,
                n == old(self).output_cursors@.len(),
                0 <= o <= n,
                self.stack_depth == old(self).stack_depth,
                self.input_depths == old(self).input_depths,
                self.output_depths == old(self).output_depths,
                self.input_cursors == old(self).input_cursors,
                self.output_cursors@.len() == n,
                forall|j: int| 0 <= j < n ==> (#[trigger] self.output_cursors@[j])@.len() == s,
                forall|j: int, l: int|
                    0 <= j < n && 0 <= l < s ==> #[trigger] self.output_cursors@[j]@[l] == if j < o && l
                        >= top {
                        write_stack_at(old(self).output_at(j, top as int).depth as int, l - top, s - top)
                    } else {
                        old(self).output_at(j, l)
                    },
            decreases n - o,
        {
            let mut stack: Vec<WriteCursor> = Vec::new();
            self.output_cursors.set_and_swap(o, &mut stack);
            assert(stack@ == old(self).output_cursors@[o as int]@);
            let ghost dt = old(self).output_at(o as int, top as int).depth as int;
            let mut w = stack[top];
            w.advance();
            stack.set(top, w);
            let mut d: usize = top + 1;
            while d < s
                invariant
                    top < d <= s,
                    s == old(self).stack_depth,
                    o < n,
                    n == old(self).output_cursors@.len(),
                    dt == old(self).output_at(o as int, top as int).depth,
                    stack@.len() == s,
                    forall|l: int|
                        0 <= l < s ==> #[trigger] stack@[l] == if top <= l < d {
                            write_stack_at(dt, l - top, d - top)
                        } else {
                            old(self).output_at(o as int, l)
                        },
                decreases s - d,
            {
                let mut prev = stack[d - 1];
                let next = prev.child();
                stack.set(d - 1, prev);
                stack.set(d, next);
                d = d + 1;
            }
            self.output_cursors.set_and_swap(o, &mut stack);
            o = o + 1;
        }
        proof {
            assert forall|j: int, l: int|
                0 <= j < self.input_depths@.len() && 0 <= l < self.stack_depth implies (#[trigger] self.input_at(
                j,
                l,
            )).wf() by {
                assert(self.input_at(j, l) == old(self).input_at(j, l));
            }
        }
    }

    /// Moves to the next combination: the deepest level where some input
    /// has a next group moves there, and the levels below start over inside
    /// it. Returns false when every level is exhausted.
    pub fn advance(&mut self) -> (r: bool)
        requires
            old(self).wf(),
        ensures
            final(self).wf(),
            final(self).same_shape(*old(self)),
            r == (old(self).advance_level() >= 0),
            forall|i: int, l: int|
                0 <= i < old(self).input_depth_seq().len() && 0 <= l < old(self).stack_depth_view()
                    ==> #[trigger] final(self).input_at(i, l) == old(self).input_after_advance(i, l),
            forall|o: int, l: int|
                0 <= o < old(self).output_depth_seq().len() && 0 <= l < old(self).stack_depth_view()
                    ==> #[trigger] final(self).output_at(o, l) == old(self).output_after_advance(o, l),
    {
        let s = self.stack_depth;
        let mut level: usize = s;
        while level > 0
            invariant
                old(self).wf(),
                self.wf(),
                s == old(self).stack_depth_view(),
                0 <= level <= s,
                self.same_shape(*old(self)),
                forall|i: int, l: int|
                    0 <= i < old(self).input_depth_seq().len() && 0 <= l < s ==> #[trigger] self.input_at(i, l)
                        == old(self).input_at(i, l),
                forall|o: int, l: int| #[trigger] self.output_at(o, l) == old(self).output_at(o, l),
                forall|k: int| level <= k < s ==> !old(self).level_can_advance(k),
            decreases level,
        {
            level = level - 1;
            proof {
                assert(self.level_can_advance(level as int) == old(self).level_can_advance(level as int)) by {
                    if self.level_can_advance(level as int) {
                        let w = choose|j: int|
                            0 <= j < self.input_depth_seq().len() && (#[trigger] self.input_at(
                                j,
                                level as int,
                            )).can_advance();
                        assert(old(self).input_at(w, level as int).can_advance());
                    }
                    if old(self).level_can_advance(level as int) {
                        let w = choose|j: int|
                            0 <= j < old(self).input_depth_seq().len() && (#[trigger] old(self).input_at(
                                j,
                                level as int,
                            )).can_advance();
                        assert(self.input_at(w, level as int) == old(self).input_at(w, level as int));
                    }
                }
            }
            let any = self.advance_inputs_at(level);
            if any {
                self.reset_outputs_from(level);
                self.telescope_inputs_from(level);
                proof {
                    old(self).lemma_top_from(s - 1, level as int);
                }
                return true;
            }
            proof {
                assert forall|i: int, l: int|
                    0 <= i < old(self).input_depth_seq().len() && 0 <= l < s implies #[trigger] self.input_at(i, l)
                        == old(self).input_at(i, l) by {
                    if l == level {
                        assert(!old(self).input_at(i, l).can_advance());
                    }
                }
            }
        }
        proof {
            old(self).lemma_top_from(s - 1, -1);
        }
        false
    }

    /// A view on input `index` at the depth it is read at.
    pub fn get_input<T: Default>(&self, items: &'a [T], index: usize) -> (r: DeckView<'a, T>)
        requires
            self.wf(),
            index < self.input_depth_seq().len(),
        ensures
            r.item_seq() == items@,
            r.cursor_view() == self.input_at(index as int, self.stack_depth_view() - 1),
    {
        let cursor = self.input_cursors[index][self.stack_depth - 1];
        DeckView::new(items, cursor)
    }

    /// A writer into `deck` for output `index`, which takes over the groups
    /// its bottom cursor has yet to open.
    pub fn get_output<'o, T: Default>(&mut self, deck: &'o mut Deck<T>, index: usize) -> (w: DeckWriter<'o, T>)
        requires
            old(self).wf(),
            index < old(self).output_depth_seq().len(),
        ensures
            w.deck_view() == *old(deck),
            w.cursor_view() == old(self).output_at(index as int, old(self).stack_depth_view() - 1).take_spec(),
            w.start_view() == old(deck).item_seq().len(),
            *final(deck) == *final(w.deck),
            final(self).wf(),
            final(self).same_shape(*old(self)),
            forall|i: int, l: int| #[trigger] final(self).input_at(i, l) == old(self).input_at(i, l),
            forall|o: int, l: int|
                0 <= o < old(self).output_depth_seq().len() && 0 <= l < old(self).stack_depth_view()
                    ==> #[trigger] final(self).output_at(o, l) == if o == index && l == old(self).stack_depth_view() - 1 {
                    WriteCursor { depth: old(self).output_at(o, l).depth, next_depth: None }
                } else {
                    old(self).output_at(o, l)
                },
    {
        let s = self.stack_depth;
        let mut stack: Vec<WriteCursor> = Vec::new();
        self.output_cursors.set_and_swap(index, &mut stack);
        let mut c = stack[s - 1];
        let w = c.writer(deck);
        stack.set(s - 1, c);
        self.output_cursors.set_and_swap(index, &mut stack);
        proof {
            assert forall|j: int, l: int|
                0 <= j < self.input_depths@.len() && 0 <= l < self.stack_depth implies (#[trigger] self.input_at(
                j,
                l,
            )).wf() by {
                assert(self.input_at(j, l) == old(self).input_at(j, l));
            }
            assert forall|o: int| 0 <= o < self.output_cursors@.len() implies (#[trigger] self.output_cursors@[o])@.len()
                == self.stack_depth by {
                if o != index {
                    assert(self.output_cursors@[o] == old(self).output_cursors@[o]);
                }
            }
        }
        w
    }
}

} // verus!
