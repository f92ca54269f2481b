//! The stride tables that let a cursor jump from one group of a deck to the
//! next group at the same level without scanning the marks in between.
//!
//! For every mark `i` and every level `j < marks[i].depth`, the table holds the
//! distance from `i` to the next mark whose depth exceeds `j` (or `u64::MAX`
//! when there is none). The entries of mark `i` start at `stride_offset[i]`,
//! which is the sum of the depths of the marks before `i`.
use vstd::prelude::*;

use crate::mark::OrcMark;

verus! {

/// Sum of the depths of `marks[0..i)`.
pub open spec fn depth_sum(marks: Seq<OrcMark>, i: int) -> int
    decreases i,
{
    if i <= 0 {
        0
    } else {
        depth_sum(marks, i - 1) + marks[i - 1].depth as int
    }
}

/// Index of the first mark in `[from, upto)` whose depth is greater than
/// `level`; `upto` when there is none.
pub open spec fn next_above(marks: Seq<OrcMark>, from: int, upto: int, level: int) -> int
    decreases upto - from,
{
    if from >= upto {
        upto
    } else if marks[from].depth > level {
        from
    } else {
        next_above(marks, from + 1, upto, level)
    }
}

/// Index of the last mark in `[0, upto)` whose depth is greater than `level`;
/// `-1` when there is none.
pub open spec fn last_above(marks: Seq<OrcMark>, upto: int, level: int) -> int
    decreases upto,
{
    if upto <= 0 {
        -1
    } else if marks[upto - 1].depth > level {
        upto - 1
    } else {
        last_above(marks, upto - 1, level)
    }
}

/// The table entry of mark `i` at level `j` when only `marks[0..upto)` exist.
pub open spec fn stride_entry(marks: Seq<OrcMark>, i: int, j: int, upto: int) -> u64 {
    let k = next_above(marks, i + 1, upto, j);
    if k < upto {
        (k - i) as u64
    } else {
        u64::MAX
    }
}

/// The entry stored for mark `i` at level `j`.
pub open spec fn stored_stride(stride_offset: Seq<u64>, strides: Seq<u64>, i: int, j: int) -> u64 {
    strides[stride_offset[i] + j]
}

/// Every mark's depth is at most the depth of the first mark.
pub open spec fn first_is_max(marks: Seq<OrcMark>) -> bool {
    forall|k: int| 0 <= k < marks.len() ==> #[trigger] marks[k].depth <= marks[0].depth
}

/// Mark positions never decrease and never pass the number of items.
pub open spec fn marks_sorted(marks: Seq<OrcMark>, n_items: int) -> bool {
    &&& forall|a: int, b: int| 0 <= a <= b < marks.len() ==> #[trigger] marks[a].pos <= #[trigger] marks[b].pos
    &&& forall|k: int| 0 <= k < marks.len() ==> #[trigger] marks[k].pos <= n_items
}

/// `stride_offset` is the exclusive prefix sum of the mark depths.
pub open spec fn offsets_correct(marks: Seq<OrcMark>, stride_offset: Seq<u64>) -> bool {
    &&& stride_offset.len() == marks.len()
    &&& forall|i: int| 0 <= i < marks.len() ==> #[trigger] stride_offset[i] == depth_sum(marks, i)
}

/// The entries of the marks before `upto` are those of `marks[0..upto)`; the
/// entries of the later marks are still `u64::MAX`.
pub open spec fn strides_upto(
    marks: Seq<OrcMark>,
    stride_offset: Seq<u64>,
    strides: Seq<u64>,
    upto: int,
) -> bool {
    forall|i: int, j: int|
        0 <= i < marks.len() && 0 <= j < marks[i].depth ==> #[trigger] stored_stride(
            stride_offset,
            strides,
            i,
            j,
        ) == (if i < upto {
            stride_entry(marks, i, j, upto)
        } else {
            u64::MAX
        })
}

/// The offsets and the stride table both describe `marks` exactly.
pub open spec fn layout_correct(marks: Seq<OrcMark>, stride_offset: Seq<u64>, strides: Seq<u64>) -> bool {
    &&& offsets_correct(marks, stride_offset)
    &&& strides.len() == depth_sum(marks, marks.len() as int)
    &&& strides_upto(marks, stride_offset, strides, marks.len() as int)
}

/// `pegs[j]` is the last mark before `upto` whose depth exceeds `j`.
pub open spec fn pegs_correct(marks: Seq<OrcMark>, pegs: Seq<usize>, upto: int) -> bool {
    &&& pegs.len() == (if upto > 0 {
        marks[0].depth as int
    } else {
        0
    })
    &&& forall|j: int| 0 <= j < pegs.len() ==> #[trigger] pegs[j] == last_above(marks, upto, j)
}

/// How many marks a cursor at mark `i` moves over to reach the next group
/// at `level` (level 0 walks single marks; a level above the mark's own depth
/// reaches the end).
pub open spec fn stride_spec(marks: Seq<OrcMark>, i: int, level: int) -> int {
    if i < 0 || i >= marks.len() {
        0
    } else if level == 0 {
        1
    } else if level > marks[i].depth {
        marks.len() - i
    } else {
        next_above(marks, i + 1, marks.len() as int, level - 1) - i
    }
}

/// Position of mark `idx`, or the number of items past the last mark.
pub open spec fn mark_pos_spec(marks: Seq<OrcMark>, n_items: int, idx: int) -> int {
    if 0 <= idx < marks.len() {
        marks[idx].pos as int
    } else {
        n_items
    }
}

// ---------------------------------------------------------------- lemmas
/// The depth sum grows by at least the depth of each mark passed.
pub proof fn lemma_depth_sum_gap(marks: Seq<OrcMark>, p: int, q: int)
    requires
        0 <= p < q <= marks.len(),
    ensures
        depth_sum(marks, p) + marks[p].depth <= depth_sum(marks, q),
    decreases q - p,
{
    if q > p + 1 {
        lemma_depth_sum_gap(marks, p, q - 1);
    }
}

/// Depth sums never decrease along the marks.
pub proof fn lemma_depth_sum_mono(marks: Seq<OrcMark>, p: int, q: int)
    requires
        0 <= p <= q <= marks.len(),
    ensures
        depth_sum(marks, p) <= depth_sum(marks, q),
        0 <= depth_sum(marks, p),
    decreases q,
{
    if q > p {
        lemma_depth_sum_mono(marks, p, q - 1);
    } else if p > 0 {
        lemma_depth_sum_mono(marks, p - 1, p - 1);
    }
}

/// Depth sums depend only on the marks before the index.
pub proof fn lemma_depth_sum_prefix(a: Seq<OrcMark>, b: Seq<OrcMark>, i: int)
    requires
        0 <= i <= a.len(),
        i <= b.len(),
        forall|k: int| 0 <= k < i ==> a[k] == b[k],
    ensures
        depth_sum(a, i) == depth_sum(b, i),
    decreases i,
{
    if i > 0 {
        lemma_depth_sum_prefix(a, b, i - 1);
    }
}

/// Table entries `(p, j)` and `(q, k)` of distinct pairs live at distinct
/// places.
pub proof fn lemma_entries_distinct(marks: Seq<OrcMark>, p: int, j: int, q: int, k: int)
    requires
        0 <= p < marks.len(),
        0 <= q < marks.len(),
        0 <= j < marks[p].depth,
        0 <= k < marks[q].depth,
        p != q || j != k,
    ensures
        depth_sum(marks, p) + j != depth_sum(marks, q) + k,
{
    if p < q {
        lemma_depth_sum_gap(marks, p, q);
    } else if q < p {
        lemma_depth_sum_gap(marks, q, p);
    }
}

/// Entry `j` of mark `p` lies inside the stride table.
pub proof fn lemma_entry_in_table(marks: Seq<OrcMark>, p: int, j: int)
    requires
        0 <= p < marks.len(),
        0 <= j < marks[p].depth,
    ensures
        0 <= depth_sum(marks, p) + j < depth_sum(marks, marks.len() as int),
{
    lemma_depth_sum_gap(marks, p, marks.len() as int);
    lemma_depth_sum_mono(marks, p, p);
}

/// The next mark deeper than `level` is found at or after `from`, and is
/// the first such mark.
pub proof fn lemma_next_above(marks: Seq<OrcMark>, from: int, upto: int, level: int)
    requires
        0 <= from <= upto <= marks.len(),
    ensures
        from <= next_above(marks, from, upto, level) <= upto,
        forall|k: int| from <= k < next_above(marks, from, upto, level) ==> #[trigger] marks[k].depth <= level,
        next_above(marks, from, upto, level) < upto ==> marks[next_above(marks, from, upto, level)].depth > level,
    decreases upto - from,
{
    if from < upto && marks[from].depth <= level {
        lemma_next_above(marks, from + 1, upto, level);
    }
}

/// A mark found before `upto` is still found when more marks exist; when none
/// is found, one more mark is looked at.
pub proof fn lemma_next_above_extend(marks: Seq<OrcMark>, from: int, upto: int, level: int)
    requires
        0 <= from <= upto < marks.len(),
    ensures
        next_above(marks, from, upto, level) < upto ==> next_above(marks, from, upto + 1, level)
            == next_above(marks, from, upto, level),
        next_above(marks, from, upto, level) == upto ==> next_above(marks, from, upto + 1, level)
            == (if marks[upto].depth > level {
            upto
        } else {
            upto + 1
        }),
    decreases upto - from,
{
    if from < upto && marks[from].depth <= level {
        lemma_next_above_extend(marks, from + 1, upto, level);
    } else if from == upto {
        assert(next_above(marks, from + 1, upto + 1, level) == upto + 1);
    }
}

/// The search only reads marks before `upto`.
pub proof fn lemma_next_above_prefix(a: Seq<OrcMark>, b: Seq<OrcMark>, from: int, upto: int, level: int)
    requires
        0 <= from,
        upto <= a.len(),
        upto <= b.len(),
        forall|k: int| 0 <= k < upto ==> a[k] == b[k],
    ensures
        next_above(a, from, upto, level) == next_above(b, from, upto, level),
    decreases upto - from,
{
    if from < upto {
        lemma_next_above_prefix(a, b, from + 1, upto, level);
    }
}

/// The last mark deeper than `level` before `upto` is such a mark, and no
/// later one is.
pub proof fn lemma_last_above(marks: Seq<OrcMark>, upto: int, level: int)
    requires
        0 <= upto <= marks.len(),
    ensures
        -1 <= last_above(marks, upto, level) < upto,
        last_above(marks, upto, level) >= 0 ==> marks[last_above(marks, upto, level)].depth > level,
        forall|k: int| last_above(marks, upto, level) < k < upto ==> #[trigger] marks[k].depth <= level,
    decreases upto,
{
    if upto > 0 && marks[upto - 1].depth <= level {
        lemma_last_above(marks, upto - 1, level);
    }
}

/// The backward search only reads marks before `upto`.
pub proof fn lemma_last_above_prefix(a: Seq<OrcMark>, b: Seq<OrcMark>, upto: int, level: int)
    requires
        upto <= a.len(),
        upto <= b.len(),
        forall|k: int| 0 <= k < upto ==> a[k] == b[k],
    ensures
        last_above(a, upto, level) == last_above(b, upto, level),
    decreases upto,
{
    if upto > 0 {
        lemma_last_above_prefix(a, b, upto - 1, level);
    }
}

/// A mark deeper than `level` before `upto` makes `last_above` non-negative.
pub proof fn lemma_last_above_found(marks: Seq<OrcMark>, upto: int, level: int, k: int)
    requires
        0 <= k < upto <= marks.len(),
        marks[k].depth > level,
    ensures
        k <= last_above(marks, upto, level),
    decreases upto,
{
    if upto - 1 != k && marks[upto - 1].depth <= level {
        lemma_last_above_found(marks, upto - 1, level, k);
    }
}

/// The entry of mark `i` at a level below its depth is `u64::MAX` (nothing
/// found yet) exactly when `i` is the last mark deeper than that level.
pub proof fn lemma_entry_open_iff_peg(marks: Seq<OrcMark>, i: int, j: int, upto: int)
    requires
        0 <= i < upto <= marks.len(),
        0 <= j < marks[i].depth,
    ensures
        (next_above(marks, i + 1, upto, j) == upto) <==> (last_above(marks, upto, j) == i),
{
    lemma_next_above(marks, i + 1, upto, j);
    lemma_last_above(marks, upto, j);
    lemma_last_above_found(marks, upto, j, i);
    let k = next_above(marks, i + 1, upto, j);
    if k < upto {
        lemma_last_above_found(marks, upto, j, k);
    }
}

/// `stride_spec` is at least one for every existing mark and never reaches
/// past the last mark.
pub proof fn lemma_stride_bounds(marks: Seq<OrcMark>, i: int, level: int)
    requires
        0 <= i < marks.len(),
        level >= 0,
    ensures
        1 <= stride_spec(marks, i, level) <= marks.len() - i,
{
    if level > 0 && level <= marks[i].depth {
        lemma_next_above(marks, i + 1, marks.len() as int, level - 1);
    }
}

// ---------------------------------------------------------------- exec code
/// Number of entries of the stride table: the last offset plus the depth of the
/// last mark.
pub fn calc_stride_count(marks: &[OrcMark], stride_offset: &[u64]) -> (count: usize)
    requires
        offsets_correct(marks@, stride_offset@),
        depth_sum(marks@, marks@.len() as int) <= usize::MAX,
    ensures
        count == depth_sum(marks@, marks@.len() as int),
{
    let n = stride_offset.len();
    if n == 0 {
        0
    } else {
        proof {
            lemma_depth_sum_mono(marks@, n - 1, n as int);
        }
        stride_offset[n - 1] as usize + marks[n - 1].depth as usize
    }
}

/// Links the new mark `n` of depth `d` into the table: for every level below
/// `d`, the last mark deeper than that level gets `n` as its next group, and
/// the mark becomes the new peg of that level.
pub(crate) fn link_pegs(
    pegs: &mut Vec<usize>,
    stride_offset: &[u64],
    strides: &mut Vec<u64>,
    n: usize,
    d: usize,
    Ghost(ms): Ghost<Seq<OrcMark>>,
)
    requires
        n < ms.len(),
        d == ms[n as int].depth,
        first_is_max(ms),
        offsets_correct(ms, stride_offset@),
        old(strides)@.len() == depth_sum(ms, ms.len() as int),
        strides_upto(ms, stride_offset@, old(strides)@, n as int),
        d <= old(pegs)@.len(),
        n > 0 ==> forall|j: int| 0 <= j < old(pegs)@.len() ==> #[trigger] old(pegs)@[j] == last_above(ms, n as int, j),
    ensures
        final(strides)@.len() == old(strides)@.len(),
        strides_upto(ms, stride_offset@, final(strides)@, n + 1),
        final(pegs)@.len() == old(pegs)@.len(),
        forall|j: int| 0 <= j < final(pegs)@.len() ==> #[trigger] final(pegs)@[j] == (if j < d {
            n
        } else {
            old(pegs)@[j]
        }),
{
    let ghost st0 = strides@;
    let ghost pegs0 = pegs@;
    let ghost so = stride_offset@;
    let mut k: usize = 0;
    while k < d
        invariant
            0 <= k <= d,
            n < ms.len(),
            d == ms[n as int].depth,
            first_is_max(ms),
            offsets_correct(ms, so),
            so == stride_offset@,
            st0.len() == depth_sum(ms, ms.len() as int),
            strides_upto(ms, so, st0, n as int),
            d <= pegs0.len(),
            n > 0 ==> forall|j: int| 0 <= j < pegs0.len() ==> #[trigger] pegs0[j] == last_above(ms, n as int, j),
            strides@.len() == st0.len(),
            pegs@.len() == pegs0.len(),
            forall|j: int| 0 <= j < pegs@.len() ==> #[trigger] pegs@[j] == (if j < k {
                n
            } else {
                pegs0[j]
            }),
            forall|i: int, j: int|
                0 <= i < ms.len() && 0 <= j < ms[i].depth ==> #[trigger] stored_stride(
                    so,
                    strides@,
                    i,
                    j,
                ) == (if n > 0 && j < k && i == pegs0[j] {
                    (n - i) as u64
                } else {
                    stored_stride(so, st0, i, j)
                }),
        decreases d - k,
    {
        let peg = pegs[k];
        if peg < n {
            proof {
                assert(pegs0[k as int] == last_above(ms, n as int, k as int));
                lemma_last_above(ms, n as int, k as int);
                // The first mark is deeper than every level below d.
                assert(ms[0].depth >= d);
                lemma_last_above_found(ms, n as int, k as int, 0);
                lemma_entry_in_table(ms, peg as int, k as int);
                assert(so[peg as int] == depth_sum(ms, peg as int));
                assert(strides@.len() == strides.len());
            }
            let idx = stride_offset[peg] as usize + k;
            let cur = strides[idx];
            let cand = (n - peg) as u64;
            let v = if cur < cand {
                cur
            } else {
                cand
            };
            proof {
                // The entry has not been written before: its level is k.
                assert(cur == stored_stride(so, strides@, peg as int, k as int));
                assert(stored_stride(so, strides@, peg as int, k as int) == stored_stride(
                    so,
                    st0,
                    peg as int,
                    k as int,
                ));
                lemma_entry_open_iff_peg(ms, peg as int, k as int, n as int);
                assert(stored_stride(so, st0, peg as int, k as int) == stride_entry(
                    ms,
                    peg as int,
                    k as int,
                    n as int,
                ));
                assert(cur == u64::MAX);
            }
            let ghost before = strides@;
            strides.set(idx, v);
            proof {
                assert(pegs0[k as int] == peg);
                assert(v == cand);
                assert(stored_stride(so, strides@, peg as int, k as int) == v);
                assert forall|i: int, j: int|
                    0 <= i < ms.len() && 0 <= j < ms[i].depth implies #[trigger] stored_stride(
                    so,
                    strides@,
                    i,
                    j,
                ) == (if n > 0 && j < k + 1 && i == pegs0[j] {
                    (n - i) as u64
                } else {
                    stored_stride(so, st0, i, j)
                }) by {
                    if i != peg || j != k {
                        lemma_entries_distinct(ms, i, j, peg as int, k as int);
                        assert(so[i] == depth_sum(ms, i));
                        lemma_entry_in_table(ms, i, j);
                        assert(stored_stride(so, strides@, i, j) == stored_stride(so, before, i, j));
                        if n > 0 && j == k && i == pegs0[j] {
                            assert(false);
                        }
                    }
                }
            }
        } else {
            proof {
                assert(n == 0) by {
                    if n > 0 {
                        lemma_last_above(ms, n as int, k as int);
                        assert(ms[0].depth >= d);
                        lemma_last_above_found(ms, n as int, k as int, 0);
                    }
                }
            }
        }
        pegs.set(k, n);
        k = k + 1;
    }
    proof {
        assert forall|i: int, j: int|
            0 <= i < ms.len() && 0 <= j < ms[i].depth implies #[trigger] stored_stride(
            so,
            strides@,
            i,
            j,
        ) == (if i < n + 1 {
            stride_entry(ms, i, j, n + 1)
        } else {
            u64::MAX
        }) by {
            let old_v = stored_stride(so, st0, i, j);
            if i < n {
                lemma_next_above(ms, i + 1, n as int, j);
                lemma_next_above_extend(ms, i + 1, n as int, j);
                lemma_entry_open_iff_peg(ms, i, j, n as int);
                assert(old_v == stride_entry(ms, i, j, n as int));
                if j < d {
                    assert(pegs0[j] == last_above(ms, n as int, j));
                    if i == pegs0[j] {
                        assert(next_above(ms, i + 1, n + 1, j) == n);
                    } else {
                        assert(next_above(ms, i + 1, n as int, j) < n);
                    }
                } else {
                    if next_above(ms, i + 1, n as int, j) == n {
                        assert(next_above(ms, i + 1, n + 1, j) == n + 1);
                    }
                }
            } else if i == n {
                assert(old_v == u64::MAX);
                if n > 0 && j < d {
                    lemma_last_above(ms, n as int, j);
                    assert(pegs0[j] == last_above(ms, n as int, j));
                }
                assert(next_above(ms, i + 1, n + 1, j) == n + 1);
            } else {
                assert(old_v == u64::MAX);
                if n > 0 && j < d {
                    lemma_last_above(ms, n as int, j);
                    assert(pegs0[j] == last_above(ms, n as int, j));
                }
            }
        }
    }
}

/// Rebuilds the offsets, the stride table and the pegs from scratch.
pub fn calc_strides(
    marks: &[OrcMark],
    pegs: &mut Vec<usize>,
    stride_offset: &mut Vec<u64>,
    strides: &mut Vec<u64>,
)
    requires
        first_is_max(marks@),
        depth_sum(marks@, marks@.len() as int) <= usize::MAX,
    ensures
        layout_correct(marks@, final(stride_offset)@, final(strides)@),
        pegs_correct(marks@, final(pegs)@, marks@.len() as int),
{
    let ghost ms = marks@;
    pegs.clear();
    stride_offset.clear();
    strides.clear();
    // Exclusive prefix sum of depth.
    let mut acc: u64 = 0;
    let mut i: usize = 0;
    while i < marks.len()
        invariant
            0 <= i <= marks.len(),
            ms == marks@,
            depth_sum(ms, ms.len() as int) <= usize::MAX,
            acc == depth_sum(ms, i as int),
            stride_offset@.len() == i,
            forall|k: int| 0 <= k < i ==> #[trigger] stride_offset@[k] == depth_sum(ms, k),
        decreases marks.len() - i,
    {
        proof {
            lemma_depth_sum_mono(ms, i + 1, ms.len() as int);
        }
        stride_offset.push(acc);
        acc = acc + marks[i].depth as u64;
        i = i + 1;
    }
    // One stride entry per depth level per mark.
    let total = calc_stride_count(marks, stride_offset.as_slice());
    let mut t: usize = 0;
    while t < total
        invariant
            0 <= t <= total,
            strides@.len() == t,
            forall|x: int| 0 <= x < t ==> #[trigger] strides@[x] == u64::MAX,
        decreases total - t,
    {
        strides.push(u64::MAX);
        t = t + 1;
    }
    proof {
        assert forall|i: int, j: int|
            0 <= i < ms.len() && 0 <= j < ms[i].depth implies #[trigger] stored_stride(
            stride_offset@,
            strides@,
            i,
            j,
        ) == (if i < 0 {
            stride_entry(ms, i, j, 0)
        } else {
            u64::MAX
        }) by {
            lemma_entry_in_table(ms, i, j);
        }
    }
    // Fill strides using pegs.
    let mut i: usize = 0;
    while i < marks.len()
        invariant
            0 <= i <= marks.len(),
            ms == marks@,
            first_is_max(ms),
            offsets_correct(ms, stride_offset@),
            strides@.len() == depth_sum(ms, ms.len() as int),
            strides_upto(ms, stride_offset@, strides@, i as int),
            pegs_correct(ms, pegs@, i as int),
        decreases marks.len() - i,
    {
        let d = marks[i].depth as usize;
        if d > pegs.len() {
            while pegs.len() < d
                invariant
                    pegs@.len() <= d,
                decreases d - pegs@.len(),
            {
                pegs.push(0);
            }
        }
        proof {
            if i > 0 {
                assert(ms[i as int].depth <= ms[0].depth);
            }
        }
        link_pegs(pegs, stride_offset.as_slice(), strides, i, d, Ghost(ms));
        proof {
            assert forall|j: int| 0 <= j < pegs@.len() implies #[trigger] pegs@[j] == last_above(
                ms,
                i + 1,
                j,
            ) by {
                if j >= d {
                    assert(i > 0);
                }
            }
        }
        i = i + 1;
    }
    proof {
        if ms.len() == 0 {
            assert(strides@.len() == 0);
        }
    }
}

/// How many marks to skip from `mark_idx` to reach the next group at `depth`.
pub fn stride(
    marks: &[OrcMark],
    strides: &[u64],
    stride_offset: &[u64],
    mark_idx: usize,
    depth: u8,
) -> (r: usize)
    requires
        layout_correct(marks@, stride_offset@, strides@),
    ensures
        r == stride_spec(marks@, mark_idx as int, depth as int),
{
    if mark_idx >= marks.len() {
        return 0;
    }
    let m = marks[mark_idx];
    if depth == 0 {
        1
    } else if depth > m.depth {
        marks.len() - mark_idx
    } else {
        proof {
            lemma_entry_in_table(marks@, mark_idx as int, depth - 1);
            assert(stored_stride(stride_offset@, strides@, mark_idx as int, depth - 1) == stride_entry(
                marks@,
                mark_idx as int,
                depth - 1,
                marks@.len() as int,
            ));
            lemma_next_above(marks@, mark_idx + 1, marks@.len() as int, depth - 1);
            assert(stride_offset@[mark_idx as int] == depth_sum(marks@, mark_idx as int));
            assert(strides@.len() == strides.len());
        }
        let s = strides[(stride_offset[mark_idx] + (depth - 1) as u64) as usize];
        let rest = (marks.len() - mark_idx) as u64;
        if s < rest {
            s as usize
        } else {
            rest as usize
        }
    }
}

/// Position of mark `idx`, or `n_items` past the last mark.
pub fn mark_pos(marks: &[OrcMark], n_items: usize, idx: usize) -> (r: usize)
    requires
        forall|k: int| 0 <= k < marks@.len() ==> #[trigger] marks@[k].pos <= n_items,
    ensures
        r == mark_pos_spec(marks@, n_items as int, idx as int),
{
    if idx < marks.len() {
        marks[idx].pos as usize
    } else {
        n_items
    }
}

/// Every place of the stride table of `marks[0..n)` holds the entry of some
/// mark at some level.
pub proof fn lemma_table_covered(marks: Seq<OrcMark>, n: int, x: int) -> (e: (int, int))
    requires
        0 <= n <= marks.len(),
        0 <= x < depth_sum(marks, n),
    ensures
        0 <= e.0 < n,
        0 <= e.1 < marks[e.0].depth,
        depth_sum(marks, e.0) + e.1 == x,
    decreases n,
{
    if x < depth_sum(marks, n - 1) {
        lemma_table_covered(marks, n - 1, x)
    } else {
        (n - 1, x - depth_sum(marks, n - 1))
    }
}

/// The marks alone decide the offsets, the stride table and the pegs that
/// describe them.
pub proof fn law_layout_follows_marks(
    marks: Seq<OrcMark>,
    o1: Seq<u64>,
    s1: Seq<u64>,
    p1: Seq<usize>,
    o2: Seq<u64>,
    s2: Seq<u64>,
    p2: Seq<usize>,
)
    requires
        layout_correct(marks, o1, s1),
        layout_correct(marks, o2, s2),
        pegs_correct(marks, p1, marks.len() as int),
        pegs_correct(marks, p2, marks.len() as int),
    ensures
        o1 == o2,
        s1 == s2,
        p1 == p2,
{
    assert(o1 =~= o2);
    assert forall|x: int| 0 <= x < s1.len() implies s1[x] == s2[x] by {
        let (i, j) = lemma_table_covered(marks, marks.len() as int, x);
        assert(stored_stride(o1, s1, i, j) == stride_entry(marks, i, j, marks.len() as int));
        assert(stored_stride(o2, s2, i, j) == stride_entry(marks, i, j, marks.len() as int));
    }
    assert(s1 =~= s2);
    assert forall|j: int| 0 <= j < p1.len() implies p1[j] == p2[j] by {
        assert(p1[j] == last_above(marks, marks.len() as int, j));
        assert(p2[j] == last_above(marks, marks.len() as int, j));
    }
    assert(p1 =~= p2);
}

} // verus!
