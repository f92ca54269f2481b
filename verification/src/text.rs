//! Text renderings of a deck: the tree drawing of its items and marks.
use vstd::prelude::*;

use crate::layout::first_is_max;
use crate::mark::OrcMark;

verus! {

/// `n` spaces.
pub open spec fn spaces(n: int) -> Seq<char>
    decreases n,
{
    if n <= 0 {
        seq![]
    } else {
        spaces(n - 1) + " "@
    }
}

/// `n` horizontal rules.
pub open spec fn rules(n: int) -> Seq<char>
    decreases n,
{
    if n <= 0 {
        seq![]
    } else {
        rules(n - 1) + "─"@
    }
}

/// The text of one decimal digit.
pub open spec fn digit_text(d: int) -> Seq<char> {
    if d == 0 {
        "0"@
    } else if d == 1 {
        "1"@
    } else if d == 2 {
        "2"@
    } else if d == 3 {
        "3"@
    } else if d == 4 {
        "4"@
    } else if d == 5 {
        "5"@
    } else if d == 6 {
        "6"@
    } else if d == 7 {
        "7"@
    } else if d == 8 {
        "8"@
    } else {
        "9"@
    }
}

/// The decimal text of `n`.
pub open spec fn decimal(n: nat) -> Seq<char>
    decreases n,
{
    if n < 10 {
        digit_text(n as int)
    } else {
        decimal(n / 10) + digit_text((n % 10) as int)
    }
}

/// `s` right-aligned in a field of width 3.
pub open spec fn pad3(s: Seq<char>) -> Seq<char> {
    if s.len() >= 3 {
        s
    } else {
        spaces(3 - s.len()) + s
    }
}

/// An item drawn on a line of its own, below the group it belongs to.
pub open spec fn item_line(dmax: int, text: Seq<char>) -> Seq<char> {
    spaces((dmax + 1) * 3) + "   ┤ "@ + text + "\n"@
}

/// Items `from..to` drawn on lines of their own.
pub open spec fn item_lines(items: Seq<Seq<char>>, dmax: int, from: int, to: int) -> Seq<char>
    decreases to - from,
{
    if to <= from {
        seq![]
    } else {
        item_lines(items, dmax, from, to - 1) + item_line(dmax, items[to - 1])
    }
}

/// Where the group opened by mark `k` ends: the next mark, or the end of
/// the items.
pub open spec fn group_end(items: Seq<Seq<char>>, marks: Seq<OrcMark>, k: int) -> int {
    if k + 1 < marks.len() {
        marks[k + 1].pos as int
    } else {
        items.len() as int
    }
}

/// The lines drawn for mark `k`: its depth indented by how far it lies below
/// the deepest mark, a rule as long as its depth, then the items up to the
/// next mark.
pub open spec fn group_text(items: Seq<Seq<char>>, marks: Seq<OrcMark>, dmax: int, k: int) -> Seq<char> {
    let m = marks[k];
    let next_pos = group_end(items, marks, k);
    let end = if next_pos < items.len() {
        next_pos
    } else {
        items.len() as int
    };
    let head = spaces((dmax - m.depth) * 3) + pad3(decimal((m.depth + 1) as nat)) + " "@ + rules((m.depth + 1) * 3 - 1)
        + "┤"@;
    let body = if m.pos < next_pos {
        if m.pos < end {
            " "@ + items[m.pos as int] + "\n"@ + item_lines(items, dmax, m.pos + 1, end)
        } else {
            seq![]
        }
    } else {
        "\n"@
    };
    head + body
}

/// The lines drawn for the first `k` marks.
pub open spec fn groups_text(items: Seq<Seq<char>>, marks: Seq<OrcMark>, dmax: int, k: int) -> Seq<char>
    decreases k,
{
    if k <= 0 {
        seq![]
    } else {
        groups_text(items, marks, dmax, k - 1) + group_text(items, marks, dmax, k - 1)
    }
}

/// The drawing of a deck with these item texts and marks.
pub open spec fn raw_deck_text(items: Seq<Seq<char>>, marks: Seq<OrcMark>) -> Seq<char> {
    if items.len() == 0 && marks.len() == 0 {
        "<empty_deck>\n"@
    } else {
        let dmax = if marks.len() > 0 {
            marks[0].depth + 1
        } else {
            0
        };
        if marks.len() > 0 {
            groups_text(items, marks, dmax, marks.len() as int)
        } else {
            item_lines(items, dmax, 0, items.len() as int)
        }
    }
}

/// The views of `items`.
pub open spec fn texts(items: Seq<String>) -> Seq<Seq<char>> {
    items.map_values(|s: String| s@)
}

fn push_spaces(out: &mut String, n: usize)
    ensures
        final(out)@ == old(out)@ + spaces(n as int),
{
    let mut k: usize = 0;
    while k < n
        invariant
            0 <= k <= n,
            out@ == old(out)@ + spaces(k as int),
        decreases n - k,
    {
        out.append(" ");
        proof {
            assert(old(out)@ + spaces(k + 1) == old(out)@ + spaces(k as int) + " "@);
        }
        k = k + 1;
    }
}

fn push_rules(out: &mut String, n: usize)
    ensures
        final(out)@ == old(out)@ + rules(n as int),
{
    let mut k: usize = 0;
    while k < n
        invariant
            0 <= k <= n,
            out@ == old(out)@ + rules(k as int),
        decreases n - k,
    {
        out.append("─");
        proof {
            assert(old(out)@ + rules(k + 1) == old(out)@ + rules(k as int) + "─"@);
        }
        k = k + 1;
    }
}

fn push_digit(out: &mut String, d: u8)
    requires
        d < 10,
    ensures
        final(out)@ == old(out)@ + digit_text(d as int),
{
    if d == 0 {
        out.append("0");
    } else if d == 1 {
        out.append("1");
    } else if d == 2 {
        out.append("2");
    } else if d == 3 {
        out.append("3");
    } else if d == 4 {
        out.append("4");
    } else if d == 5 {
        out.append("5");
    } else if d == 6 {
        out.append("6");
    } else if d == 7 {
        out.append("7");
    } else if d == 8 {
        out.append("8");
    } else {
        out.append("9");
    }
}

proof fn lemma_digit_len(d: int)
    ensures
        digit_text(d).len() == 1,
{
    reveal_strlit("0");
    reveal_strlit("1");
    reveal_strlit("2");
    reveal_strlit("3");
    reveal_strlit("4");
    reveal_strlit("5");
    reveal_strlit("6");
    reveal_strlit("7");
    reveal_strlit("8");
    reveal_strlit("9");
}

/// Appends `d` in decimal, right-aligned in a field of width 3.
fn push_padded_decimal(out: &mut String, d: u8)
    ensures
        final(out)@ == old(out)@ + pad3(decimal(d as nat)),
{
    proof {
        reveal_strlit(" ");
        lemma_digit_len(d as int);
        lemma_digit_len((d % 10) as int);
        lemma_digit_len((d / 10) as int);
        lemma_digit_len(((d / 10) % 10) as int);
        lemma_digit_len((d / 100) as int);
        assert(spaces(1) == " "@) by {
            assert(spaces(0) == Seq::<char>::empty());
        }
        assert(spaces(2) == spaces(1) + " "@);
    }
    if d < 10 {
        push_spaces(out, 2);
        push_digit(out, d);
        proof {
            assert(decimal(d as nat) == digit_text(d as int));
        }
    } else if d < 100 {
        push_spaces(out, 1);
        push_digit(out, d / 10);
        push_digit(out, d % 10);
        proof {
            assert(decimal((d / 10) as nat) == digit_text((d / 10) as int));
            assert(decimal(d as nat) == digit_text((d / 10) as int) + digit_text((d % 10) as int));
        }
    } else {
        push_digit(out, d / 100);
        push_digit(out, (d / 10) % 10);
        push_digit(out, d % 10);
        proof {
            assert(decimal((d / 100) as nat) == digit_text((d / 100) as int));
            assert((d / 10) / 10 == d / 100);
            assert(decimal((d / 10) as nat) == digit_text((d / 100) as int) + digit_text(((d / 10) % 10) as int));
            assert(decimal(d as nat) == decimal((d / 10) as nat) + digit_text((d % 10) as int));
        }
    }
}

fn push_item_lines(out: &mut String, items: &[String], dmax: usize, from: usize, to: usize)
    requires
        from <= to <= items@.len(),
        dmax <= 256,
    ensures
        final(out)@ == old(out)@ + item_lines(texts(items@), dmax as int, from as int, to as int),
{
    let mut k: usize = from;
    while k < to
        invariant
            from <= k <= to <= items@.len(),
            dmax <= 256,
            out@ == old(out)@ + item_lines(texts(items@), dmax as int, from as int, k as int),
        decreases to - k,
    {
        let ghost before = out@;
        push_spaces(out, (dmax + 1) * 3);
        out.append("   ┤ ");
        out.append(items[k].as_str());
        out.append("\n");
        proof {
            assert(texts(items@)[k as int] == items@[k as int]@);
            assert(item_lines(texts(items@), dmax as int, from as int, k + 1) == item_lines(
                texts(items@),
                dmax as int,
                from as int,
                k as int,
            ) + item_line(dmax as int, texts(items@)[k as int]));
            assert(out@ == before + item_line(dmax as int, texts(items@)[k as int]));
        }
        k = k + 1;
    }
}

/// Appends the lines drawn for mark `k`.
fn push_group(out: &mut String, items: &[String], marks: &[OrcMark], dmax: u8, k: usize)
    requires
        k < marks@.len(),
        first_is_max(marks@),
        marks@[0].depth < 255,
        dmax == marks@[0].depth + 1,
    ensures
        final(out)@ == old(out)@ + group_text(texts(items@), marks@, dmax as int, k as int),
{
    let n_items = items.len() as u64;
    let m = marks[k];
    assert(m.depth <= marks@[0].depth);
    let next_pos: u64 = if k + 1 < marks.len() {
        marks[k + 1].pos
    } else {
        n_items
    };
    push_spaces(out, ((dmax - m.depth) as usize) * 3);
    let d_current = m.depth + 1;
    push_padded_decimal(out, d_current);
    out.append(" ");
    push_rules(out, (d_current as usize) * 3 - 1);
    out.append("┤");
    let ghost head = out@;
    if m.pos < next_pos {
        let end: u64 = if next_pos < n_items {
            next_pos
        } else {
            n_items
        };
        if m.pos < end {
            out.append(" ");
            out.append(items[m.pos as usize].as_str());
            out.append("\n");
            push_item_lines(out, items, dmax as usize, (m.pos + 1) as usize, end as usize);
            proof {
                assert(texts(items@)[m.pos as int] == items@[m.pos as int]@);
            }
        }
    } else {
        out.append("\n");
    }
}

/// Draws a deck given the text of each item and its marks: one line per
/// item, and for each mark its depth and a rule as long as the depth in
/// front of the group's first item. An empty deck reads `<empty_deck>`.
pub fn fmt_raw_deck(items: &[String], marks: &[OrcMark]) -> (r: String)
    requires
        first_is_max(marks@),
        marks@.len() > 0 ==> marks@[0].depth < 255,
    ensures
        r@ == raw_deck_text(texts(items@), marks@),
{
    let mut out = String::new();
    if items.len() == 0 && marks.len() == 0 {
        out.append("<empty_deck>\n");
        return out;
    }
    let dmax: u8 = if marks.len() > 0 {
        marks[0].depth + 1
    } else {
        0
    };
    let n_items = items.len() as u64;
    let mut k: usize = 0;
    while k < marks.len()
        invariant
            0 <= k <= marks@.len(),
            first_is_max(marks@),
            marks@.len() > 0 ==> marks@[0].depth < 255 && dmax == marks@[0].depth + 1,
            n_items == items@.len(),
            out@ == groups_text(texts(items@), marks@, dmax as int, k as int),
        decreases marks@.len() - k,
    {
        push_group(&mut out, items, marks, dmax, k);
        k = k + 1;
    }
    if marks.len() == 0 {
        push_item_lines(&mut out, items, dmax as usize, 0, items.len());
        proof {
            assert(out@ == item_lines(texts(items@), dmax as int, 0, items@.len() as int));
        }
    }
    out
}

} // verus!
