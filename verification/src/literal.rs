//! A deck written as nested list syntax: `[[1, 2], [3]]`, or a bare item at
//! depth 0, given the text of each item.
use vstd::prelude::*;

use crate::view::{visit_starts, DeckView, ReadCursor};

verus! {

/// The literal of the group `c` stands on: the item's text at depth 0, else
/// the literals of its subgroups between brackets, separated by `, `.
pub open spec fn view_literal(items: Seq<Seq<char>>, c: ReadCursor) -> Seq<char>
    decreases c.depth + 1, 0nat,
{
    if c.depth == 0 {
        items[c.start as int]
    } else {
        let ch = c.child_spec();
        "["@ + group_literals(
            items,
            ch,
            visit_starts(ch.marks@, ch.depth, ch.start as int, ch.end as int),
        ) + "]"@
    }
}

/// The literals of the groups of `ch`'s level starting at `starts`,
/// separated by `, `.
pub open spec fn group_literals(items: Seq<Seq<char>>, ch: ReadCursor, starts: Seq<int>) -> Seq<char>
    decreases ch.depth + 1, starts.len(),
{
    if starts.len() == 0 {
        Seq::empty()
    } else {
        let first = view_literal(items, ReadCursor { start: starts[0] as usize, ..ch });
        if starts.len() == 1 {
            first
        } else {
            first + ", "@ + group_literals(items, ch, starts.drop_first())
        }
    }
}

/// The literal of the group `view` stands on, given the text of each item:
/// `[1, 2]` for a list, `[[1, 2], [3, 4]]` a level up, and the item's text
/// alone at depth 0.
pub fn deck_view_literal(view: DeckView<'_, String>) -> (r: String)
    requires
        view.wf(),
        view.cursor_view().depth == 0 ==> view.cursor_view().start < view.cursor_view().n_items,
    ensures
        r@ == view_literal(view.item_seq().map_values(|s: String| s@), view.cursor_view()),
    decreases view.cursor_view().depth,
{
    let ghost items = view.item_seq().map_values(|s: String| s@);
    if view.depth() == 0 {
        let mut out = String::new();
        out.append(view.as_ref().as_str());
        return out;
    }
    let child = view.child();
    let ghost ch = child.cursor_view();
    let ghost starts = visit_starts(ch.marks@, ch.depth, ch.start as int, ch.end as int);
    proof {
        crate::view::lemma_visit_starts(ch.marks@, ch.depth, ch.start as int, ch.end as int);
    }
    let kids = child.advance_iter();
    let mut out = String::new();
    out.append("[");
    let mut k: usize = 0;
    while k < kids.len()
        invariant
            view.wf(),
            ch == view.cursor_view().child_spec(),
            ch.wf(),
            ch.depth < view.cursor_view().depth,
            items == view.item_seq().map_values(|s: String| s@),
            kids@.len() == starts.len(),
            forall|j: int|
                #![trigger kids@[j]]
                0 <= j < kids@.len() ==> {
                    &&& kids@[j].item_seq() == view.item_seq()
                    &&& kids@[j].cursor_view() == ReadCursor { start: starts[j] as usize, ..ch }
                    &&& kids@[j].wf()
                },
            forall|j: int| 0 <= j < starts.len() ==> ch.start <= #[trigger] starts[j] < ch.end,
            0 <= k <= kids@.len(),
            out@ == "["@ + group_literals(items, ch, starts.take(k as int)),
        decreases kids@.len() - k,
    {
        if k > 0 {
            out.append(", ");
        }
        let kid = kids[k];
        proof {
            assert(kid.cursor_view().depth == ch.depth);
            assert(kid.cursor_view().depth == 0 ==> kid.cursor_view().start < kid.cursor_view().n_items);
        }
        let lit = deck_view_literal(kid);
        out.append(lit.as_str());
        proof {
            lemma_group_literals_push(items, ch, starts, k as int);
        }
        k = k + 1;
    }
    out.append("]");
    proof {
        assert(starts.take(kids@.len() as int) =~= starts);
    }
    out
}

/// Adding the next group's literal to the literals of the groups before it.
proof fn lemma_group_literals_push(items: Seq<Seq<char>>, ch: ReadCursor, starts: Seq<int>, k: int)
    requires
        0 <= k < starts.len(),
    ensures
        group_literals(items, ch, starts.take(k + 1)) == group_literals(items, ch, starts.take(k)) + (if k > 0 {
            ", "@
        } else {
            Seq::<char>::empty()
        }) + view_literal(items, ReadCursor { start: starts[k] as usize, ..ch }),
    decreases k,
{
    let lit = view_literal(items, ReadCursor { start: starts[k] as usize, ..ch });
    if k == 0 {
        assert(starts.take(1).len() == 1);
        assert(starts.take(1)[0] == starts[0]);
        assert(starts.take(0).len() == 0);
        assert(group_literals(items, ch, starts.take(0)) =~= Seq::<char>::empty());
        assert(group_literals(items, ch, starts.take(1)) =~= Seq::<char>::empty() + Seq::<char>::empty() + lit);
    } else {
        let t = starts.take(k + 1);
        assert(t.drop_first() =~= starts.drop_first().take(k));
        assert(starts.take(k).drop_first() =~= starts.drop_first().take(k - 1));
        lemma_group_literals_push(items, ch, starts.drop_first(), k - 1);
        let first = view_literal(items, ReadCursor { start: starts[0] as usize, ..ch });
        assert(t[0] == starts[0]);
        assert(starts.drop_first()[k - 1] == starts[k]);
        if k == 1 {
            assert(starts.take(1).len() == 1);
            assert(group_literals(items, ch, starts.take(1)) == first);
            assert(starts.drop_first().take(0).len() == 0);
            assert(group_literals(items, ch, starts.drop_first().take(1)) == Seq::<char>::empty() + Seq::<char>::empty()
                + lit);
            assert(group_literals(items, ch, t) =~= first + ", "@ + lit);
        } else {
            assert(starts.take(k)[0] == starts[0]);
            assert(group_literals(items, ch, t) =~= first + ", "@ + group_literals(items, ch, starts.drop_first().take(k)));
            assert(group_literals(items, ch, starts.take(k)) =~= first + ", "@ + group_literals(
                items,
                ch,
                starts.drop_first().take(k - 1),
            ));
        }
    }
}

} // verus!
