//! Write cursors: building a deck level by level.
use vstd::prelude::*;

use crate::deck::{marks_after_push, Deck};
use crate::mark::OrcMark;

verus! {

/// A write position at one level. `next_depth` is the external depth the next
/// pushed item opens (the groups not opened yet); `None` continues the
/// current group.
#[derive(Clone, Copy, Debug, PartialEq, Eq, Structural)]
pub struct WriteCursor {
    pub depth: u8,
    pub next_depth: Option<u8>,
}

impl WriteCursor {
    /// The cursor `child` yields.
    pub open spec fn child_spec(self) -> WriteCursor {
        let depth = if self.depth > 0 {
            (self.depth - 1) as u8
        } else {
            0u8
        };
        WriteCursor {
            depth,
            next_depth: match self.next_depth {
                Some(d) => Some(d),
                None => Some(depth),
            },
        }
    }

    /// The cursor `take` yields.
    pub open spec fn take_spec(self) -> WriteCursor {
        WriteCursor {
            depth: self.depth,
            next_depth: match self.next_depth {
                Some(d) => Some(d),
                None => Some(self.depth),
            },
        }
    }

    /// The external depth the next item is pushed at.
    pub open spec fn push_depth(self) -> u8 {
        match self.next_depth {
            Some(d) => d,
            None => 0,
        }
    }

    /// The next item opens a new group at this cursor's level again.
    pub fn advance(&mut self)
        ensures
            *final(self) == (WriteCursor { depth: old(self).depth, next_depth: Some(old(self).depth) }),
    {
        self.next_depth = Some(self.depth);
    }

    /// A cursor one level down. The groups this cursor has not opened yet are
    /// handed to the child, which opens them with its first item.
    pub fn child(&mut self) -> (r: Self)
        ensures
            r == old(self).child_spec(),
            *final(self) == (WriteCursor { depth: old(self).depth, next_depth: None }),
    {
        let depth = if self.depth > 0 {
            self.depth - 1
        } else {
            0
        };
        let taken = self.next_depth.take();
        WriteCursor {
            depth,
            next_depth: match taken {
                Some(d) => Some(d),
                None => Some(depth),
            },
        }
    }

    pub fn depth(&self) -> (r: u8)
        ensures
            r == self.depth,
    {
        self.depth
    }

    /// A cursor at the same level that takes over the pending groups.
    pub fn take(&mut self) -> (r: Self)
        ensures
            r == old(self).take_spec(),
            *final(self) == (WriteCursor { depth: old(self).depth, next_depth: None }),
    {
        let depth = self.depth;
        let taken = self.next_depth.take();
        WriteCursor {
            depth,
            next_depth: match taken {
                Some(d) => Some(d),
                None => Some(depth),
            },
        }
    }

    /// A writer into `deck` that takes over the pending groups.
    pub fn writer<'a, T: Default>(&mut self, deck: &'a mut Deck<T>) -> (w: DeckWriter<'a, T>)
        ensures
            w.deck_view() == *old(deck),
            w.cursor_view() == old(self).take_spec(),
            w.start_view() == old(deck).item_seq().len(),
            *final(self) == (WriteCursor { depth: old(self).depth, next_depth: None }),
            *final(deck) == *final(w.deck),
    {
        let start = deck.len();
        DeckWriter { deck, cursor: self.take(), start }
    }
}

/// Writes into a `Deck` at one level. Every item pushed through a writer
/// extends the deck; the groups the writer opens are created with its first
/// item, or by `finish` when it wrote none.
///
/// A writer has no destructor: the groups still pending when it is done are
/// opened by an explicit call of `finish`, which verified code can state and
/// prove, where a `Drop` would run unseen. A writer that wrote nothing and is
/// dropped without `finish` leaves the deck as it was.
pub struct DeckWriter<'a, T> where T: Default {
    pub deck: &'a mut Deck<T>,
    pub cursor: WriteCursor,
    pub start: usize,
}

impl<'a, T> DeckWriter<'a, T> where T: Default {
    /// The deck written to, as it is now.
    pub open spec fn deck_view(&self) -> Deck<T> {
        *self.deck
    }

    pub open spec fn cursor_view(&self) -> WriteCursor {
        self.cursor
    }

    /// Number of items in the deck when this writer was made.
    pub open spec fn start_view(&self) -> int {
        self.start as int
    }

    /// The deck is well-formed and holds at least the items it held when this
    /// writer was made.
    pub open spec fn wf(&self) -> bool {
        &&& self.deck_view().wf()
        &&& self.start_view() <= self.deck_view().item_seq().len()
    }

    /// A writer one level down, writing into the same deck.
    pub fn child(&mut self) -> (c: DeckWriter<'_, T>)
        requires
            old(self).wf(),
        ensures
            c.wf(),
            c.deck_view() == old(self).deck_view(),
            c.cursor_view() == old(self).cursor_view().child_spec(),
            c.start_view() == old(self).deck_view().item_seq().len(),
            final(self).cursor_view() == (WriteCursor {
                depth: old(self).cursor_view().depth,
                next_depth: None,
            }),
            final(self).start_view() == old(self).start_view(),
            *final(self).deck == *final(c.deck),
            *final(final(self).deck) == *final(old(self).deck),
    {
        let start = self.deck.len();
        DeckWriter { deck: self.deck, cursor: self.cursor.child(), start }
    }

    pub fn depth(&self) -> (r: u8)
        ensures
            r == self.cursor_view().depth,
    {
        self.cursor.depth()
    }

    /// Pushes an item; the first item pushed opens the pending groups.
    pub fn push(&mut self, item: T)
        requires
            old(self).wf(),
        ensures
            final(self).wf(),
            final(self).deck_view().item_seq() == old(self).deck_view().item_seq().push(item),
            final(self).deck_view().mark_seq() == marks_after_push(
                old(self).deck_view().mark_seq(),
                old(self).deck_view().item_seq().len() as int,
                old(self).cursor_view().push_depth(),
            ),
            final(self).cursor_view() == (WriteCursor {
                depth: old(self).cursor_view().depth,
                next_depth: None,
            }),
            final(self).start_view() == old(self).start_view(),
            *final(final(self).deck) == *final(old(self).deck),
    {
        let d = match self.cursor.next_depth.take() {
            Some(d) => d,
            None => 0u8,
        };
        self.deck.push(item, d);
    }

    /// Appends items as one run; the pending groups are opened first.
    pub fn extend_from_slice(&mut self, items: &[T]) where T: Copy
        requires
            old(self).wf(),
        ensures
            final(self).wf(),
            final(self).deck_view().item_seq().len() == old(self).deck_view().item_seq().len() + items@.len(),
            forall|i: int|
                0 <= i < old(self).deck_view().item_seq().len() ==> #[trigger] final(self).deck_view().item_seq()[i] == old(self).deck_view().item_seq()[i],
            forall|i: int|
                0 <= i < items@.len() ==> cloned::<T>(
                    items@[i],
                    #[trigger] final(self).deck_view().item_seq()[old(self).deck_view().item_seq().len() + i],
                ),
            final(self).deck_view().mark_seq() == marks_after_push(
                old(self).deck_view().mark_seq(),
                old(self).deck_view().item_seq().len() as int,
                old(self).cursor_view().push_depth(),
            ),
            final(self).cursor_view() == (WriteCursor {
                depth: old(self).cursor_view().depth,
                next_depth: None,
            }),
            final(self).start_view() == old(self).start_view(),
            *final(final(self).deck) == *final(old(self).deck),
    {
        let d = match self.cursor.next_depth.take() {
            Some(d) => d,
            None => 0u8,
        };
        self.deck.start_new_arr(d);
        self.deck.extend_items(items);
    }

    /// Appends the items of `items` as one run (an empty run still opens the
    /// pending groups).
    pub fn extend(&mut self, items: Vec<T>) where T: Copy
        requires
            old(self).wf(),
        ensures
            final(self).wf(),
            final(self).deck_view().item_seq().len() == old(self).deck_view().item_seq().len() + items@.len(),
            forall|i: int|
                0 <= i < old(self).deck_view().item_seq().len() ==> #[trigger] final(self).deck_view().item_seq()[i] == old(self).deck_view().item_seq()[i],
            forall|i: int|
                0 <= i < items@.len() ==> cloned::<T>(
                    items@[i],
                    #[trigger] final(self).deck_view().item_seq()[old(self).deck_view().item_seq().len() + i],
                ),
            final(self).deck_view().mark_seq() == marks_after_push(
                old(self).deck_view().mark_seq(),
                old(self).deck_view().item_seq().len() as int,
                old(self).cursor_view().push_depth(),
            ),
            final(self).cursor_view() == (WriteCursor {
                depth: old(self).cursor_view().depth,
                next_depth: None,
            }),
            final(self).start_view() == old(self).start_view(),
            *final(final(self).deck) == *final(old(self).deck),
    {
        self.extend_from_slice(items.as_slice());
    }

    /// Pushes a default item, like `push`, and hands it out for writing.
    pub fn push_default_mut(&mut self) -> (r: &mut T)
        requires
            old(self).wf(),
        ensures
            final(self).wf(),
            final(self).deck_view().item_seq() == old(self).deck_view().item_seq().push(*final(r)),
            final(self).deck_view().mark_seq() == marks_after_push(
                old(self).deck_view().mark_seq(),
                old(self).deck_view().item_seq().len() as int,
                old(self).cursor_view().push_depth(),
            ),
            final(self).cursor_view() == (WriteCursor {
                depth: old(self).cursor_view().depth,
                next_depth: None,
            }),
            final(self).start_view() == old(self).start_view(),
            *final(final(self).deck) == *final(old(self).deck),
    {
        let i = self.deck.len();
        self.push(T::default());
        self.deck.item_mut(i)
    }

    /// Number of items written through this writer and its children.
    pub fn len(&self) -> (r: usize)
        requires
            self.wf(),
        ensures
            r == self.deck_view().item_seq().len() - self.start_view(),
    {
        self.deck.len() - self.start
    }

    pub fn is_empty(&self) -> (r: bool)
        requires
            self.wf(),
        ensures
            r == (self.deck_view().item_seq().len() == self.start_view()),
    {
        self.len() == 0
    }

    /// The items written through this writer and its children.
    pub fn as_slice(&self) -> (r: &[T])
        requires
            self.wf(),
        ensures
            r@ == self.deck_view().item_seq().subrange(
                self.start_view(),
                self.deck_view().item_seq().len() as int,
            ),
    {
        let items = self.deck.items();
        &items[self.start..items.len()]
    }

    /// The items written through this writer and its children, for
    /// modification in place.
    pub fn as_slice_mut(&mut self) -> (r: &mut [T])
        requires
            old(self).wf(),
        ensures
            r@ == old(self).deck_view().item_seq().subrange(
                old(self).start_view(),
                old(self).deck_view().item_seq().len() as int,
            ),
            final(self).deck_view().item_seq() == old(self).deck_view().item_seq().subrange(
                0,
                old(self).start_view(),
            ) + final(r)@,
            final(self).deck_view().mark_seq() == old(self).deck_view().mark_seq(),
            final(self).cursor_view() == old(self).cursor_view(),
            final(self).start_view() == old(self).start_view(),
            *final(final(self).deck) == *final(old(self).deck),
            final(r)@.len() == r@.len() ==> final(self).wf(),
    {
        let start = self.start;
        let items = self.deck.items_mut();
        let (_, rest) = items.split_at_mut(start);
        rest
    }

    /// Opens the groups still pending, so that a writer that wrote nothing
    /// leaves an empty group behind. Call it when done with the writer.
    pub fn finish(&mut self)
        requires
            old(self).wf(),
        ensures
            final(self).wf(),
            final(self).deck_view().item_seq() == old(self).deck_view().item_seq(),
            final(self).deck_view().mark_seq() == marks_after_push(
                old(self).deck_view().mark_seq(),
                old(self).deck_view().item_seq().len() as int,
                old(self).cursor_view().push_depth(),
            ),
            final(self).cursor_view() == (WriteCursor {
                depth: old(self).cursor_view().depth,
                next_depth: None,
            }),
            final(self).start_view() == old(self).start_view(),
            *final(final(self).deck) == *final(old(self).deck),
    {
        match self.cursor.next_depth.take() {
            Some(d) => self.deck.start_new_arr(d),
            None => {},
        }
    }
}

impl<T> Deck<T> where T: Default {
    /// A writer appending groups at `depth` to this deck.
    pub fn writer(&mut self, depth: u8) -> (w: DeckWriter<'_, T>)
        requires
            old(self).wf(),
        ensures
            w.wf(),
            w.deck_view() == *old(self),
            w.cursor_view() == (WriteCursor { depth, next_depth: Some(depth) }),
            w.start_view() == old(self).item_seq().len(),
            *final(self) == *final(w.deck),
    {
        let start = self.len();
        DeckWriter { deck: self, cursor: WriteCursor { depth, next_depth: Some(depth) }, start }
    }
}

} // verus!
