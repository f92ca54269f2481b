//! Resources behind `u64` context ids.
//!
//! Many parts of the ABI use a `u64` ctx to recognise the caller. The host
//! allocates a resource for a ctx, passes the ctx to the plugin, and gets the
//! resource back by that ctx inside the callback. Freed ids are handed out
//! again, last freed first, so a slot keeps what it allocated.
use vstd::prelude::*;

use crate::error::Error;

verus! {

/// Slots addressed by context ids, with a list of the ids that were freed.
pub struct ContextArena<T: Default> {
    slots: Vec<T>,
    free: Vec<u64>,
}

impl<T: Default> Default for ContextArena<T> {
    fn default() -> (r: Self)
        ensures
            r.slot_seq().len() == 0,
            r.free_seq().len() == 0,
    {
        ContextArena { slots: Vec::new(), free: Vec::new() }
    }
}

/// The id `insert` hands out on an arena with these slots and freed ids:
/// the last freed id, or a new slot when none is free. A freed id with no
/// slot behind it is refused.
pub open spec fn next_ctx<T>(slots: Seq<T>, free: Seq<u64>) -> Result<u64, Error> {
    if free.len() > 0 {
        if (free.last() as usize) < slots.len() {
            Ok(free.last())
        } else {
            Err(Error::InvalidContext)
        }
    } else {
        Ok(slots.len() as u64)
    }
}

/// After slot `ctx` is consumed, the next insert hands out `ctx` again.
pub proof fn law_consume_then_insert_reuses<T>(slots: Seq<T>, free: Seq<u64>, ctx: u64)
    requires
        (ctx as usize) < slots.len(),
    ensures
        next_ctx(slots, free.push(ctx)) == Ok::<u64, Error>(ctx),
{
}

/// With no freed id, insert hands out the next new slot, so a fresh arena
/// hands out 0, 1, 2, ... in order.
pub proof fn law_fresh_ids_in_order<T>(slots: Seq<T>)
    ensures
        next_ctx(slots, Seq::<u64>::empty()) == Ok::<u64, Error>(slots.len() as u64),
{
}

/// `after` is `before` where only slot `i` may differ.
pub open spec fn same_but<T>(before: Seq<T>, after: Seq<T>, i: int) -> bool {
    &&& after.len() == before.len()
    &&& forall|j: int| 0 <= j < before.len() && j != i ==> #[trigger] after[j] == before[j]
}

impl<T: Default> ContextArena<T> {
    /// The values in the slots, by id.
    pub closed spec fn slot_seq(&self) -> Seq<T> {
        self.slots@
    }

    /// The freed ids, the next one to reuse last.
    pub closed spec fn free_seq(&self) -> Seq<u64> {
        self.free@
    }

    /// Takes the last freed id, or a new slot holding `T::default()`, and
    /// runs `init` on its value. A freed id that has no slot is put back and
    /// `InvalidContext` returned.
    pub fn insert<F: Fn(&mut T)>(&mut self, init: F) -> (r: Result<u64, Error>)
        requires
            forall|t: &mut T| call_requires(init, (t,)),
        ensures
            r == next_ctx(old(self).slot_seq(), old(self).free_seq()),
            match r {
                Ok(id) => if old(self).free_seq().len() > 0 {
                    &&& final(self).free_seq() == old(self).free_seq().drop_last()
                    &&& same_but(old(self).slot_seq(), final(self).slot_seq(), id as usize as int)
                    &&& exists|t: &mut T|
                        *t == old(self).slot_seq()[id as usize as int] && *final(t) == final(self).slot_seq()[id as usize as int] && call_ensures(init, (t,), ())
                } else {
                    &&& final(self).free_seq() == old(self).free_seq()
                    &&& final(self).slot_seq().len() == old(self).slot_seq().len() + 1
                    &&& final(self).slot_seq().subrange(0, old(self).slot_seq().len() as int) == old(self).slot_seq()
                    &&& exists|t: &mut T|
                        call_ensures(T::default, (), *t) && *final(t) == final(self).slot_seq()[old(self).slot_seq().len() as int]
                            && call_ensures(init, (t,), ())
                },
                Err(_) => {
                    &&& final(self).slot_seq() == old(self).slot_seq()
                    &&& final(self).free_seq() == old(self).free_seq()
                },
            },
    {
        match self.free.pop() {
            Some(last) => {
                match self.visit_mut(last, init) {
                    Ok(_) => Ok(last),
                    Err(e) => {
                        // The slot is still free.
                        self.free.push(last);
                        Err(e)
                    },
                }
            },
            None => {
                let idx = self.slots.len();
                let mut value = T::default();
                init(&mut value);
                self.slots.push(value);
                Ok(idx as u64)
            },
        }
    }

    /// Runs `vis` on the value of slot `ctx` and returns what it returned;
    /// `InvalidContext` when there is no such slot.
    pub fn visit_mut<R, F: Fn(&mut T) -> R>(&mut self, ctx: u64, vis: F) -> (r: Result<R, Error>)
        requires
            forall|t: &mut T| call_requires(vis, (t,)),
        ensures
            final(self).free_seq() == old(self).free_seq(),
            match r {
                Ok(v) => {
                    &&& (ctx as usize) < old(self).slot_seq().len()
                    &&& same_but(old(self).slot_seq(), final(self).slot_seq(), ctx as usize as int)
                    &&& exists|t: &mut T|
                        *t == old(self).slot_seq()[ctx as usize as int] && *final(t) == final(self).slot_seq()[ctx as usize as int] && call_ensures(vis, (t,), v)
                },
                Err(e) => {
                    &&& e == Error::InvalidContext
                    &&& (ctx as usize) >= old(self).slot_seq().len()
                    &&& final(self).slot_seq() == old(self).slot_seq()
                },
            },
    {
        let idx = ctx as usize;
        if idx < self.slots.len() {
            let v = vis(&mut self.slots[idx]);
            Ok(v)
        } else {
            Err(Error::InvalidContext)
        }
    }

    /// Runs `vis` on slot `ctx` like `visit_mut`, then frees the id.
    pub fn consume<R, F: Fn(&mut T) -> R>(&mut self, ctx: u64, vis: F) -> (r: Result<R, Error>)
        requires
            forall|t: &mut T| call_requires(vis, (t,)),
        ensures
            match r {
                Ok(v) => {
                    &&& (ctx as usize) < old(self).slot_seq().len()
                    &&& final(self).free_seq() == old(self).free_seq().push(ctx)
                    &&& same_but(old(self).slot_seq(), final(self).slot_seq(), ctx as usize as int)
                    &&& exists|t: &mut T|
                        *t == old(self).slot_seq()[ctx as usize as int] && *final(t) == final(self).slot_seq()[ctx as usize as int] && call_ensures(vis, (t,), v)
                },
                Err(e) => {
                    &&& e == Error::InvalidContext
                    &&& (ctx as usize) >= old(self).slot_seq().len()
                    &&& final(self).slot_seq() == old(self).slot_seq()
                    &&& final(self).free_seq() == old(self).free_seq()
                },
            },
    {
        match self.visit_mut(ctx, vis) {
            Ok(v) => {
                self.free.push(ctx);
                Ok(v)
            },
            Err(e) => Err(e),
        }
    }
}

/// The single-owner form of `ContextArena`: inserting and consuming take the
/// arena mutably. A freed id whose slot is missing is dropped from the free
/// list when `insert` meets it.
pub struct Arena<T: Default> {
    slots: Vec<T>,
    free: Vec<u64>,
}

impl<T: Default> Default for Arena<T> {
    fn default() -> (r: Self)
        ensures
            r.slot_seq().len() == 0,
            r.free_seq().len() == 0,
    {
        Arena { slots: Vec::new(), free: Vec::new() }
    }
}

impl<T: Default> Arena<T> {
    /// The values in the slots, by id.
    pub closed spec fn slot_seq(&self) -> Seq<T> {
        self.slots@
    }

    /// The freed ids, the next one to reuse last.
    pub closed spec fn free_seq(&self) -> Seq<u64> {
        self.free@
    }

    /// Takes the last freed id, or a new slot holding `T::default()`, and
    /// runs `init` on its value. A freed id that has no slot is taken off the
    /// free list and `InvalidContext` returned.
    pub fn insert<F: Fn(&mut T)>(&mut self, init: F) -> (r: Result<u64, Error>)
        requires
            forall|t: &mut T| call_requires(init, (t,)),
        ensures
            r == next_ctx(old(self).slot_seq(), old(self).free_seq()),
            match r {
                Ok(id) => if old(self).free_seq().len() > 0 {
                    &&& final(self).free_seq() == old(self).free_seq().drop_last()
                    &&& same_but(old(self).slot_seq(), final(self).slot_seq(), id as usize as int)
                    &&& exists|t: &mut T|
                        *t == old(self).slot_seq()[id as usize as int] && *final(t) == final(self).slot_seq()[id as usize as int]
                            && call_ensures(init, (t,), ())
                } else {
                    &&& final(self).free_seq() == old(self).free_seq()
                    &&& final(self).slot_seq().len() == old(self).slot_seq().len() + 1
                    &&& final(self).slot_seq().subrange(0, old(self).slot_seq().len() as int) == old(self).slot_seq()
                    &&& exists|t: &mut T|
                        call_ensures(T::default, (), *t) && *final(t) == final(self).slot_seq()[old(self).slot_seq().len() as int]
                            && call_ensures(init, (t,), ())
                },
                Err(_) => {
                    &&& final(self).slot_seq() == old(self).slot_seq()
                    &&& final(self).free_seq() == old(self).free_seq().drop_last()
                },
            },
    {
        match self.free.pop() {
            Some(last) => {
                match self.visit_mut(last, init) {
                    Ok(_) => Ok(last),
                    Err(e) => Err(e),
                }
            },
            None => {
                let idx = self.slots.len();
                let mut value = T::default();
                init(&mut value);
                self.slots.push(value);
                Ok(idx as u64)
            },
        }
    }

    /// Runs `vis` on the value of slot `ctx` and returns what it returned;
    /// `InvalidContext` when there is no such slot.
    pub fn visit_mut<R, F: Fn(&mut T) -> R>(&mut self, ctx: u64, vis: F) -> (r: Result<R, Error>)
        requires
            forall|t: &mut T| call_requires(vis, (t,)),
        ensures
            final(self).free_seq() == old(self).free_seq(),
            match r {
                Ok(v) => {
                    &&& (ctx as usize) < old(self).slot_seq().len()
                    &&& same_but(old(self).slot_seq(), final(self).slot_seq(), ctx as usize as int)
                    &&& exists|t: &mut T|
                        *t == old(self).slot_seq()[ctx as usize as int] && *final(t) == final(self).slot_seq()[ctx as usize as int]
                            && call_ensures(vis, (t,), v)
                },
                Err(e) => {
                    &&& e == Error::InvalidContext
                    &&& (ctx as usize) >= old(self).slot_seq().len()
                    &&& final(self).slot_seq() == old(self).slot_seq()
                },
            },
    {
        let idx = ctx as usize;
        if idx < self.slots.len() {
            let v = vis(&mut self.slots[idx]);
            Ok(v)
        } else {
            Err(Error::InvalidContext)
        }
    }

    /// Frees the id `ctx`, then runs `vis` on its slot like `visit_mut`.
    /// The id is freed whether or not it has a slot.
    pub fn consume<R, F: Fn(&mut T) -> R>(&mut self, ctx: u64, vis: F) -> (r: Result<R, Error>)
        requires
            forall|t: &mut T| call_requires(vis, (t,)),
        ensures
            final(self).free_seq() == old(self).free_seq().push(ctx),
            match r {
                Ok(v) => {
                    &&& (ctx as usize) < old(self).slot_seq().len()
                    &&& same_but(old(self).slot_seq(), final(self).slot_seq(), ctx as usize as int)
                    &&& exists|t: &mut T|
                        *t == old(self).slot_seq()[ctx as usize as int] && *final(t) == final(self).slot_seq()[ctx as usize as int]
                            && call_ensures(vis, (t,), v)
                },
                Err(e) => {
                    &&& e == Error::InvalidContext
                    &&& (ctx as usize) >= old(self).slot_seq().len()
                    &&& final(self).slot_seq() == old(self).slot_seq()
                },
            },
    {
        self.free.push(ctx);
        self.visit_mut(ctx, vis)
    }
}

} // verus!
