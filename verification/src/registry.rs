//! Values kept by handle id, for the host to hand out and look up again.
use vstd::prelude::*;

use std::collections::HashMap;

use crate::error::Error;

verus! {

broadcast use vstd::std_specs::hash::group_hash_axioms;

/// Every id of `ids` has an entry in `m`.
pub open spec fn all_present<V>(m: Map<u64, V>, ids: Seq<u64>) -> bool {
    forall|i: int| 0 <= i < ids.len() ==> m.contains_key(#[trigger] ids[i])
}

/// No id occurs twice in `ids`.
pub open spec fn all_distinct(ids: Seq<u64>) -> bool {
    forall|i: int, j: int| 0 <= i < j < ids.len() ==> #[trigger] ids[i] != #[trigger] ids[j]
}

/// Freeing the id just stored under gives the registry back as it was,
/// when the id was free before.
pub proof fn law_free_undoes_alloc<V>(entries: Map<u64, V>, id: u64, value: V)
    requires
        !entries.contains_key(id),
    ensures
        entries.insert(id, value).remove(id) == entries,
{
    assert(entries.insert(id, value).remove(id) =~= entries);
}

/// The registry of decks, by handle id.
pub struct DeckRegistry<V> {
    handles: HashMap<u64, V>,
}

impl<V> DeckRegistry<V> {
    /// The entries, by id.
    pub closed spec fn entries(&self) -> Map<u64, V> {
        self.handles@
    }

    /// An empty registry.
    pub fn new() -> (r: Self)
        ensures
            r.entries() == Map::<u64, V>::empty(),
    {
        DeckRegistry { handles: HashMap::new() }
    }

    /// Stores `value` under `id`, in place of what was stored there.
    pub fn alloc_with_value(&mut self, id: u64, value: V)
        ensures
            final(self).entries() == old(self).entries().insert(id, value),
    {
        self.handles.insert(id, value);
    }

    /// Drops the entry of `id`; `InvalidHandle` when there is none.
    pub fn free(&mut self, id: u64) -> (r: Result<(), Error>)
        ensures
            final(self).entries() == old(self).entries().remove(id),
            r == (if old(self).entries().contains_key(id) {
                Ok::<(), Error>(())
            } else {
                Err(Error::InvalidHandle)
            }),
    {
        match self.handles.remove(&id) {
            Some(_) => Ok(()),
            None => Err(Error::InvalidHandle),
        }
    }

    /// Number of entries.
    pub fn count(&self) -> (r: Result<usize, Error>)
        ensures
            r == Ok::<usize, Error>(self.entries().len() as usize),
    {
        Ok(self.handles.len())
    }

    /// Checks that every id has an entry.
    fn find_all(&self, ids: &[u64]) -> (r: bool)
        ensures
            r == all_present(self.entries(), ids@),
    {
        let mut k: usize = 0;
        while k < ids.len()
            invariant
                0 <= k <= ids@.len(),
                forall|i: int| 0 <= i < k ==> self.entries().contains_key(#[trigger] ids@[i]),
            decreases ids@.len() - k,
        {
            if !self.handles.contains_key(&ids[k]) {
                assert(!self.entries().contains_key(ids@[k as int]));
                return false;
            }
            k = k + 1;
        }
        true
    }

    /// Calls `callback` on the values of `ids`, in the order of `ids`.
    /// `InvalidHandle` when an id has no entry.
    pub fn with_refs<R, F: FnOnce(&[&V]) -> R>(&self, ids: &[u64], callback: F) -> (r: Result<R, Error>)
        requires
            forall|refs: &[&V]| call_requires(callback, (refs,)),
        ensures
            match r {
                Ok(v) => {
                    &&& all_present(self.entries(), ids@)
                    &&& exists|refs: &[&V]|
                        {
                            &&& refs@.len() == ids@.len()
                            &&& forall|i: int| 0 <= i < ids@.len() ==> *(#[trigger] refs@[i]) == self.entries()[ids@[i]]
                            &&& call_ensures(callback, (refs,), v)
                        }
                },
                Err(e) => e == Error::InvalidHandle && !all_present(self.entries(), ids@),
            },
    {
        if !self.find_all(ids) {
            return Err(Error::InvalidHandle);
        }
        let mut refs: Vec<&V> = Vec::new();
        let mut k: usize = 0;
        while k < ids.len()
            invariant
                0 <= k <= ids@.len(),
                all_present(self.entries(), ids@),
                refs@.len() == k,
                forall|i: int| 0 <= i < k ==> *(#[trigger] refs@[i]) == self.entries()[ids@[i]],
            decreases ids@.len() - k,
        {
            assert(self.entries().contains_key(ids@[k as int]));
            match self.handles.get(&ids[k]) {
                Some(v) => refs.push(v),
                None => {},
            }
            k = k + 1;
        }
        let v = callback(refs.as_slice());
        Ok(v)
    }

    /// Calls `callback` on the values of `ids`, in the order of `ids`, and
    /// stores back what it leaves there. `InvalidHandle` when an id has no
    /// entry; `ConcurrencyProblem` when an id occurs twice, as a value cannot
    /// be lent out twice at once.
    pub fn with_mut<R, F: FnOnce(&mut [V]) -> R>(&mut self, ids: &[u64], callback: F) -> (r: Result<R, Error>)
        requires
            forall|vals: &mut [V]| call_requires(callback, (vals,)),
        ensures
            match r {
                Ok(v) => {
                    &&& all_present(old(self).entries(), ids@)
                    &&& all_distinct(ids@)
                    &&& exists|vals: &mut [V]|
                        {
                            &&& vals@.len() == ids@.len()
                            &&& forall|i: int| 0 <= i < ids@.len() ==> (#[trigger] vals@[i]) == old(self).entries()[ids@[i]]
                            &&& call_ensures(callback, (vals,), v)
                            &&& final(vals)@.len() == ids@.len() ==> {
                                &&& final(self).entries().dom() == old(self).entries().dom()
                                &&& forall|k: u64|
                                    old(self).entries().contains_key(k) && !ids@.contains(k)
                                        ==> #[trigger] final(self).entries()[k] == old(self).entries()[k]
                                &&& forall|i: int|
                                    0 <= i < ids@.len() ==> final(self).entries()[ids@[i]] == (#[trigger] final(vals)@[i])
                            }
                        }
                },
                Err(e) => {
                    &&& final(self).entries() == old(self).entries()
                    &&& if all_present(old(self).entries(), ids@) {
                        e == Error::ConcurrencyProblem && !all_distinct(ids@)
                    } else {
                        e == Error::InvalidHandle
                    }
                },
            },
    {
        if !self.find_all(ids) {
            return Err(Error::InvalidHandle);
        }
        let n = ids.len();
        let mut k: usize = 0;
        while k < n
            invariant
                n == ids@.len(),
                0 <= k <= n,
                self.entries() == old(self).entries(),
                all_present(old(self).entries(), ids@),
                forall|i: int, j: int| 0 <= i < j < k ==> #[trigger] ids@[i] != #[trigger] ids@[j],
            decreases n - k,
        {
            let mut j: usize = 0;
            while j < k
                invariant
                    n == ids@.len(),
                    0 <= j <= k < n,
                    self.entries() == old(self).entries(),
                    all_present(old(self).entries(), ids@),
                    forall|i: int| 0 <= i < j ==> #[trigger] ids@[i] != ids@[k as int],
                decreases k - j,
            {
                if ids[j] == ids[k] {
                    assert(!all_distinct(ids@)) by {
                        assert(ids@[j as int] == ids@[k as int]);
                    }
                    return Err(Error::ConcurrencyProblem);
                }
                j = j + 1;
            }
            k = k + 1;
        }
        let ghost before = self.entries();
        let mut vals: Vec<V> = Vec::new();
        let mut k: usize = 0;
        while k < n
            invariant
                n == ids@.len(),
                0 <= k <= n,
                before == old(self).entries(),
                all_present(before, ids@),
                all_distinct(ids@),
                vals@.len() == k,
                forall|i: int| 0 <= i < k ==> (#[trigger] vals@[i]) == before[ids@[i]],
                forall|key: u64|
                    #[trigger] self.entries().contains_key(key) == (before.contains_key(key) && !ids@.subrange(
                        0,
                        k as int,
                    ).contains(key)),
                forall|key: u64| #[trigger] self.entries().contains_key(key) ==> self.entries()[key] == before[key],
            decreases n - k,
        {
            let ghost prev = self.entries();
            let ghost id = ids@[k as int];
            let ghost pre = ids@.subrange(0, k as int);
            let ghost post = ids@.subrange(0, k + 1);
            assert(!ids@.subrange(0, k as int).contains(id)) by {
                if ids@.subrange(0, k as int).contains(id) {
                    let w = choose|w: int| 0 <= w < k && ids@.subrange(0, k as int)[w] == id;
                    assert(ids@[w] == ids@.subrange(0, k as int)[w]);
                }
            }
            assert(before.contains_key(id));
            assert(prev.contains_key(id));
            match self.handles.remove(&ids[k]) {
                Some(v) => {
                    vals.push(v);
                },
                None => {},
            }
            assert forall|key: u64|
                #[trigger] self.entries().contains_key(key) == (before.contains_key(key) && !ids@.subrange(
                    0,
                    k + 1,
                ).contains(key)) by {
                if ids@.subrange(0, k + 1).contains(key) && key != id {
                    let w = choose|w: int| 0 <= w < k + 1 && post[w] == key;
                    assert(ids@.subrange(0, k as int)[w] == key);
                }
                if ids@.subrange(0, k as int).contains(key) {
                    let w = choose|w: int| 0 <= w < k && pre[w] == key;
                    assert(ids@.subrange(0, k + 1)[w] == key);
                }
                if key == id {
                    assert(ids@.subrange(0, k + 1)[k as int] == key);
                }
            }
            k = k + 1;
        }
        let slice = vals.as_mut_slice();
        let v = callback(slice);
        if vals.len() == n {
            let ghost after_vals = vals@;
            assert(ids@.subrange(0, n as int) =~= ids@);
            assert forall|key: u64|
                before.contains_key(key) && !ids@.contains(key) implies #[trigger] self.entries()[key]
                    == before[key] by {
                assert(self.entries().contains_key(key));
            }
            let mut k: usize = n;
            while k > 0
                invariant
                    n == ids@.len(),
                    0 <= k <= n,
                    before == old(self).entries(),
                    all_distinct(ids@),
                    after_vals.len() == n,
                    vals@ == after_vals.subrange(0, k as int),
                    all_present(before, ids@),
                    forall|key: u64|
                        #[trigger] self.entries().contains_key(key) == (before.contains_key(key) && !ids@.subrange(
                            0,
                            k as int,
                        ).contains(key)),
                    forall|key: u64|
                        before.contains_key(key) && !ids@.contains(key) ==> #[trigger] self.entries()[key]
                            == before[key],
                    forall|i: int| k <= i < n ==> self.entries()[#[trigger] ids@[i]] == after_vals[i],
                decreases k,
            {
                k = k - 1;
                let ghost id = ids@[k as int];
                let ghost prev = self.entries();
                let ghost pre = ids@.subrange(0, k as int);
                let ghost post = ids@.subrange(0, k + 1);
                match vals.pop() {
                    Some(val) => {
                        self.handles.insert(ids[k], val);
                    },
                    None => {},
                }
                assert forall|key: u64|
                    #[trigger] self.entries().contains_key(key) == (before.contains_key(key) && !ids@.subrange(
                        0,
                        k as int,
                    ).contains(key)) by {
                    if ids@.subrange(0, k + 1).contains(key) && key != id {
                        let w = choose|w: int| 0 <= w < k + 1 && post[w] == key;
                        assert(ids@.subrange(0, k as int)[w] == key);
                    }
                    if ids@.subrange(0, k as int).contains(key) {
                        let w = choose|w: int| 0 <= w < k && pre[w] == key;
                        assert(ids@.subrange(0, k + 1)[w] == key);
                        assert(ids@[w] == key);
                        assert(w != k);
                    }
                    if key == id {
                        assert(ids@.subrange(0, k + 1)[k as int] == key);
                        assert(!ids@.subrange(0, k as int).contains(key)) by {
                            if ids@.subrange(0, k as int).contains(key) {
                                let w = choose|w: int| 0 <= w < k && pre[w] == key;
                                assert(ids@[w] == key);
                            }
                        }
                    }
                }
                assert forall|key: u64|
                    before.contains_key(key) && !ids@.contains(key) implies #[trigger] self.entries()[key]
                        == before[key] by {
                    assert(key != id);
                }
                assert forall|i: int| k <= i < n implies self.entries()[#[trigger] ids@[i]] == after_vals[i] by {
                    if i != k {
                        assert(ids@[i] != ids@[k as int]);
                    }
                }
            }
            assert(self.entries().dom() =~= before.dom()) by {
                assert forall|key: u64| before.contains_key(key) implies self.entries().contains_key(key) by {
                    assert(!ids@.subrange(0, 0).contains(key));
                }
            }
        }
        Ok(v)
    }
}

} // verus!
