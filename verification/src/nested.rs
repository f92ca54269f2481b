//! A list of lists stored in one buffer, with the end offset of each list.
use vstd::prelude::*;

use crate::error::DagError;

verus! {

/// Lists of `T` in one buffer: list `k` runs from the end of list `k - 1`
/// to `offsets[k]`.
pub struct NestedVec<T> {
    items: Vec<T>,
    offsets: Vec<usize>,
}

impl<T> Default for NestedVec<T> {
    fn default() -> (r: Self)
        ensures
            r.wf(),
            r.lists().len() == 0,
    {
        NestedVec { items: Vec::new(), offsets: Vec::new() }
    }
}

impl<T> NestedVec<T> {
    /// The offsets never decrease and the last one is the end of the buffer.
    pub closed spec fn wf(&self) -> bool {
        &&& forall|a: int, b: int|
            0 <= a <= b < self.offsets@.len() ==> #[trigger] self.offsets@[a] <= #[trigger] self.offsets@[b]
        &&& self.offsets@.len() > 0 ==> self.offsets@.last() == self.items@.len()
        &&& self.offsets@.len() == 0 ==> self.items@.len() == 0
    }

    /// Where list `k` starts.
    closed spec fn start_of(&self, k: int) -> int {
        if k == 0 {
            0
        } else {
            self.offsets@[k - 1] as int
        }
    }

    /// The lists, in order.
    pub closed spec fn lists(&self) -> Seq<Seq<T>> {
        Seq::new(
            self.offsets@.len(),
            |k: int| self.items@.subrange(self.start_of(k), self.offsets@[k] as int),
        )
    }

    /// Appends a list holding the items of `slice`.
    pub fn push_slice(&mut self, slice: &[T]) where T: Copy
        requires
            old(self).wf(),
        ensures
            final(self).wf(),
            final(self).lists() == old(self).lists().push(slice@),
    {
        let ghost old_items = self.items@;
        let mut k: usize = 0;
        while k < slice.len()
            invariant
                0 <= k <= slice@.len(),
                self.items@ == old_items + slice@.subrange(0, k as int),
                self.offsets == old(self).offsets,
                old(self).items@ == old_items,
            decreases slice@.len() - k,
        {
            self.items.push(slice[k]);
            proof {
                assert(slice@.subrange(0, k + 1) == slice@.subrange(0, k as int).push(slice@[k as int]));
            }
            k = k + 1;
        }
        proof {
            assert(slice@.subrange(0, slice@.len() as int) == slice@);
        }
        let end = self.items.len();
        self.offsets.push(end);
        proof {
            let n = old(self).offsets@.len();
            assert forall|a: int, b: int|
                0 <= a <= b < self.offsets@.len() implies #[trigger] self.offsets@[a] <= #[trigger] self.offsets@[b] by {
                if b == n && a < n {
                    assert(old(self).offsets@[a] <= old(self).offsets@[n - 1]);
                }
            }
            assert forall|j: int| 0 <= j < n implies #[trigger] self.lists()[j] == old(self).lists()[j] by {
                assert(self.start_of(j) == old(self).start_of(j));
                if j > 0 {
                    assert(old(self).offsets@[j - 1] <= old(self).offsets@[n - 1]);
                }
                assert(old(self).offsets@[j] <= old(self).offsets@[n - 1]);
                assert(self.items@.subrange(self.start_of(j), self.offsets@[j] as int) =~= old_items.subrange(
                    old(self).start_of(j),
                    old(self).offsets@[j] as int,
                ));
            }
            assert(self.start_of(n as int) == old_items.len());
            assert(self.lists()[n as int] =~= slice@);
            assert(self.lists() =~= old(self).lists().push(slice@));
        }
    }

    /// List `i`; `ReadError` when there is no such list.
    pub fn get(&self, i: usize) -> (r: Result<&[T], DagError>)
        requires
            self.wf(),
        ensures
            match r {
                Ok(s) => i < self.lists().len() && s@ == self.lists()[i as int],
                Err(e) => i >= self.lists().len() && e == DagError::ReadError,
            },
    {
        if i >= self.offsets.len() {
            return Err(DagError::ReadError);
        }
        let end = self.offsets[i];
        let start = if i == 0 {
            0
        } else {
            self.offsets[i - 1]
        };
        proof {
            if i > 0 {
                assert(self.offsets@[i - 1] <= self.offsets@[i as int]);
            }
            assert(self.offsets@[i as int] <= self.offsets@.last());
        }
        Ok(slice_range(self.items.as_slice(), start, end))
    }

    /// Removes every list.
    pub fn clear(&mut self)
        ensures
            final(self).wf(),
            final(self).lists().len() == 0,
    {
        self.items.clear();
        self.offsets.clear();
    }
}

/// The items of `s` from `start` to `end`.
fn slice_range<T>(s: &[T], start: usize, end: usize) -> (r: &[T])
    requires
        start <= end <= s@.len(),
    ensures
        r@ == s@.subrange(start as int, end as int),
{
    let (head, _) = s.split_at(end);
    let (_, tail) = head.split_at(start);
    tail
}

} // verus!
