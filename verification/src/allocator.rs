//! Free-list recycling of entity indices.

use vstd::prelude::*;

verus! {

use std::collections::VecDeque;
use vstd::set_lib::lemma_len_subset;
use vstd::set_lib::lemma_int_range;
use vstd::set_lib::set_int_range;

/// Handles allocation of entity indices: a freed index is recycled
/// first-in first-out; when no freed index is available a monotonic
/// counter supplies a fresh one.
pub struct EntityIndexAllocator {
    /// The queue of freed indices, oldest first.
    free: VecDeque<u32>,
    /// The next never-used index to hand out when `free` is empty.
    next: u32,
}

impl Default for EntityIndexAllocator {
    /// Creates a new, empty `EntityIndexAllocator`.
    fn default() -> (r: Self)
        ensures
            r.inv(),
            r.free_list() == Seq::<u32>::empty(),
            r.next_index() == 0,
    {
        EntityIndexAllocator { free: VecDeque::new(), next: 0 }
    }
}

impl EntityIndexAllocator {
    /// The queue of freed indices, oldest first.
    pub closed spec fn free_list(self) -> Seq<u32> {
        self.free@
    }

    /// The next never-used index.
    pub closed spec fn next_index(self) -> u32 {
        self.next
    }

    /// Every freed index was handed out before, and no index is freed twice
    /// without being re-allocated in between.
    pub open spec fn inv(self) -> bool {
        &&& self.free_list().no_duplicates()
        &&& forall|i: int|
            0 <= i < self.free_list().len() ==> self.free_list()[i] < self.next_index()
    }

    /// The number of indices currently handed out and not freed.
    pub open spec fn allocated_count(self) -> int {
        self.next_index() - self.free_list().len()
    }

    /// Creates a new, empty `EntityIndexAllocator`.
    pub fn new() -> (r: Self)
        ensures
            r.inv(),
            r.free_list() == Seq::<u32>::empty(),
            r.next_index() == 0,
    {
        EntityIndexAllocator { free: VecDeque::new(), next: 0 }
    }

    /// Hands out an entity index: the oldest freed index if one exists,
    /// otherwise a fresh counter value.
    pub fn allocate(&mut self) -> (index: u32)
        requires
            old(self).inv(),
            old(self).next_index() < u32::MAX,
        ensures
            final(self).inv(),
            old(self).free_list().len() > 0 ==> {
                &&& index == old(self).free_list()[0]
                &&& final(self).free_list() == old(self).free_list().subrange(
                    1,
                    old(self).free_list().len() as int,
                )
                &&& final(self).next_index() == old(self).next_index()
            },
            old(self).free_list().len() == 0 ==> {
                &&& index == old(self).next_index()
                &&& final(self).free_list() == old(self).free_list()
                &&& final(self).next_index() == old(self).next_index() + 1
            },
            final(self).allocated_count() == old(self).allocated_count() + 1,
            index < final(self).next_index(),
            !final(self).free_list().contains(index),
    {
        match self.free.pop_front() {
            Some(index) => {
                proof {
                    assert(old(self).free_list().subrange(1, old(self).free_list().len() as int)
                        =~= self.free@);
                    assert forall|j: int| 0 <= j < self.free@.len() implies self.free@[j]
                        != index by {
                        assert(old(self).free_list()[j + 1] != old(self).free_list()[0]);
                    }
                }
                index
            },
            None => {
                let index = self.next;
                self.next = self.next + 1;
                index
            },
        }
    }

    /// Frees an entity index so that `allocate` can recycle it.
    ///
    /// Freeing an index that was never allocated, or one that is already
    /// free, is a caller contract violation and is excluded here.
    pub fn free(&mut self, index: u32)
        requires
            old(self).inv(),
            index < old(self).next_index(),
            !old(self).free_list().contains(index),
        ensures
            final(self).inv(),
            final(self).free_list() == old(self).free_list().push(index),
            final(self).next_index() == old(self).next_index(),
            final(self).allocated_count() == old(self).allocated_count() - 1,
    {
        self.free.push_back(index);
        proof {
            assert(self.free@.drop_last() =~= old(self).free_list());
        }
    }

    /// Returns the total number of indices allocated and not yet freed.
    pub fn allocated(&self) -> (count: usize)
        requires
            self.inv(),
        ensures
            count == self.allocated_count(),
    {
        proof {
            self.lemma_free_len_bounded();
        }
        self.next as usize - self.free.len()
    }

    /// The free queue can never hold more indices than were ever handed out.
    proof fn lemma_free_len_bounded(self)
        requires
            self.inv(),
        ensures
            self.free_list().len() <= self.next_index(),
    {
        let ints = self.free_list().map_values(|x: u32| x as int);
        assert(ints.no_duplicates()) by {
            assert forall|i: int, j: int|
                0 <= i < ints.len() && 0 <= j < ints.len() && i != j implies ints[i]
                != ints[j] by {
                assert(self.free_list()[i] != self.free_list()[j]);
            }
        }
        ints.unique_seq_to_set();
        let range = set_int_range(0, self.next_index() as int);
        lemma_int_range(0, self.next_index() as int);
        assert(ints.to_set().subset_of(range)) by {
            assert forall|x: int| ints.to_set().contains(x) implies range.contains(x) by {
                let i = choose|i: int| 0 <= i < ints.len() && ints[i] == x;
                assert(self.free_list()[i] < self.next_index());
            }
        }
        lemma_len_subset(ints.to_set(), range);
    }
}

} // verus!
