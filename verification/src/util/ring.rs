//! A history of bounded length.

use std::collections::VecDeque;
use vstd::prelude::*;

verus! {

/// The last `capacity` items pushed, oldest first.
///
/// The capacity can be held below what the ring was built with and let back
/// up to it, so one ring can stand in for several sizes without being rebuilt.
pub struct LocalRingBuffer<T> {
    items: VecDeque<T>,
    capacity: usize,
    max_capacity: usize,
}

impl<T> View for LocalRingBuffer<T> {
    type V = Seq<T>;

    closed spec fn view(&self) -> Seq<T> {
        self.items@
    }
}

/// The newest `n` items of `items`, or all of them if there are fewer.
pub open spec fn newest<T>(items: Seq<T>, n: int) -> Seq<T> {
    if n >= items.len() {
        items
    } else {
        items.skip(items.len() - n)
    }
}

impl<T> LocalRingBuffer<T> {
    /// How many items the ring keeps.
    pub closed spec fn spec_capacity(&self) -> nat {
        self.capacity as nat
    }

    /// How many items the ring was built to keep.
    pub closed spec fn spec_max_capacity(&self) -> nat {
        self.max_capacity as nat
    }

    /// A ring keeps at least one item, and never more than it was built for.
    pub open spec fn wf(&self) -> bool {
        &&& 0 < self.spec_capacity() <= self.spec_max_capacity()
        &&& self@.len() <= self.spec_capacity()
    }

    /// A ring keeping `capacity` items.
    pub fn new(capacity: usize) -> (ring: Self)
        requires
            capacity > 0,
        ensures
            ring.wf(),
            ring@ == Seq::<T>::empty(),
            ring.spec_capacity() == capacity,
            ring.spec_max_capacity() == capacity,
    {
        Self { items: VecDeque::new(), capacity, max_capacity: capacity }
    }

    /// Add an item, handing back the oldest one if it has to go for it.
    pub fn push(&mut self, item: T) -> (displaced: Option<T>)
        requires
            old(self).wf(),
        ensures
            final(self).wf(),
            final(self).spec_capacity() == old(self).spec_capacity(),
            final(self).spec_max_capacity() == old(self).spec_max_capacity(),
            final(self)@ == newest(old(self)@.push(item), old(self).spec_capacity() as int),
            displaced == if old(self)@.len() == old(self).spec_capacity() {
                Some(old(self)@[0])
            } else {
                None
            },
    {
        let displaced = if self.items.len() == self.capacity {
            self.items.pop_front()
        } else {
            None
        };
        self.items.push_back(item);
        assert(self@ =~= newest(old(self)@.push(item), old(self).spec_capacity() as int));
        displaced
    }

    /// Item `n`, counting from the oldest.
    pub fn get(&self, n: usize) -> (item: &T)
        requires
            n < self@.len(),
        ensures
            *item == self@[n as int],
    {
        &self.items[n]
    }

    /// How many items it holds.
    pub fn len(&self) -> (len: usize)
        ensures
            len == self@.len(),
    {
        self.items.len()
    }

    /// Whether it holds nothing.
    pub fn is_empty(&self) -> (result: bool)
        ensures
            result == (self@.len() == 0),
    {
        self.items.len() == 0
    }

    /// How many items it keeps.
    pub fn capacity(&self) -> (capacity: usize)
        ensures
            capacity == self.spec_capacity(),
    {
        self.capacity
    }

    /// How many items it was built to keep.
    pub fn max_capacity(&self) -> (capacity: usize)
        ensures
            capacity == self.spec_max_capacity(),
    {
        self.max_capacity
    }

    /// Forget every item.
    pub fn clear(&mut self)
        requires
            old(self).wf(),
        ensures
            final(self).wf(),
            final(self)@ == Seq::<T>::empty(),
            final(self).spec_capacity() == old(self).spec_capacity(),
            final(self).spec_max_capacity() == old(self).spec_max_capacity(),
    {
        self.items.clear();
    }

    /// Keep `capacity` items, or as many as the ring was built for if that is
    /// fewer; the oldest go if there are now too many.
    pub fn set_capacity(&mut self, capacity: usize)
        requires
            old(self).wf(),
            capacity > 0,
        ensures
            final(self).wf(),
            final(self).spec_max_capacity() == old(self).spec_max_capacity(),
            final(self).spec_capacity() == if capacity <= old(self).spec_max_capacity() {
                capacity as nat
            } else {
                old(self).spec_max_capacity()
            },
            final(self)@ == newest(old(self)@, final(self).spec_capacity() as int),
    {
        self.capacity = if capacity <= self.max_capacity {
            capacity
        } else {
            self.max_capacity
        };
        while self.items.len() > self.capacity
            invariant
                0 < self.capacity <= self.max_capacity,
                self.max_capacity == old(self).max_capacity,
                self.capacity == if capacity <= old(self).max_capacity {
                    capacity
                } else {
                    old(self).max_capacity
                },
                self@.len() <= old(self)@.len(),
                self@.len() >= self.capacity || self@ == old(self)@,
                self@ == newest(old(self)@, self@.len() as int),
            decreases self@.len(),
        {
            self.items.pop_front();
            assert(self@ =~= newest(old(self)@, self@.len() as int));
        }
    }
}

/// What a history keeps is its end: as many items as asked for, or all there
/// are, each of them as far from the end as it was.
pub proof fn the_newest_are_the_end<T>(items: Seq<T>, n: int)
    requires
        0 <= n,
    ensures
        newest(items, n).len() == if n < items.len() {
            n
        } else {
            items.len() as int
        },
        forall|i: int|
            0 <= i < newest(items, n).len() ==> #[trigger] newest(items, n)[i] == items[items.len()
                - newest(items, n).len() + i],
{
}

} // verus!
