//! Short lists of numbers, held inline.

use smallvec::SmallVec;
use vstd::prelude::*;

verus! {

/// A list of numbers that takes no allocation while it is short: a
/// `smallvec::SmallVec` with room for sixteen of them inline.
#[verifier::external_body]
pub struct SmallList {
    items: SmallVec<[usize; 16]>,
}

/// The numbers a list holds, in order.
pub uninterp spec fn small_items(list: SmallList) -> Seq<usize>;

impl SmallList {
    /// A list holding nothing, from `SmallVec::new`.
    #[verifier::external_body]
    pub(crate) fn new() -> (list: Self)
        ensures
            small_items(list) == Seq::<usize>::empty(),
    {
        SmallList { items: SmallVec::new() }
    }

    /// How many numbers it holds, from `SmallVec::len`.
    #[verifier::external_body]
    pub(crate) fn len(&self) -> (len: usize)
        ensures
            len == small_items(*self).len(),
    {
        self.items.len()
    }

    /// The number at `index`, by `SmallVec`'s indexing, which panics past the
    /// end of what the list holds.
    #[verifier::external_body]
    pub(crate) fn get(&self, index: usize) -> (item: usize)
        requires
            index < small_items(*self).len(),
        ensures
            item == small_items(*self)[index as int],
    {
        self.items[index]
    }

    /// Put `item` at `index`, by `SmallVec::insert`, which moves everything
    /// from there on one place up and panics past the end of the list.
    #[verifier::external_body]
    pub(crate) fn insert(&mut self, index: usize, item: usize)
        requires
            index <= small_items(*old(self)).len(),
        ensures
            small_items(*final(self)) == small_items(*old(self)).insert(index as int, item),
    {
        self.items.insert(index, item);
    }
}

} // verus!
