use vstd::prelude::*;

verus! {

/// The index reported for an item that is not in the array.
pub const NOT_FOUND_INDEX: isize = -1;

/// A growable array of bytes.
pub struct DynamicArray {
    items: Vec<u8>,
}

impl View for DynamicArray {
    type V = Seq<u8>;

    closed spec fn view(&self) -> Seq<u8> {
        self.items@
    }
}

impl DynamicArray {
    /// An empty array with room for `size` items before it grows.
    pub fn new(size: usize) -> (r: Self)
        ensures
            r@ == Seq::<u8>::empty(),
    {
        DynamicArray { items: Vec::with_capacity(size) }
    }

    pub fn insert(&mut self, item: u8)
        ensures
            final(self)@ == old(self)@.push(item),
    {
        self.items.push(item);
    }

    /// The first position holding `item`, or `NOT_FOUND_INDEX`.
    pub fn index_of(&self, item: u8) -> (r: isize)
        requires
            self@.len() < isize::MAX,
        ensures
            r == -1 <==> !self@.contains(item),
            r != -1 ==> 0 <= r < self@.len() && self@[r as int] == item && forall|j: int|
                0 <= j < r ==> self@[j] != item,
    {
        let mut index: usize = 0;
        while index < self.items.len()
            invariant
                index <= self@.len() < isize::MAX,
                forall|j: int| 0 <= j < index ==> self@[j] != item,
            decreases self@.len() - index,
        {
            if item == self.items[index] {
                return index as isize;
            }
            index = index + 1;
        }
        NOT_FOUND_INDEX
    }

    /// Drops the item at `index`, moving the later items one place down.
    pub fn remove_at(&mut self, index: usize)
        requires
            index < old(self)@.len(),
        ensures
            final(self)@ == old(self)@.remove(index as int),
    {
        self.items.remove(index);
    }
}

} // verus!
