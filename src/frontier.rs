use vstd::prelude::*;

verus! {

/// A min-priority queue of `(key, a, b)` entries, held as an unordered list.
pub struct MinQueue {
    items: Vec<(usize, u64, u64)>,
}

impl View for MinQueue {
    type V = Seq<(usize, u64, u64)>;

    closed spec fn view(&self) -> Seq<(usize, u64, u64)> {
        self.items@
    }
}

impl MinQueue {
    pub fn new() -> (r: Self)
        ensures
            r@ == Seq::<(usize, u64, u64)>::empty(),
    {
        MinQueue { items: Vec::new() }
    }

    pub fn len(&self) -> (r: usize)
        ensures
            r == self@.len(),
    {
        self.items.len()
    }

    pub fn push(&mut self, key: usize, a: u64, b: u64)
        ensures
            final(self)@ == old(self)@.push((key, a, b)),
    {
        self.items.push((key, a, b));
    }

    /// The position of an entry whose key is the least.
    pub fn min_index(&self) -> (r: usize)
        requires
            self@.len() > 0,
        ensures
            r < self@.len(),
            forall|j: int| 0 <= j < self@.len() ==> self@[r as int].0 <= #[trigger] self@[j].0,
    {
        let mut best: usize = 0;
        let mut i: usize = 1;
        while i < self.items.len()
            invariant
                0 < i <= self@.len(),
                best < i,
                forall|j: int| 0 <= j < i ==> self@[best as int].0 <= #[trigger] self@[j].0,
            decreases self@.len() - i,
        {
            if self.items[i].0 < self.items[best].0 {
                best = i;
            }
            i = i + 1;
        }
        best
    }

    /// Takes out the entry at position `i`.
    pub fn take(&mut self, i: usize) -> (r: (usize, u64, u64))
        requires
            i < old(self)@.len(),
        ensures
            r == old(self)@[i as int],
            final(self)@ == old(self)@.remove(i as int),
    {
        self.items.remove(i)
    }
}

} // verus!
