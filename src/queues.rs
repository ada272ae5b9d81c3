use vstd::prelude::*;

verus! {

/// A queue of values: added by `enqueue`, handed out by `dequeue`.
pub trait Queue<T> {
    /// The queue's own consistency.
    spec fn inv(&self) -> bool;

    /// The stored values, in the order the queue keeps them.
    spec fn contents(&self) -> Seq<T>;

    /// No value can be added.
    spec fn full(&self) -> bool;

    /// The stored values once `value` has been added.
    spec fn after_enqueue(&self, value: T) -> Seq<T>;

    /// The position of the value that `dequeue` hands out.
    spec fn taken(&self) -> int;

    fn enqueue(&mut self, value: T) -> (r: Result<(), &'static str>)
        requires
            old(self).inv(),
        ensures
            final(self).inv(),
            old(self).full() ==> r == Err::<(), &'static str>("Queue is full") && final(self).contents()
                == old(self).contents(),
            !old(self).full() ==> r == Ok::<(), &'static str>(()) && final(self).contents() == old(
                self,
            ).after_enqueue(value),
    ;

    fn dequeue(&mut self) -> (r: Result<T, &'static str>)
        requires
            old(self).inv(),
        ensures
            final(self).inv(),
            old(self).contents().len() == 0 ==> r == Err::<T, &'static str>("Queue is empty")
                && final(self).contents() == old(self).contents(),
            old(self).contents().len() > 0 ==> 0 <= old(self).taken() < old(self).contents().len() && r
                == Ok::<T, &'static str>(old(self).contents()[old(self).taken()]) && final(self).contents()
                == old(self).contents().remove(old(self).taken()),
    ;

    fn peek(&self) -> (r: Result<&T, &'static str>)
        requires
            self.inv(),
        ensures
            self.contents().len() == 0 ==> r == Err::<&T, &'static str>("Queue is empty"),
            self.contents().len() > 0 ==> r == Ok::<&T, &'static str>(&self.contents()[0]),
    ;

    fn is_empty(&self) -> (r: bool)
        requires
            self.inv(),
        ensures
            r == (self.contents().len() == 0),
    ;

    fn is_full(&self) -> (r: bool)
        requires
            self.inv(),
        ensures
            r ==> self.full(),
    {
        false
    }
}

/// The position `i` places after `front` in a ring of `size` slots.
pub open spec fn ring_slot(front: int, i: int, size: int) -> int {
    if front + i < size {
        front + i
    } else {
        front + i - size
    }
}

/// A first-in, first-out queue in a ring of `SIZE` slots.
pub struct ArrayQueue<T, const SIZE: usize> {
    items: Vec<Option<T>>,
    length: usize,
    front: usize,
    back: usize,
}

impl<T, const SIZE: usize> ArrayQueue<T, SIZE> {
    pub fn new() -> (r: Self)
        ensures
            r.inv(),
            r.contents() == Seq::<T>::empty(),
    {
        let mut items: Vec<Option<T>> = Vec::new();
        let mut i: usize = 0;
        while i < SIZE
            invariant
                i <= SIZE,
                items@.len() == i,
            decreases SIZE - i,
        {
            items.push(None);
            i = i + 1;
        }
        let r = ArrayQueue { items, length: 0, front: 0, back: 0 };
        assert(r.contents() =~= Seq::<T>::empty());
        r
    }
}

impl<T, const SIZE: usize> Queue<T> for ArrayQueue<T, SIZE> {
    closed spec fn inv(&self) -> bool {
        &&& self.items@.len() == SIZE
        &&& self.length <= SIZE
        &&& SIZE > 0 ==> self.front < SIZE && self.back < SIZE
        &&& self.length == 0 ==> self.front == self.back
        &&& self.length > 0 ==> self.back == ring_slot(self.front as int, self.length - 1, SIZE as int)
        &&& forall|i: int|
            0 <= i < self.length ==> (#[trigger] self.items@[ring_slot(self.front as int, i, SIZE as int)]) is Some
    }

    closed spec fn contents(&self) -> Seq<T> {
        Seq::new(
            self.length as nat,
            |i: int| self.items@[ring_slot(self.front as int, i, SIZE as int)].unwrap(),
        )
    }

    closed spec fn full(&self) -> bool {
        self.length == SIZE
    }

    closed spec fn after_enqueue(&self, value: T) -> Seq<T> {
        self.contents().push(value)
    }

    closed spec fn taken(&self) -> int {
        0
    }

    fn enqueue(&mut self, value: T) -> (r: Result<(), &'static str>) {
        if self.length == SIZE {
            return Err("Queue is full");
        }
        let ghost old_items = self.items@;
        if !self.is_empty() {
            self.back = if self.back + 1 == SIZE {
                0
            } else {
                self.back + 1
            };
        }
        self.items.set(self.back, Some(value));
        self.length = self.length + 1;
        proof {
            let f = self.front as int;
            assert(self.back == ring_slot(f, self.length - 1, SIZE as int));
            assert forall|i: int| 0 <= i < self.length - 1 implies #[trigger] ring_slot(f, i, SIZE as int) != self.back by {}
            assert forall|i: int| 0 <= i < self.length implies (#[trigger] self.items@[ring_slot(f, i, SIZE as int)]) is Some by {
                if i < self.length - 1 {
                    assert(old_items[ring_slot(f, i, SIZE as int)] is Some);
                }
            }
            assert(self.contents() =~= old(self).contents().push(value));
        }
        Ok(())
    }

    fn dequeue(&mut self) -> (r: Result<T, &'static str>) {
        if self.is_empty() {
            return Err("Queue is empty");
        }
        let ghost old_items = self.items@;
        let ghost f = self.front as int;
        let slot = self.front;
        let value = match self.items[slot].take() {
            Some(value) => value,
            None => {
                proof {
                    assert(old_items[ring_slot(f, 0, SIZE as int)] is Some);
                }
                return Err("Queue is empty");
            },
        };
        proof {
            assert(old_items[ring_slot(f, 0, SIZE as int)] is Some);
        }
        if self.length != 1 {
            self.front = if self.front + 1 == SIZE {
                0
            } else {
                self.front + 1
            };
        }
        self.length = self.length - 1;
        proof {
            let nf = self.front as int;
            assert forall|i: int| 0 <= i < self.length implies #[trigger] ring_slot(nf, i, SIZE as int)
                == ring_slot(f, i + 1, SIZE as int) by {}
            assert forall|i: int| 0 <= i < self.length implies (#[trigger] self.items@[ring_slot(nf, i, SIZE as int)]) is Some by {
                assert(old_items[ring_slot(f, i + 1, SIZE as int)] is Some);
                assert(ring_slot(f, i + 1, SIZE as int) != slot);
            }
            assert forall|i: int| 0 <= i < self.length implies #[trigger] self.contents()[i] == old(self).contents().remove(0)[i] by {
                assert(ring_slot(f, i + 1, SIZE as int) != slot);
            }
            assert(self.contents() =~= old(self).contents().remove(0));
        }
        Ok(value)
    }

    fn peek(&self) -> (r: Result<&T, &'static str>) {
        if self.is_empty() {
            return Err("Queue is empty");
        }
        proof {
            assert(self.items@[ring_slot(self.front as int, 0, SIZE as int)] is Some);
        }
        match self.items[self.front].as_ref() {
            Some(value) => Ok(value),
            None => Err("Queue is empty"),
        }
    }

    fn is_empty(&self) -> (r: bool) {
        self.length == 0
    }

    fn is_full(&self) -> (r: bool) {
        self.length == SIZE
    }
}

/// The values of `s` with `value` placed after the last value smaller than it, found
/// from the right.
pub open spec fn insert_sorted(s: Seq<u32>, value: u32) -> Seq<u32>
    decreases s.len(),
{
    if s.len() == 0 || s.last() < value {
        s.push(value)
    } else {
        insert_sorted(s.drop_last(), value).push(s.last())
    }
}

/// A queue of numbers kept in ascending order: `dequeue` hands out the last, largest
/// value while `peek` shows the first, smallest one.
pub struct PriorityQueue {
    items: Vec<u32>,
}

impl PriorityQueue {
    pub fn new() -> (r: Self)
        ensures
            r.inv(),
            r.contents() == Seq::<u32>::empty(),
    {
        PriorityQueue { items: Vec::new() }
    }

    /// Opens a place for `value` by moving larger values one step right; returns the place.
    fn shift_items_to_insert(&mut self, value: u32) -> (r: usize)
        requires
            old(self).items@.len() > 0,
        ensures
            r <= old(self).items@.len(),
            final(self).items@.len() == old(self).items@.len() + 1,
            final(self).items@.update(r as int, value) == insert_sorted(old(self).items@, value),
    {
        let ghost s = self.items@;
        let last = self.items[self.items.len() - 1];
        self.items.push(last);
        let mut index: usize = self.items.len() - 1;
        proof {
            assert(s.subrange(0, s.len() as int) =~= s);
            assert(s.subrange(s.len() as int, s.len() as int) =~= Seq::<u32>::empty());
            assert(insert_sorted(s, value) =~= insert_sorted(s.subrange(0, index as int), value)
                + s.subrange(index as int, s.len() as int));
        }
        while index > 0
            invariant
                s == old(self).items@,
                1 <= s.len(),
                self.items@.len() == s.len() + 1,
                index <= s.len(),
                forall|j: int| 0 <= j < index ==> self.items@[j] == s[j],
                forall|j: int| index < j <= s.len() ==> self.items@[j] == s[j - 1],
                insert_sorted(s, value) == insert_sorted(s.subrange(0, index as int), value) + s.subrange(
                    index as int,
                    s.len() as int,
                ),
            decreases index,
        {
            if self.items[index - 1] < value {
                proof {
                    let p = s.subrange(0, index as int);
                    assert(p.last() == s[index - 1]);
                    assert(insert_sorted(p, value) == p.push(value));
                    assert(self.items@.update(index as int, value) =~= p.push(value) + s.subrange(
                        index as int,
                        s.len() as int,
                    ));
                }
                return index;
            }
            let moved = self.items[index - 1];
            self.items.set(index, moved);
            proof {
                let p = s.subrange(0, index as int);
                assert(p.drop_last() =~= s.subrange(0, index - 1));
                assert(insert_sorted(p, value) == insert_sorted(p.drop_last(), value).push(p.last()));
                assert(s.subrange(index - 1, s.len() as int) =~= seq![s[index - 1]] + s.subrange(
                    index as int,
                    s.len() as int,
                ));
                assert(insert_sorted(s, value) =~= insert_sorted(s.subrange(0, index - 1), value)
                    + s.subrange(index - 1, s.len() as int));
            }
            index = index - 1;
        }
        proof {
            assert(s.subrange(0, 0) =~= Seq::<u32>::empty());
            assert(insert_sorted(Seq::<u32>::empty(), value) == seq![value]);
            assert(self.items@.update(0, value) =~= seq![value] + s.subrange(0, s.len() as int));
            assert(s.subrange(0, s.len() as int) =~= s);
        }
        0
    }
}

impl Queue<u32> for PriorityQueue {
    closed spec fn inv(&self) -> bool {
        true
    }

    closed spec fn contents(&self) -> Seq<u32> {
        self.items@
    }

    closed spec fn full(&self) -> bool {
        false
    }

    closed spec fn after_enqueue(&self, value: u32) -> Seq<u32> {
        insert_sorted(self.items@, value)
    }

    closed spec fn taken(&self) -> int {
        self.items@.len() - 1
    }

    fn enqueue(&mut self, value: u32) -> (r: Result<(), &'static str>) {
        if self.is_full() {
            return Err("Queue is full");
        }
        if self.is_empty() {
            self.items.push(value);
            proof {
                assert(insert_sorted(old(self).items@, value) == old(self).items@.push(value));
            }
            return Ok(());
        }
        let index = self.shift_items_to_insert(value);
        self.items.set(index, value);
        Ok(())
    }

    fn dequeue(&mut self) -> (r: Result<u32, &'static str>) {
        if self.is_empty() {
            return Err("Queue is empty");
        }
        match self.items.pop() {
            Some(value) => {
                proof {
                    assert(self.items@ =~= old(self).items@.remove(old(self).items@.len() - 1));
                }
                Ok(value)
            },
            None => Err("Queue is empty"),
        }
    }

    fn peek(&self) -> (r: Result<&u32, &'static str>) {
        if self.is_empty() {
            return Err("Queue is empty");
        }
        Ok(&self.items[0])
    }

    fn is_empty(&self) -> (r: bool) {
        self.items.len() == 0
    }
}

} // verus!
