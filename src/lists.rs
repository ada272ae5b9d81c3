use vstd::prelude::*;
use vstd::std_specs::cmp::PartialEqSpec;

verus! {

/// The index reported for a value that is not in the list.
pub const NOT_FOUND_INDEX: isize = -1;

/// A sequence of values that grows and shrinks at either end.
pub struct LinkedList<T> {
    items: Vec<T>,
}

impl<T> View for LinkedList<T> {
    type V = Seq<T>;

    closed spec fn view(&self) -> Seq<T> {
        self.items@
    }
}

/// The first position of `s` whose value equals `v`, if any.
pub open spec fn first_match<T: PartialEq>(s: Seq<T>, v: T) -> int {
    if exists|i: int| 0 <= i < s.len() && s[i].eq_spec(&v) {
        choose|i: int|
            0 <= i < s.len() && s[i].eq_spec(&v) && forall|j: int| 0 <= j < i ==> !s[j].eq_spec(&v)
    } else {
        -1
    }
}

impl<T: Copy + PartialEq> LinkedList<T> {
    pub fn new() -> (r: Self)
        ensures
            r@ == Seq::<T>::empty(),
    {
        LinkedList { items: Vec::new() }
    }

    pub fn add_last(&mut self, value: T)
        ensures
            final(self)@ == old(self)@.push(value),
    {
        self.items.push(value);
    }

    pub fn add_first(&mut self, value: T)
        ensures
            final(self)@ == seq![value] + old(self)@,
    {
        self.items.insert(0, value);
        assert(self.items@ =~= seq![value] + old(self)@);
    }

    pub fn remove_last(&mut self) -> (r: Result<(), &'static str>)
        ensures
            r.is_err() == (old(self)@.len() == 0),
            r.is_err() ==> final(self)@ == old(self)@,
            r.is_ok() ==> final(self)@ == old(self)@.drop_last(),
    {
        if self.items.len() == 0 {
            return Err("List is empty");
        }
        self.items.pop();
        assert(self.items@ =~= old(self)@.drop_last());
        Ok(())
    }

    pub fn remove_first(&mut self) -> (r: Result<(), &'static str>)
        ensures
            r.is_err() == (old(self)@.len() == 0),
            r.is_err() ==> final(self)@ == old(self)@,
            r.is_ok() ==> final(self)@ == old(self)@.subrange(1, old(self)@.len() as int),
    {
        if self.items.len() == 0 {
            return Err("List is empty");
        }
        self.items.remove(0);
        assert(self.items@ =~= old(self)@.subrange(1, old(self)@.len() as int));
        Ok(())
    }

    pub fn contains(&self, value: T) -> (r: bool)
        requires
            T::obeys_eq_spec(),
            self@.len() < isize::MAX,
        ensures
            r == exists|i: int| 0 <= i < self@.len() && self@[i].eq_spec(&value),
    {
        self.index_of(value) > NOT_FOUND_INDEX
    }

    /// The first position holding `value`, or `NOT_FOUND_INDEX`.
    pub fn index_of(&self, value: T) -> (r: isize)
        requires
            T::obeys_eq_spec(),
            self@.len() < isize::MAX,
        ensures
            r == first_match(self@, value),
            r == -1 <==> !exists|i: int| 0 <= i < self@.len() && self@[i].eq_spec(&value),
            r != -1 ==> 0 <= r < self@.len() && self@[r as int].eq_spec(&value),
    {
        let mut i: usize = 0;
        while i < self.items.len()
            invariant
                T::obeys_eq_spec(),
                i <= self@.len() < isize::MAX,
                forall|j: int| 0 <= j < i ==> !self@[j].eq_spec(&value),
            decreases self@.len() - i,
        {
            if self.items[i] == value {
                proof {
                    let w = choose|w: int|
                        0 <= w < self@.len() && self@[w].eq_spec(&value) && forall|j: int|
                            0 <= j < w ==> !self@[j].eq_spec(&value);
                    if w < i {
                    } else if w > i {
                    }
                    assert(w == i);
                }
                return i as isize;
            }
            i = i + 1;
        }
        NOT_FOUND_INDEX
    }

    pub fn to_vec(&self) -> (r: Vec<T>)
        ensures
            r@ == self@,
    {
        let mut result: Vec<T> = Vec::new();
        let mut i: usize = 0;
        while i < self.items.len()
            invariant
                i <= self@.len(),
                result@ == self@.subrange(0, i as int),
            decreases self@.len() - i,
        {
            result.push(self.items[i]);
            i = i + 1;
            assert(result@ =~= self@.subrange(0, i as int));
        }
        assert(self@.subrange(0, self@.len() as int) =~= self@);
        result
    }

    pub fn reverse(&mut self)
        ensures
            final(self)@ == old(self)@.reverse(),
    {
        let mut reversed: Vec<T> = Vec::new();
        let mut k: usize = self.items.len();
        while k > 0
            invariant
                k <= self@.len(),
                reversed@ =~= self@.reverse().subrange(0, (self@.len() - k) as int),
            decreases k,
        {
            k = k - 1;
            reversed.push(self.items[k]);
        }
        assert(self@.reverse().subrange(0, self@.len() as int) =~= self@.reverse());
        self.items = reversed;
    }

    /// The value `k` places from the end, counting the last as the first.
    pub fn get_kth_from_end(&self, k: usize) -> (r: Result<T, &'static str>)
        ensures
            k == 0 ==> r == Err::<T, &'static str>("K must be greater than zero"),
            k > self@.len() ==> r == Err::<T, &'static str>(
                "K must be less than or equal to size of the list",
            ),
            r.is_ok() == (0 < k <= self@.len()),
            r.is_ok() ==> r == Ok::<T, &'static str>(self@[self@.len() - k]),
    {
        if k == 0 {
            return Err("K must be greater than zero");
        }
        if k > self.items.len() {
            return Err("K must be less than or equal to size of the list");
        }
        Ok(self.items[self.items.len() - k])
    }

    pub fn size(&self) -> (r: usize)
        ensures
            r == self@.len(),
    {
        self.items.len()
    }

    pub fn is_empty(&self) -> (r: bool)
        ensures
            r == (self@.len() == 0),
    {
        self.items.len() == 0
    }
}

} // verus!
