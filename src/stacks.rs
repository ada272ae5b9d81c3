use vstd::prelude::*;

use crate::lists::LinkedList;

verus! {

/// A last-in, first-out stack; the top is the first value of the underlying list.
pub struct Stack<T> {
    items: LinkedList<T>,
}

impl<T> View for Stack<T> {
    type V = Seq<T>;

    /// The values from the top down.
    closed spec fn view(&self) -> Seq<T> {
        self.items@
    }
}

impl<T: Copy + PartialEq> Stack<T> {
    pub fn new() -> (r: Self)
        ensures
            r@ == Seq::<T>::empty(),
    {
        Stack { items: LinkedList::new() }
    }

    pub fn push(&mut self, value: T)
        ensures
            final(self)@ == seq![value] + old(self)@,
    {
        self.items.add_first(value);
    }

    pub fn peek(&self) -> (r: Result<T, &'static str>)
        ensures
            self@.len() == 0 ==> r == Err::<T, &'static str>("Stack is empty"),
            self@.len() > 0 ==> r == Ok::<T, &'static str>(self@[0]),
    {
        if self.is_empty() {
            return Err("Stack is empty");
        }
        self.items.get_kth_from_end(self.items.size())
    }

    pub fn pop(&mut self) -> (r: Result<T, &'static str>)
        ensures
            old(self)@.len() == 0 ==> r == Err::<T, &'static str>("Stack is empty") && final(self)@
                == old(self)@,
            old(self)@.len() > 0 ==> r == Ok::<T, &'static str>(old(self)@[0]) && final(self)@
                == old(self)@.subrange(1, old(self)@.len() as int),
    {
        if self.is_empty() {
            return Err("Stack is empty");
        }
        let item_to_pop = match self.items.get_kth_from_end(self.items.size()) {
            Ok(item) => item,
            Err(e) => {
                return Err(e);
            },
        };
        match self.items.remove_first() {
            Ok(()) => {},
            Err(e) => {
                return Err(e);
            },
        }
        Ok(item_to_pop)
    }

    pub fn is_empty(&self) -> (r: bool)
        ensures
            r == (self@.len() == 0),
    {
        self.items.is_empty()
    }
}

} // verus!
