use vstd::prelude::*;

verus! {

broadcast use vstd::seq_lib::group_to_multiset_ensures, vstd::multiset::group_multiset_axioms;

#[derive(PartialEq, Eq, Structural)]
enum HeapChild {
    Left,
    Right,
}

/// A max-heap kept in an array: each value is no smaller than its children.
pub struct Heap<T> {
    items: Vec<T>,
}

impl<T> View for Heap<T> {
    type V = Seq<T>;

    closed spec fn view(&self) -> Seq<T> {
        self.items@
    }
}

pub open spec fn parent(i: int) -> int {
    (i - 1) / 2
}

/// Within the first `n` positions every value is no larger than its parent, except
/// possibly at position `k`, whose children are still no larger than `k`'s parent.
pub open spec fn heap_except_up(s: Seq<i32>, n: int, k: int) -> bool {
    &&& forall|i: int| 0 < i < n && i != k ==> s[parent(i)] >= #[trigger] s[i]
    &&& forall|c: int| 0 < c < n && parent(c) == k && k > 0 ==> s[parent(k)] >= #[trigger] s[c]
}

/// Every value is no larger than its parent, except possibly the children of `k`, which
/// are still no larger than `k`'s parent.
pub open spec fn heap_except_down(s: Seq<i32>, k: int) -> bool {
    &&& forall|i: int| 0 < i < s.len() && parent(i) != k ==> s[parent(i)] >= #[trigger] s[i]
    &&& forall|c: int| 0 < c < s.len() && parent(c) == k && k > 0 ==> s[parent(k)] >= #[trigger] s[c]
}

/// Every value of the first `n` positions is no larger than its parent.
pub open spec fn is_heap(s: Seq<i32>, n: int) -> bool {
    forall|i: int| 0 < i < n ==> s[parent(i)] >= #[trigger] s[i]
}

proof fn lemma_root_is_max(s: Seq<i32>, i: int)
    requires
        is_heap(s, s.len() as int),
        0 <= i < s.len(),
    ensures
        s[i] <= s[0],
    decreases i,
{
    if i > 0 {
        lemma_root_is_max(s, parent(i));
    }
}

proof fn lemma_update_multiset(s: Seq<i32>, i: int, v: i32)
    requires
        0 <= i < s.len(),
    ensures
        s.update(i, v).to_multiset() =~= s.to_multiset().remove(s[i]).insert(v),
{
    let t = s.update(i, v);
    assert(t.remove(i) =~= s.remove(i));
    assert(t[i] == v);
    assert(t.contains(v));
    assert(t.to_multiset() =~= t.to_multiset().remove(v).insert(v));
}

proof fn lemma_swap_multiset(s: Seq<i32>, i: int, j: int)
    requires
        0 <= i < s.len(),
        0 <= j < s.len(),
    ensures
        s.update(i, s[j]).update(j, s[i]).to_multiset() =~= s.to_multiset(),
{
    let u = s.update(i, s[j]);
    lemma_update_multiset(s, i, s[j]);
    lemma_update_multiset(u, j, s[i]);
    assert(s.contains(s[i]));
    if i == j {
        assert(u.update(j, s[i]) =~= s);
    } else {
        assert(u[j] == s[j]);
        assert(s.to_multiset().remove(s[i]).insert(s[j]).remove(s[j]).insert(s[i]) =~= s.to_multiset());
    }
}

impl Heap<i32> {
    pub closed spec fn wf(&self) -> bool {
        is_heap(self.items@, self.items@.len() as int)
    }

    pub fn new() -> (r: Self)
        ensures
            r.wf(),
            r@ == Seq::<i32>::empty(),
    {
        Heap { items: Vec::new() }
    }

    /// A heap holding the given values.
    pub fn heapify(items: Vec<i32>) -> (r: Self)
        ensures
            r.wf(),
            r@.to_multiset() == items@.to_multiset(),
    {
        let length = items.len();
        let mut heap = Heap { items };
        if length == 0 {
            return heap;
        }
        let mut index: usize = 1;
        while index < length
            invariant
                length == heap.items@.len(),
                1 <= index <= length,
                is_heap(heap.items@, index as int),
                heap.items@.to_multiset() == items@.to_multiset(),
            decreases length - index,
        {
            heap.bubble(index, Ghost(index as int + 1));
            index = index + 1;
        }
        heap
    }

    pub fn insert(&mut self, value: i32)
        requires
            old(self).wf(),
        ensures
            final(self).wf(),
            final(self)@.to_multiset() == old(self)@.to_multiset().insert(value),
    {
        self.items.push(value);
        let last = self.items.len() - 1;
        self.bubble(last, Ghost(last as int + 1));
    }

    /// Takes out the largest value.
    pub fn remove(&mut self) -> (r: Result<i32, &'static str>)
        requires
            old(self).wf(),
        ensures
            final(self).wf(),
            old(self)@.len() == 0 ==> r == Err::<i32, &'static str>("Heap is empty") && final(self)@
                == old(self)@,
            old(self)@.len() > 0 ==> r.is_ok() && old(self)@.contains(r.unwrap()) && (forall|i: int|
                0 <= i < old(self)@.len() ==> old(self)@[i] <= r.unwrap()) && final(self)@.to_multiset()
                == old(self)@.to_multiset().remove(r.unwrap()),
    {
        if self.is_empty() {
            return Err("Heap is empty");
        }
        let ghost s = self.items@;
        proof {
            assert forall|i: int| 0 <= i < s.len() implies #[trigger] s[i] <= s[0] by {
                lemma_root_is_max(s, i);
            }
            assert(s.contains(s[0]));
        }
        let last_child = match self.items.pop() {
            Some(v) => v,
            None => {
                return Err("Heap is empty");
            },
        };
        proof {
            assert(s =~= self.items@.push(last_child));
        }
        if self.is_empty() {
            proof {
                assert(self.items@.to_multiset() =~= s.to_multiset().remove(s[0]));
            }
            return Ok(last_child);
        }
        let first = self.items[0];
        let ghost popped = self.items@;
        self.items.set(0, last_child);
        proof {
            lemma_update_multiset(popped, 0, last_child);
            assert(s.to_multiset() == popped.to_multiset().insert(last_child));
            assert(self.items@.to_multiset() =~= s.to_multiset().remove(first));
            assert(heap_except_down(self.items@, 0));
        }
        self.dive(0);
        Ok(first)
    }

    pub fn is_empty(&self) -> (r: bool)
        ensures
            r == (self@.len() == 0),
    {
        self.items.len() == 0
    }

    /// Moves the value at `index` up until its parent is no smaller, within the first `n` positions.
    fn bubble(&mut self, index: usize, Ghost(n): Ghost<int>)
        requires
            index < n <= old(self).items@.len(),
            heap_except_up(old(self).items@, n, index as int),
        ensures
            final(self).items@.len() == old(self).items@.len(),
            is_heap(final(self).items@, n),
            final(self).items@.to_multiset() == old(self).items@.to_multiset(),
            forall|p: int| n <= p < old(self).items@.len() ==> final(self).items@[p] == old(self).items@[p],
        decreases index,
    {
        if index == 0 {
            return ;
        }
        let parent_index = Self::get_parent_index(index);
        if self.items[parent_index] >= self.items[index] {
            return ;
        }
        let ghost s = self.items@;
        let parent_value = self.items[parent_index];
        let value = self.items[index];
        self.items.set(parent_index, value);
        self.items.set(index, parent_value);
        proof {
            lemma_swap_multiset(s, parent_index as int, index as int);
            assert(self.items@ == s.update(parent_index as int, s[index as int]).update(
                index as int,
                s[parent_index as int],
            ));
            let t = self.items@;
            let p = parent_index as int;
            let k = index as int;
            assert forall|i: int| 0 < i < n && i != p implies t[parent(i)] >= #[trigger] t[i] by {
                if i == k {
                } else if parent(i) == p {
                    assert(s[p] >= s[i]);
                } else if parent(i) == k {
                    assert(s[parent(k)] >= s[i]);
                } else {
                    assert(s[parent(i)] >= s[i]);
                }
            }
            assert forall|c: int| 0 < c < n && parent(c) == p && p > 0 implies t[parent(p)] >= #[trigger] t[c] by {
                assert(s[parent(p)] >= s[p]);
                if c != k {
                    assert(s[p] >= s[c]);
                }
            }
        }
        self.bubble(parent_index, Ghost(n));
    }

    /// Moves the value at `index` down until no child is larger.
    fn dive(&mut self, index: usize)
        requires
            index < old(self).items@.len(),
            heap_except_down(old(self).items@, index as int),
        ensures
            final(self).wf(),
            final(self).items@.to_multiset() == old(self).items@.to_multiset(),
        decreases old(self).items@.len() - index,
    {
        let swap_index = match self.get_dive_swap_index(index) {
            Some(i) => i,
            None => {
                return ;
            },
        };
        let ghost s = self.items@;
        let value = self.items[index];
        let child_value = self.items[swap_index];
        self.items.set(index, child_value);
        self.items.set(swap_index, value);
        proof {
            lemma_swap_multiset(s, index as int, swap_index as int);
            assert(self.items@ == s.update(index as int, s[swap_index as int]).update(
                swap_index as int,
                s[index as int],
            ));
            let t = self.items@;
            let k = index as int;
            let l = swap_index as int;
            assert forall|i: int| 0 < i < t.len() && parent(i) != l implies t[parent(i)] >= #[trigger] t[i] by {
                if i == l {
                } else if parent(i) == k {
                } else if i == k {
                    assert(s[parent(k)] >= s[l]);
                } else {
                    assert(s[parent(i)] >= s[i]);
                }
            }
            assert forall|c: int| 0 < c < t.len() && parent(c) == l && l > 0 implies t[parent(l)] >= #[trigger] t[c] by {
                assert(s[l] >= s[c]);
            }
        }
        self.dive(swap_index);
    }

    /// The larger child of `index` when it is larger than the value at `index`.
    fn get_dive_swap_index(&self, index: usize) -> (r: Option<usize>)
        requires
            index < self.items@.len(),
            heap_except_down(self.items@, index as int),
        ensures
            r is None ==> is_heap(self.items@, self.items@.len() as int),
            r matches Some(c) ==> c < self.items@.len() && parent(c as int) == index && c > index
                && self.items@[c as int] > self.items@[index as int] && forall|d: int|
                0 < d < self.items@.len() && parent(d) == index ==> self.items@[d] <= self.items@[c as int],
    {
        let ghost s = self.items@;
        let length = self.items.len();
        if index > (usize::MAX - 2) / 2 {
            proof {
                assert forall|i: int| 0 < i < s.len() implies s[parent(i)] >= #[trigger] s[i] by {
                    assert(i < length);
                    assert(parent(i) != index);
                }
            }
            return None;
        }
        let (left_child, left_child_index) = self.left_child(index);
        let (right_child, right_child_index) = self.right_child(index);
        let value = self.items[index];
        let mut swap_index = index;
        let mut largest = value;
        if let Some(left) = left_child {
            if left > largest {
                swap_index = left_child_index;
                largest = left;
            }
        }
        if let Some(right) = right_child {
            if right > largest {
                swap_index = right_child_index;
            }
        }
        if swap_index == index {
            proof {
                assert forall|i: int| 0 < i < s.len() implies s[parent(i)] >= #[trigger] s[i] by {
                    if parent(i) == index {
                        assert(i == left_child_index || i == right_child_index);
                    }
                }
            }
            return None;
        }
        proof {
            assert forall|d: int| 0 < d < s.len() && parent(d) == index implies s[d] <= s[swap_index as int] by {
                assert(d == left_child_index || d == right_child_index);
            }
        }
        Some(swap_index)
    }

    fn left_child(&self, index: usize) -> (r: (Option<i32>, usize))
        requires
            index <= (usize::MAX - 2) / 2,
        ensures
            r.1 == 2 * index + 1,
            r.0 == if r.1 < self.items@.len() {
                Some(self.items@[r.1 as int])
            } else {
                None::<i32>
            },
    {
        let left_child_index = Self::get_child_index(index, HeapChild::Left);
        if left_child_index < self.items.len() {
            (Some(self.items[left_child_index]), left_child_index)
        } else {
            (None, left_child_index)
        }
    }

    fn right_child(&self, index: usize) -> (r: (Option<i32>, usize))
        requires
            index <= (usize::MAX - 2) / 2,
        ensures
            r.1 == 2 * index + 2,
            r.0 == if r.1 < self.items@.len() {
                Some(self.items@[r.1 as int])
            } else {
                None::<i32>
            },
    {
        let right_child_index = Self::get_child_index(index, HeapChild::Right);
        if right_child_index < self.items.len() {
            (Some(self.items[right_child_index]), right_child_index)
        } else {
            (None, right_child_index)
        }
    }

    fn get_child_index(parent_index: usize, child_type: HeapChild) -> (r: usize)
        requires
            parent_index <= (usize::MAX - 2) / 2,
        ensures
            r == 2 * parent_index + if child_type == HeapChild::Left {
                1int
            } else {
                2int
            },
    {
        parent_index * 2 + if child_type == HeapChild::Left {
            1
        } else {
            2
        }
    }

    fn get_parent_index(child_index: usize) -> (r: usize)
        requires
            child_index > 0,
        ensures
            r == parent(child_index as int),
    {
        (child_index - 1) / 2
    }
}

} // verus!
