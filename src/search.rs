use vstd::prelude::*;

verus! {

/// The values never decrease from left to right.
pub open spec fn is_sorted(s: Seq<i32>) -> bool {
    forall|i: int, j: int| 0 <= i <= j < s.len() ==> s[i] <= s[j]
}

/// The first position holding `item`, scanning from the left.
pub fn linear_search(array: &Vec<i32>, item: i32) -> (r: Option<usize>)
    ensures
        match r {
            Some(i) => i < array@.len() && array@[i as int] == item && forall|j: int|
                0 <= j < i ==> array@[j] != item,
            None => !array@.contains(item),
        },
{
    let mut index: usize = 0;
    while index < array.len()
        invariant
            index <= array@.len(),
            forall|j: int| 0 <= j < index ==> array@[j] != item,
        decreases array@.len() - index,
    {
        if array[index] == item {
            return Some(index);
        }
        index = index + 1;
    }
    None
}

/// A position holding `item` in a sorted array, found by halving the range.
pub fn binary_search(array: &Vec<i32>, item: i32) -> (r: Option<usize>)
    requires
        is_sorted(array@),
    ensures
        match r {
            Some(i) => i < array@.len() && array@[i as int] == item,
            None => !array@.contains(item),
        },
{
    if array.len() == 0 {
        return None;
    }
    binary_search_recursive(array, item, 0, array.len() - 1)
}

fn binary_search_recursive(array: &Vec<i32>, item: i32, left: usize, right: usize) -> (r: Option<
    usize,
>)
    requires
        is_sorted(array@),
        left <= right < array@.len(),
    ensures
        match r {
            Some(i) => i < array@.len() && array@[i as int] == item,
            None => forall|j: int| left <= j <= right ==> array@[j] != item,
        },
    decreases right - left,
{
    let middle = left + (right - left) / 2;
    if item == array[middle] {
        return Some(middle);
    }
    if left == right {
        return None;
    }
    if item < array[middle] {
        if middle == left {
            return None;
        }
        binary_search_recursive(array, item, left, middle - 1)
    } else {
        binary_search_recursive(array, item, middle + 1, right)
    }
}

/// A position holding `item` in a sorted array, found by cutting the range in three.
pub fn ternary_search(array: &Vec<i32>, item: i32) -> (r: Option<usize>)
    requires
        is_sorted(array@),
    ensures
        match r {
            Some(i) => i < array@.len() && array@[i as int] == item,
            None => !array@.contains(item),
        },
{
    if array.len() == 0 {
        return None;
    }
    ternary_search_recursive(array, item, 0, array.len() - 1)
}

fn ternary_search_recursive(array: &Vec<i32>, item: i32, left: usize, right: usize) -> (r: Option<
    usize,
>)
    requires
        is_sorted(array@),
        left <= right < array@.len(),
    ensures
        match r {
            Some(i) => i < array@.len() && array@[i as int] == item,
            None => forall|j: int| left <= j <= right ==> array@[j] != item,
        },
    decreases right - left,
{
    let partition_size = (right - left) / 3;
    let first_middle = left + partition_size;
    let second_middle = right - partition_size;
    if item == array[first_middle] {
        return Some(first_middle);
    }
    if item == array[second_middle] {
        return Some(second_middle);
    }
    if item < array[first_middle] {
        if first_middle == left {
            return None;
        }
        ternary_search_recursive(array, item, left, first_middle - 1)
    } else if item > array[second_middle] {
        if second_middle == right {
            return None;
        }
        ternary_search_recursive(array, item, second_middle + 1, right)
    } else {
        if second_middle - first_middle < 2 {
            return None;
        }
        ternary_search_recursive(array, item, first_middle + 1, second_middle - 1)
    }
}

/// The largest `r` with `r * r <= n`.
fn square_root(n: usize) -> (r: usize)
    ensures
        r * r <= n,
        n < (r + 1) * (r + 1),
{
    let mut r: usize = 0;
    while r + 1 <= n / (r + 1)
        invariant
            r * r <= n,
            r < n + 1,
            r < usize::MAX,
        decreases n - r,
    {
        proof {
            let q = n as int / (r + 1);
            assert((r + 1) * (r + 1) <= (r + 1) * q) by (nonlinear_arith)
                requires
                    r + 1 <= q,
            ;
            assert((r + 1) * q <= n) by (nonlinear_arith)
                requires
                    q == n as int / (r + 1),
                    r + 1 > 0,
            ;
            assert(r + 1 <= n) by (nonlinear_arith)
                requires
                    (r + 1) * (r + 1) <= n,
            ;
            assert(r + 1 < usize::MAX) by (nonlinear_arith)
                requires
                    (r + 1) * (r + 1) <= n,
                    n <= usize::MAX,
            ;
        }
        r = r + 1;
    }
    proof {
        let q = n as int / (r + 1);
        assert(n < (r + 1) * (r + 1)) by (nonlinear_arith)
            requires
                q < r + 1,
                q == n as int / (r + 1),
                r + 1 > 0,
        ;
    }
    r
}

/// A position holding `item` in a sorted array, found by skipping ahead in blocks of
/// about the square root of the length and then scanning one block.
pub fn jump_search(array: &Vec<i32>, item: i32) -> (r: Option<usize>)
    ensures
        r matches Some(i) ==> i < array@.len() && array@[i as int] == item,
        is_sorted(array@) && r is None ==> !array@.contains(item),
{
    let block_size = square_root(array.len());
    if block_size == 0 {
        proof {
            assert(array@.len() == 0) by (nonlinear_arith)
                requires
                    array@.len() < (block_size + 1) * (block_size + 1),
                    block_size == 0,
            ;
        }
        return None;
    }
    proof {
        assert(block_size <= array@.len()) by (nonlinear_arith)
            requires
                block_size * block_size <= array@.len(),
                block_size >= 1,
        ;
    }
    let mut start: usize = 0;
    let mut next: usize = block_size;
    while item > array[next - 1] && start < array.len()
        invariant
            0 < block_size <= array@.len(),
            start < next <= array@.len(),
            is_sorted(array@) ==> forall|j: int| 0 <= j < start ==> array@[j] < item,
        decreases array@.len() - start,
    {
        start = next;
        if next > array.len() - block_size {
            next = array.len();
        } else {
            next = next + block_size;
        }
        if start == array.len() {
            proof {
                if is_sorted(array@) {
                    assert forall|j: int| 0 <= j < start implies array@[j] < item by {
                        assert(array@[j] <= array@[start - 1]);
                    }
                }
            }
            return None;
        }
    }
    let mut index: usize = start;
    while index < next
        invariant
            start <= index <= next <= array@.len(),
            forall|j: int| start <= j < index ==> array@[j] != item,
        decreases next - index,
    {
        if item == array[index] {
            return Some(index);
        }
        index = index + 1;
    }
    proof {
        if is_sorted(array@) {
            assert forall|j: int| 0 <= j < array@.len() implies array@[j] != item by {
                if j >= next {
                    assert(array@[next - 1] <= array@[j]);
                }
            }
        }
    }
    None
}

} // verus!
