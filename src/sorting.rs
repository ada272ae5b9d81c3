use vstd::prelude::*;

use crate::search::is_sorted;

verus! {

broadcast use vstd::seq_lib::group_to_multiset_ensures, vstd::multiset::group_multiset_axioms;

proof fn lemma_update_multiset(s: Seq<i32>, i: int, v: i32)
    requires
        0 <= i < s.len(),
    ensures
        s.update(i, v).to_multiset() =~= s.to_multiset().remove(s[i]).insert(v),
{
    let t = s.update(i, v);
    assert(t.remove(i) =~= s.remove(i));
    assert(t[i] == v);
    assert(t.contains(v));
    assert(t.to_multiset().count(v) > 0);
    assert(t.to_multiset() =~= t.to_multiset().remove(v).insert(v));
}

/// Exchanging two positions keeps the values.
proof fn lemma_swap_multiset(s: Seq<i32>, i: int, j: int)
    requires
        0 <= i < s.len(),
        0 <= j < s.len(),
    ensures
        s.update(i, s[j]).update(j, s[i]).to_multiset() =~= s.to_multiset(),
{
    let u = s.update(i, s[j]);
    lemma_update_multiset(s, i, s[j]);
    lemma_update_multiset(u, j, s[i]);
    assert(s.contains(s[i]));
    assert(s.to_multiset().count(s[i]) > 0);
    if i == j {
        assert(u.update(j, s[i]) =~= s);
    } else {
        assert(u[j] == s[j]);
        assert(s.to_multiset().remove(s[i]).insert(s[j]).count(s[j]) > 0);
        assert(s.to_multiset().remove(s[i]).insert(s[j]).remove(s[j]).insert(s[i]) =~= s.to_multiset());
    }
}

fn swap(array: &mut Vec<i32>, i: usize, j: usize)
    requires
        i < old(array)@.len(),
        j < old(array)@.len(),
    ensures
        final(array)@ == old(array)@.update(i as int, old(array)@[j as int]).update(
            j as int,
            old(array)@[i as int],
        ),
        final(array)@.to_multiset() == old(array)@.to_multiset(),
{
    proof {
        lemma_swap_multiset(array@, i as int, j as int);
    }
    let first = array[i];
    let second = array[j];
    array.set(i, second);
    array.set(j, first);
}

/// Sorts by repeatedly swapping neighbours out of order, stopping after a pass with no swap.
pub fn bubble_sort(array: &mut Vec<i32>)
    ensures
        is_sorted(final(array)@),
        final(array)@.to_multiset() == old(array)@.to_multiset(),
{
    let n = array.len();
    let mut i: usize = 0;
    while i < n
        invariant
            n == array@.len(),
            i <= n,
            array@.to_multiset() == old(array)@.to_multiset(),
            forall|p: int, q: int| n - i <= p <= q < n ==> array@[p] <= array@[q],
            forall|p: int, q: int| 0 <= p < n - i <= q < n ==> array@[p] <= array@[q],
        decreases n - i,
    {
        let mut is_sorted_pass = true;
        let mut index: usize = 1;
        while index < n - i
            invariant
                n == array@.len(),
                i < n,
                1 <= index <= n - i,
                array@.to_multiset() == old(array)@.to_multiset(),
                forall|p: int, q: int| n - i <= p <= q < n ==> array@[p] <= array@[q],
                forall|p: int, q: int| 0 <= p < n - i <= q < n ==> array@[p] <= array@[q],
                forall|p: int| 0 <= p < index ==> #[trigger] array@[p] <= array@[index - 1],
                is_sorted_pass ==> forall|p: int, q: int| 0 <= p <= q < index ==> array@[p] <= array@[q],
            decreases n - i - index,
        {
            if array[index - 1] > array[index] {
                is_sorted_pass = false;
                swap(array, index - 1, index);
            }
            index = index + 1;
        }
        if is_sorted_pass {
            return ;
        }
        i = i + 1;
    }
}

/// Sorts by moving the least remaining value to the front, one position at a time.
pub fn selection_sort(array: &mut Vec<i32>)
    ensures
        is_sorted(final(array)@),
        final(array)@.to_multiset() == old(array)@.to_multiset(),
{
    let n = array.len();
    let mut i: usize = 0;
    while i < n
        invariant
            n == array@.len(),
            i <= n,
            array@.to_multiset() == old(array)@.to_multiset(),
            forall|p: int, q: int| 0 <= p <= q < i ==> array@[p] <= array@[q],
            forall|p: int, q: int| 0 <= p < i <= q < n ==> array@[p] <= array@[q],
        decreases n - i,
    {
        let mut min_index = i;
        let mut index = i;
        while index < n
            invariant
                n == array@.len(),
                i <= min_index < n,
                i <= index <= n,
                forall|q: int| i <= q < index ==> array@[min_index as int] <= array@[q],
            decreases n - index,
        {
            if array[index] < array[min_index] {
                min_index = index;
            }
            index = index + 1;
        }
        swap(array, i, min_index);
        i = i + 1;
    }
}

/// Sorts by inserting each value into the sorted prefix before it.
pub fn insertion_sort(array: &mut Vec<i32>)
    ensures
        is_sorted(final(array)@),
        final(array)@.to_multiset() == old(array)@.to_multiset(),
{
    let n = array.len();
    if n == 0 {
        return ;
    }
    let mut index: usize = 1;
    while index < n
        invariant
            n == array@.len(),
            1 <= index <= n,
            array@.to_multiset() == old(array)@.to_multiset(),
            forall|p: int, q: int| 0 <= p <= q < index ==> array@[p] <= array@[q],
        decreases n - index,
    {
        let current = array[index];
        let ghost start = array@;
        let mut sorted_index = index;
        while sorted_index > 0 && array[sorted_index - 1] > current
            invariant
                n == array@.len(),
                index < n,
                0 <= sorted_index <= index,
                start[index as int] == current,
                array@.update(sorted_index as int, current).to_multiset() == start.to_multiset(),
                forall|p: int| 0 <= p < sorted_index ==> array@[p] == start[p],
                forall|p: int| sorted_index < p <= index ==> array@[p] == start[p - 1],
                forall|p: int| sorted_index < p <= index ==> current < array@[p],
                forall|p: int, q: int| 0 <= p <= q < index ==> start[p] <= start[q],
                forall|p: int| index < p < n ==> array@[p] == start[p],
            decreases sorted_index,
        {
            let moved = array[sorted_index - 1];
            let ghost before = array@;
            array.set(sorted_index, moved);
            proof {
                let s = sorted_index as int;
                let h = before.update(s, current);
                lemma_swap_multiset(h, s - 1, s);
                assert(h.update(s - 1, h[s]).update(s, h[s - 1]) =~= array@.update(s - 1, current));
            }
            sorted_index = sorted_index - 1;
        }
        let ghost prev = array@;
        proof {
            assert(sorted_index == 0 || prev[sorted_index - 1] <= current);
        }
        array.set(sorted_index, current);
        proof {
            let s = sorted_index as int;
            assert(array@ == prev.update(s, current));
            assert forall|p: int, q: int| 0 <= p <= q < index + 1 implies array@[p] <= array@[q] by {
                if q == s {
                    if p < s {
                        assert(array@[p] == start[p]);
                        assert(prev[s - 1] == start[s - 1]);
                        assert(start[p] <= start[s - 1]);
                    }
                } else if p == s {
                    assert(current < prev[q]);
                } else if q < s {
                    assert(array@[p] == start[p] && array@[q] == start[q]);
                } else if p < s {
                    assert(array@[p] == start[p] && array@[q] == start[q - 1]);
                    assert(start[p] <= start[q - 1]);
                } else {
                    assert(array@[p] == start[p - 1] && array@[q] == start[q - 1]);
                    assert(start[p - 1] <= start[q - 1]);
                }
            }
        }
        index = index + 1;
    }
}

fn copy_range(array: &Vec<i32>, from: usize, to: usize) -> (r: Vec<i32>)
    requires
        from <= to <= array@.len(),
    ensures
        r@ == array@.subrange(from as int, to as int),
{
    let mut result: Vec<i32> = Vec::new();
    let mut i = from;
    while i < to
        invariant
            from <= i <= to <= array@.len(),
            result@ == array@.subrange(from as int, i as int),
        decreases to - i,
    {
        result.push(array[i]);
        i = i + 1;
        assert(result@ =~= array@.subrange(from as int, i as int));
    }
    result
}

/// Sorts each half, then merges the two sorted halves.
pub fn merge_sort(array: &mut Vec<i32>)
    ensures
        is_sorted(final(array)@),
        final(array)@.to_multiset() == old(array)@.to_multiset(),
    decreases old(array)@.len(),
{
    let length = array.len();
    if length <= 1 {
        return ;
    }
    let middle = length / 2;
    let mut first_part = copy_range(array, 0, middle);
    merge_sort(&mut first_part);
    let mut second_part = copy_range(array, middle, length);
    merge_sort(&mut second_part);
    proof {
        assert(first_part@.len() == first_part@.to_multiset().len());
        assert(old(array)@.subrange(0, middle as int).len() == old(array)@.subrange(0, middle as int).to_multiset().len());
        assert(second_part@.len() == second_part@.to_multiset().len());
        assert(old(array)@.subrange(middle as int, length as int).len() == old(array)@.subrange(middle as int, length as int).to_multiset().len());
        vstd::seq_lib::lemma_multiset_commutative(
            old(array)@.subrange(0, middle as int),
            old(array)@.subrange(middle as int, length as int),
        );
        assert(old(array)@.subrange(0, middle as int) + old(array)@.subrange(middle as int, length as int)
            =~= old(array)@);
    }
    let mut first_pointer: usize = 0;
    let mut second_pointer: usize = 0;
    let mut index: usize = 0;
    while index < length
        invariant
            length == array@.len(),
            length == first_part@.len() + second_part@.len(),
            is_sorted(first_part@),
            is_sorted(second_part@),
            first_pointer <= first_part@.len(),
            second_pointer <= second_part@.len(),
            index == first_pointer + second_pointer,
            array@.subrange(0, index as int).to_multiset() == first_part@.subrange(
                0,
                first_pointer as int,
            ).to_multiset().add(second_part@.subrange(0, second_pointer as int).to_multiset()),
            forall|p: int, q: int| 0 <= p <= q < index ==> array@[p] <= array@[q],
            index > 0 && first_pointer < first_part@.len() ==> array@[index - 1]
                <= first_part@[first_pointer as int],
            index > 0 && second_pointer < second_part@.len() ==> array@[index - 1]
                <= second_part@[second_pointer as int],
        decreases length - index,
    {
        let is_first_valid = first_pointer < first_part.len();
        let is_second_valid = second_pointer < second_part.len();
        let ghost a0 = array@;
        let ghost f0 = first_pointer as int;
        let ghost s0 = second_pointer as int;
        if !is_second_valid || (is_first_valid && first_part[first_pointer] < second_part[second_pointer]) {
            let value = first_part[first_pointer];
            array.set(index, value);
            first_pointer = first_pointer + 1;
            proof {
                assert(array@.subrange(0, index + 1) =~= a0.subrange(0, index as int).push(value));
                assert(first_part@.subrange(0, f0 + 1) =~= first_part@.subrange(0, f0).push(value));
            }
        } else {
            let value = second_part[second_pointer];
            array.set(index, value);
            second_pointer = second_pointer + 1;
            proof {
                assert(array@.subrange(0, index + 1) =~= a0.subrange(0, index as int).push(value));
                assert(second_part@.subrange(0, s0 + 1) =~= second_part@.subrange(0, s0).push(value));
            }
        }
        index = index + 1;
    }
    proof {
        assert(array@.subrange(0, length as int) =~= array@);
        assert(first_part@.subrange(0, first_pointer as int) =~= first_part@);
        assert(second_part@.subrange(0, second_pointer as int) =~= second_part@);
    }
}

/// Sorts by placing a pivot between the smaller and the larger values, then sorting
/// each side.
pub fn quick_sort(array: &mut Vec<i32>)
    ensures
        is_sorted(final(array)@),
        final(array)@.to_multiset() == old(array)@.to_multiset(),
{
    if array.len() == 0 {
        return ;
    }
    let end = array.len() - 1;
    make_partitioning(array, 0, end);
    proof {
        assert(array@.subrange(0, end + 1) =~= array@);
        assert(old(array)@.subrange(0, end + 1) =~= old(array)@);
    }
}

/// Splitting a sequence around a range: the values outside stay, the range's values move.
proof fn lemma_range_multiset(a: Seq<i32>, b: Seq<i32>, start: int, end: int)
    requires
        0 <= start <= end <= a.len(),
        a.len() == b.len(),
        forall|p: int| 0 <= p < start ==> a[p] == b[p],
        forall|p: int| end <= p < a.len() ==> a[p] == b[p],
        a.subrange(start, end).to_multiset() == b.subrange(start, end).to_multiset(),
    ensures
        a.to_multiset() == b.to_multiset(),
{
    let n = a.len() as int;
    assert(a =~= a.subrange(0, start) + a.subrange(start, end) + a.subrange(end, n));
    assert(b =~= b.subrange(0, start) + b.subrange(start, end) + b.subrange(end, n));
    assert(a.subrange(0, start) =~= b.subrange(0, start));
    assert(a.subrange(end, n) =~= b.subrange(end, n));
    vstd::seq_lib::lemma_multiset_commutative(a.subrange(0, start) + a.subrange(start, end), a.subrange(end, n));
    vstd::seq_lib::lemma_multiset_commutative(b.subrange(0, start) + b.subrange(start, end), b.subrange(end, n));
    vstd::seq_lib::lemma_multiset_commutative(a.subrange(0, start), a.subrange(start, end));
    vstd::seq_lib::lemma_multiset_commutative(b.subrange(0, start), b.subrange(start, end));
}

/// A value of a range, through its multiset, is a value at some position of the range.
proof fn lemma_in_range(a: Seq<i32>, b: Seq<i32>, start: int, end: int, p: int)
    requires
        0 <= start <= p < end <= a.len(),
        a.len() == b.len(),
        a.subrange(start, end).to_multiset() == b.subrange(start, end).to_multiset(),
    ensures
        exists|q: int| start <= q < end && b[q] == a[p],
{
    assert(a.subrange(start, end)[p - start] == a[p]);
    assert(a.subrange(start, end).contains(a[p]));
    assert(b.subrange(start, end).to_multiset().count(a[p]) > 0);
    assert(b.subrange(start, end).contains(a[p]));
    let k = choose|k: int| 0 <= k < end - start && b.subrange(start, end)[k] == a[p];
    assert(b[start + k] == a[p]);
}

fn make_partitioning(array: &mut Vec<i32>, start: usize, end: usize)
    requires
        start <= end < old(array)@.len(),
    ensures
        final(array)@.len() == old(array)@.len(),
        forall|p: int, q: int| start <= p <= q <= end ==> final(array)@[p] <= final(array)@[q],
        final(array)@.subrange(start as int, end + 1).to_multiset() == old(array)@.subrange(
            start as int,
            end + 1,
        ).to_multiset(),
        forall|p: int| 0 <= p < start ==> final(array)@[p] == old(array)@[p],
        forall|p: int| end < p < old(array)@.len() ==> final(array)@[p] == old(array)@[p],
    decreases end - start,
{
    let pivot = array[end];
    let mut boundary = start;
    let mut index = start;
    let ghost a0 = array@;
    while index < end
        invariant
            start <= boundary <= index <= end < array@.len(),
            array@.len() == a0.len(),
            array@[end as int] == pivot,
            forall|p: int| start <= p < boundary ==> array@[p] <= pivot,
            forall|p: int| boundary <= p < index ==> array@[p] > pivot,
            forall|p: int| 0 <= p < start ==> array@[p] == a0[p],
            forall|p: int| end <= p < a0.len() ==> array@[p] == a0[p],
            array@.to_multiset() == a0.to_multiset(),
        decreases end - index,
    {
        if array[index] <= pivot {
            swap(array, boundary, index);
            boundary = boundary + 1;
        }
        index = index + 1;
    }
    swap(array, boundary, end);
    let ghost a1 = array@;
    proof {
        let n = a0.len() as int;
        let e = end + 1;
        assert(a0 =~= a0.subrange(0, start as int) + a0.subrange(start as int, e) + a0.subrange(e, n));
        assert(a1 =~= a1.subrange(0, start as int) + a1.subrange(start as int, e) + a1.subrange(e, n));
        assert(a0.subrange(0, start as int) =~= a1.subrange(0, start as int));
        assert(a0.subrange(e, n) =~= a1.subrange(e, n));
        vstd::seq_lib::lemma_multiset_commutative(a0.subrange(0, start as int) + a0.subrange(start as int, e), a0.subrange(e, n));
        vstd::seq_lib::lemma_multiset_commutative(a1.subrange(0, start as int) + a1.subrange(start as int, e), a1.subrange(e, n));
        vstd::seq_lib::lemma_multiset_commutative(a0.subrange(0, start as int), a0.subrange(start as int, e));
        vstd::seq_lib::lemma_multiset_commutative(a1.subrange(0, start as int), a1.subrange(start as int, e));
        let ma = a0.subrange(start as int, e).to_multiset();
        let mb = a1.subrange(start as int, e).to_multiset();
        assert forall|x: i32| ma.count(x) == mb.count(x) by {
            assert(a0.to_multiset().count(x) == a1.to_multiset().count(x));
        }
        assert(ma =~= mb);
    }
    if boundary > start {
        make_partitioning(array, start, boundary - 1);
    }
    let ghost a2 = array@;
    if boundary < end {
        make_partitioning(array, boundary + 1, end);
    }
    let ghost a3 = array@;
    proof {
        let b = boundary as int;
        // the left side holds values no larger than the pivot, the right side larger ones
        assert forall|p: int| start <= p < b implies a2[p] <= pivot by {
            lemma_in_range(a2, a1, start as int, b, p);
        }
        assert forall|p: int| b < p <= end implies a3[p] > pivot by {
            lemma_in_range(a3, a2, b + 1, end + 1, p);
            let q = choose|q: int| b + 1 <= q < end + 1 && a2[q] == a3[p];
            assert(a2[q] == a1[q]);
        }
        assert(a3[b] == pivot);
        assert forall|p: int, q: int| start <= p <= q <= end implies a3[p] <= a3[q] by {
            if p < b && q >= b {
                assert(a3[p] == a2[p]);
            }
        }
        assert(a2.subrange(start as int, end + 1).to_multiset() == a1.subrange(start as int, end + 1).to_multiset()) by {
            if boundary > start {
                let x = a1.subrange(start as int, end + 1);
                let y = a2.subrange(start as int, end + 1);
                assert(x.subrange(0, b - start) =~= a1.subrange(start as int, b));
                assert(y.subrange(0, b - start) =~= a2.subrange(start as int, b));
                lemma_range_multiset(x, y, 0, b - start);
            } else {
                assert(a2 == a1);
            }
        }
        assert(a3.subrange(start as int, end + 1).to_multiset() == a2.subrange(start as int, end + 1).to_multiset()) by {
            if boundary < end {
                let x = a2.subrange(start as int, end + 1);
                let y = a3.subrange(start as int, end + 1);
                assert(x.subrange(b + 1 - start, end + 1 - start) =~= a2.subrange(b + 1, end + 1));
                assert(y.subrange(b + 1 - start, end + 1 - start) =~= a3.subrange(b + 1, end + 1));
                lemma_range_multiset(x, y, b + 1 - start, end + 1 - start);
            } else {
                assert(a3 == a2);
            }
        }
    }
}

/// The values never decrease from left to right.
pub open spec fn is_ascending(s: Seq<usize>) -> bool {
    forall|i: int, j: int| 0 <= i <= j < s.len() ==> s[i] <= s[j]
}

/// Sorts values no larger than `k` by counting how often each occurs; leaves the array
/// as it was when some value exceeds `k`.
pub fn counting_sort(array: &mut Vec<usize>, k: usize)
    requires
        k < usize::MAX,
    ensures
        (exists|i: int| 0 <= i < old(array)@.len() && old(array)@[i] > k) ==> final(array)@ == old(
            array,
        )@,
        (forall|i: int| 0 <= i < old(array)@.len() ==> old(array)@[i] <= k) ==> is_ascending(
            final(array)@,
        ) && final(array)@.to_multiset() == old(array)@.to_multiset(),
{
    let ghost whole = array@.to_multiset();
    let mut counts: Vec<usize> = Vec::new();
    let mut v: usize = 0;
    while v <= k
        invariant
            v <= k + 1,
            k < usize::MAX,
            counts@.len() == v,
            forall|x: int| 0 <= x < v ==> #[trigger] counts@[x] == 0,
        decreases k + 1 - v,
    {
        counts.push(0);
        v = v + 1;
    }
    let n = array.len();
    let mut i: usize = 0;
    while i < n
        invariant
            n == array@.len(),
            array@ == old(array)@,
            i <= n,
            counts@.len() == k + 1,
            forall|j: int| 0 <= j < i ==> array@[j] <= k,
            forall|x: int|
                0 <= x <= k ==> #[trigger] counts@[x] == array@.subrange(0, i as int).to_multiset().count(
                    x as usize,
                ),
        decreases n - i,
    {
        let number = array[i];
        if number > k {
            return ;
        }
        proof {
            let m = array@.subrange(0, i as int).to_multiset();
            assert(m.count(number) <= m.len());
            assert(array@.subrange(0, i + 1) =~= array@.subrange(0, i as int).push(number));
        }
        counts.set(number, counts[number] + 1);
        i = i + 1;
    }
    proof {
        assert(array@.subrange(0, n as int) =~= array@);
        assert(whole.len() == old(array)@.len());
    }
    let mut insert_index: usize = 0;
    let mut mapped_number: usize = 0;
    while mapped_number < counts.len()
        invariant
            n == array@.len(),
            counts@.len() == k + 1,
            whole == old(array)@.to_multiset(),
            whole.len() == n,
            forall|j: int| 0 <= j < n ==> old(array)@[j] <= k,
            forall|x: int| 0 <= x <= k ==> #[trigger] counts@[x] == whole.count(x as usize),
            mapped_number <= k + 1,
            insert_index <= n,
            forall|x: usize|
                #[trigger] array@.subrange(0, insert_index as int).to_multiset().count(x) == if x
                    < mapped_number {
                    whole.count(x)
                } else {
                    0
                },
            forall|p: int, q: int| 0 <= p <= q < insert_index ==> array@[p] <= array@[q],
            forall|p: int| 0 <= p < insert_index ==> array@[p] < mapped_number,
        decreases k + 1 - mapped_number,
    {
        let mut copies: usize = 0;
        while copies < counts[mapped_number]
            invariant
                n == array@.len(),
                counts@.len() == k + 1,
                mapped_number <= k,
                forall|x: int| 0 <= x <= k ==> #[trigger] counts@[x] == whole.count(x as usize),
                whole.len() == n,
                insert_index <= n,
                copies <= counts@[mapped_number as int],
                forall|x: usize|
                    #[trigger] array@.subrange(0, insert_index as int).to_multiset().count(x) == if x
                        < mapped_number {
                        whole.count(x)
                    } else if x == mapped_number {
                        copies as nat
                    } else {
                        0
                    },
                forall|p: int, q: int| 0 <= p <= q < insert_index ==> array@[p] <= array@[q],
                forall|p: int| 0 <= p < insert_index ==> array@[p] <= mapped_number,
            decreases counts@[mapped_number as int] - copies,
        {
            let ghost before = array@.subrange(0, insert_index as int);
            proof {
                let m = before.to_multiset().insert(mapped_number);
                assert(m.subset_of(whole)) by {
                    assert forall|x: usize| m.count(x) <= whole.count(x) by {
                        if x < mapped_number {
                        } else if x == mapped_number {
                        } else {
                        }
                    }
                }
                assert(whole.sub(m).len() == whole.len() - m.len());
                assert(before.to_multiset().len() == insert_index);
            }
            array.set(insert_index, mapped_number);
            proof {
                assert(array@.subrange(0, insert_index + 1) =~= before.push(mapped_number));
            }
            insert_index = insert_index + 1;
            copies = copies + 1;
        }
        mapped_number = mapped_number + 1;
    }
    proof {
        let m = array@.subrange(0, insert_index as int).to_multiset();
        assert forall|x: usize| m.count(x) == whole.count(x) by {
            if x > k {
                if whole.count(x) > 0 {
                    assert(old(array)@.contains(x));
                }
            }
        }
        assert(m =~= whole);
        assert(m.len() == insert_index);
        assert(array@.subrange(0, n as int) =~= array@);
    }
}

} // verus!
