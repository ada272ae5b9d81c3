use rust_data_structures::heaps::Heap;

#[test]
fn heap_removes_largest_first() {
    let mut heap = Heap::new();
    assert!(heap.is_empty());
    for value in [10, 5, 17, 4, 22, 17, -3] {
        heap.insert(value);
    }
    let mut out = Vec::new();
    while let Ok(value) = heap.remove() {
        out.push(value);
    }
    assert_eq!(out, vec![22, 17, 17, 10, 5, 4, -3]);
    assert!(heap.is_empty());
    assert_eq!(heap.remove(), Err("Heap is empty"));
}

#[test]
fn heap_dive_takes_larger_child() {
    let mut heap = Heap::heapify(vec![10, 9, 8, 1, 2, 3, 7]);
    assert_eq!(heap.remove(), Ok(10));
    assert_eq!(heap.remove(), Ok(9));
    assert_eq!(heap.remove(), Ok(8));
}

#[test]
fn heapify_orders_any_input() {
    let mut heap = Heap::heapify(vec![3, 1, 4, 1, 5, 9, 2, 6]);
    let mut out = Vec::new();
    while let Ok(value) = heap.remove() {
        out.push(value);
    }
    assert_eq!(out, vec![9, 6, 5, 4, 3, 2, 1, 1]);
}
