use rust_data_structures::queues::{ArrayQueue, PriorityQueue, Queue};

#[test]
fn array_queue_is_first_in_first_out() {
    let mut queue: ArrayQueue<i32, 3> = ArrayQueue::new();
    assert!(queue.is_empty());
    assert_eq!(queue.peek(), Err("Queue is empty"));
    assert_eq!(queue.dequeue(), Err("Queue is empty"));
    assert_eq!(queue.enqueue(1), Ok(()));
    assert_eq!(queue.enqueue(2), Ok(()));
    assert_eq!(queue.enqueue(3), Ok(()));
    assert!(queue.is_full());
    assert_eq!(queue.enqueue(4), Err("Queue is full"));
    assert_eq!(queue.peek(), Ok(&1));
    assert_eq!(queue.dequeue(), Ok(1));
    assert_eq!(queue.enqueue(4), Ok(()));
    assert_eq!(queue.dequeue(), Ok(2));
    assert_eq!(queue.dequeue(), Ok(3));
    assert_eq!(queue.dequeue(), Ok(4));
    assert!(queue.is_empty());
}

#[test]
fn array_queue_of_no_slots_is_full() {
    let mut queue: ArrayQueue<i32, 0> = ArrayQueue::new();
    assert!(queue.is_full());
    assert_eq!(queue.enqueue(1), Err("Queue is full"));
}

#[test]
fn priority_queue_hands_out_largest_first() {
    let mut queue = PriorityQueue::new();
    assert!(!queue.is_full());
    for value in [5, 1, 9, 3, 9] {
        assert_eq!(queue.enqueue(value), Ok(()));
    }
    assert_eq!(queue.peek(), Ok(&1));
    assert_eq!(queue.dequeue(), Ok(9));
    assert_eq!(queue.dequeue(), Ok(9));
    assert_eq!(queue.dequeue(), Ok(5));
    assert_eq!(queue.dequeue(), Ok(3));
    assert_eq!(queue.dequeue(), Ok(1));
    assert_eq!(queue.dequeue(), Err("Queue is empty"));
    assert_eq!(queue.peek(), Err("Queue is empty"));
}
