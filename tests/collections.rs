use rust_data_structures::arrays::DynamicArray;
use rust_data_structures::hash_tables::HashTable;
use rust_data_structures::lists::LinkedList;
use rust_data_structures::stacks::Stack;

fn list_of(values: &[i32]) -> LinkedList<i32> {
    let mut list = LinkedList::new();
    for v in values {
        list.add_last(*v);
    }
    list
}

#[test]
fn list_adds_at_both_ends() {
    let mut list = list_of(&[2, 3]);
    list.add_first(1);
    list.add_last(4);
    assert_eq!(list.to_vec(), vec![1, 2, 3, 4]);
    assert_eq!(list.size(), 4);
    assert!(!list.is_empty());
}

#[test]
fn list_removes_at_both_ends() {
    let mut list = list_of(&[1, 2, 3]);
    assert_eq!(list.remove_first(), Ok(()));
    assert_eq!(list.remove_last(), Ok(()));
    assert_eq!(list.to_vec(), vec![2]);
    assert_eq!(list.remove_last(), Ok(()));
    assert!(list.is_empty());
    assert_eq!(list.remove_last(), Err("List is empty"));
    assert_eq!(list.remove_first(), Err("List is empty"));
}

#[test]
fn list_finds_values() {
    let list = list_of(&[5, 7, 5]);
    assert_eq!(list.index_of(5), 0);
    assert_eq!(list.index_of(7), 1);
    assert_eq!(list.index_of(9), -1);
    assert!(list.contains(7));
    assert!(!list.contains(9));
}

#[test]
fn list_reverses() {
    let mut list = list_of(&[1, 2, 3]);
    list.reverse();
    assert_eq!(list.to_vec(), vec![3, 2, 1]);
    let mut empty: LinkedList<i32> = LinkedList::new();
    empty.reverse();
    assert!(empty.is_empty());
}

#[test]
fn list_kth_from_end() {
    let list = list_of(&[10, 20, 30]);
    assert_eq!(list.get_kth_from_end(1), Ok(30));
    assert_eq!(list.get_kth_from_end(3), Ok(10));
    assert_eq!(list.get_kth_from_end(0), Err("K must be greater than zero"));
    assert_eq!(list.get_kth_from_end(4), Err("K must be less than or equal to size of the list"));
}

#[test]
fn stack_is_last_in_first_out() {
    let mut stack = Stack::new();
    assert!(stack.is_empty());
    assert_eq!(stack.peek(), Err("Stack is empty"));
    assert_eq!(stack.pop(), Err("Stack is empty"));
    stack.push(1);
    stack.push(2);
    assert_eq!(stack.peek(), Ok(2));
    assert_eq!(stack.pop(), Ok(2));
    assert_eq!(stack.pop(), Ok(1));
    assert!(stack.is_empty());
}

#[test]
fn hash_table_puts_gets_and_removes() {
    let mut table = HashTable::new(3);
    table.put(1, String::from("one"));
    table.put(4, String::from("four"));
    table.put(7, String::from("seven"));
    assert_eq!(table.get(1), Some(String::from("one")));
    assert_eq!(table.get(4), Some(String::from("four")));
    assert_eq!(table.get(2), None);
    table.put(4, String::from("FOUR"));
    assert_eq!(table.get(4), Some(String::from("FOUR")));
    table.remove(4);
    assert_eq!(table.get(4), None);
    assert_eq!(table.get(7), Some(String::from("seven")));
    table.remove(9);
    assert_eq!(table.get(1), Some(String::from("one")));
}

#[test]
fn dynamic_array_grows_and_shrinks() {
    let mut array = DynamicArray::new(1);
    for item in [4u8, 8, 15, 16, 23, 42] {
        array.insert(item);
    }
    assert_eq!(array.index_of(15), 2);
    assert_eq!(array.index_of(99), -1);
    array.remove_at(2);
    assert_eq!(array.index_of(15), -1);
    assert_eq!(array.index_of(16), 2);
    array.remove_at(0);
    assert_eq!(array.index_of(8), 0);
}
