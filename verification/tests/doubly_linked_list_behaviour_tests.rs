use data_structures::doubly_linked_list::DoublyLinkedList;

fn values(list: &DoublyLinkedList<i32>) -> Vec<i32> {
    let mut found = Vec::new();
    let mut iter = list.iter();
    while let Some(at) = iter.next() {
        found.push(list.item(at).value);
    }
    found
}

fn values_backwards(list: &DoublyLinkedList<i32>) -> Vec<i32> {
    let mut found = Vec::new();
    let mut cursor = list.tail;
    while let Some(at) = cursor {
        found.push(list.item(at).value);
        cursor = list.item(at).prev;
    }
    found
}

#[test]
fn new_list_is_empty() {
    let mut list: DoublyLinkedList<i32> = DoublyLinkedList::new();
    assert!(list.head.is_none());
    assert!(list.tail.is_none());
    assert!(list.iter().next().is_none());
    assert!(list.pop().is_none());
    assert!(list.pop_head().is_none());
}

#[test]
fn push_head_and_push_keep_the_order() {
    let mut list: DoublyLinkedList<i32> = DoublyLinkedList::new();
    list.push(2);
    list.push_head(1);
    list.push(3);
    list.push_head(0);
    assert_eq!(values(&list), vec![0, 1, 2, 3]);
    assert_eq!(values_backwards(&list), vec![3, 2, 1, 0]);
    assert_eq!(list.item(list.head.unwrap()).value, 0);
    assert_eq!(list.item(list.tail.unwrap()).value, 3);
}

#[test]
fn one_item_is_head_and_tail() {
    let mut list: DoublyLinkedList<i32> = DoublyLinkedList::new();
    list.push_head(7);
    assert_eq!(list.head, list.tail);
    let only = list.item(list.head.unwrap());
    assert_eq!(only.value, 7);
    assert!(only.next.is_none());
    assert!(only.prev.is_none());
}

#[test]
fn pop_takes_from_either_end() {
    let mut list: DoublyLinkedList<i32> = DoublyLinkedList::new();
    for value in [1, 2, 3, 4] {
        list.push(value);
    }
    assert_eq!(list.pop_head(), Some(1));
    assert_eq!(list.pop(), Some(4));
    assert_eq!(values(&list), vec![2, 3]);
    assert_eq!(values_backwards(&list), vec![3, 2]);
    assert!(list.item(list.head.unwrap()).prev.is_none());
    assert!(list.item(list.tail.unwrap()).next.is_none());
    assert_eq!(list.pop(), Some(3));
    assert_eq!(list.head, list.tail);
    assert_eq!(list.pop_head(), Some(2));
    assert!(list.head.is_none());
    assert!(list.tail.is_none());
    list.push(9);
    assert_eq!(values(&list), vec![9]);
}

#[test]
fn links_name_the_neighbours() {
    let mut list: DoublyLinkedList<i32> = DoublyLinkedList::new();
    list.push(5);
    list.push(25);
    list.push(50);
    let first = list.head.unwrap();
    let second = list.item(first).next.unwrap();
    let third = list.item(second).next.unwrap();
    assert_eq!(list.tail, Some(third));
    assert_eq!(list.item(third).prev, Some(second));
    assert_eq!(list.item(second).prev, Some(first));
    assert!(list.item(first).prev.is_none());
    assert!(list.item(third).next.is_none());
}

#[test]
fn insert_after_the_tail_moves_the_tail() {
    let mut list: DoublyLinkedList<i32> = DoublyLinkedList::new();
    list.push(5);
    list.push(25);
    list.insert_after(list.tail.unwrap(), 40);
    assert_eq!(values(&list), vec![5, 25, 40]);
    assert_eq!(values_backwards(&list), vec![40, 25, 5]);
    assert_eq!(list.item(list.tail.unwrap()).value, 40);
}

#[test]
fn insert_before_the_head_moves_the_head() {
    let mut list: DoublyLinkedList<i32> = DoublyLinkedList::new();
    list.push(5);
    list.push(25);
    list.insert_before(list.head.unwrap(), 40);
    assert_eq!(values(&list), vec![40, 5, 25]);
    assert_eq!(values_backwards(&list), vec![25, 5, 40]);
    assert_eq!(list.item(list.head.unwrap()).value, 40);
}

#[test]
fn handles_stay_valid_while_the_list_changes() {
    let mut list: DoublyLinkedList<i32> = DoublyLinkedList::new();
    list.push(5);
    list.push(25);
    list.push(50);
    let second = list.item(list.head.unwrap()).next.unwrap();
    list.push_head(1);
    list.push(99);
    list.insert_before(second, 20);
    list.insert_after(second, 30);
    assert_eq!(list.item(second).value, 25);
    assert_eq!(values(&list), vec![1, 5, 20, 25, 30, 50, 99]);
    list.remove(second);
    assert_eq!(values(&list), vec![1, 5, 20, 30, 50, 99]);
    assert_eq!(values_backwards(&list), vec![99, 50, 30, 20, 5, 1]);
}

#[test]
fn remove_the_tail_of_three() {
    let mut list: DoublyLinkedList<i32> = DoublyLinkedList::new();
    list.push(5);
    list.push(25);
    list.push(50);
    list.remove(list.tail.unwrap());
    assert_eq!(list.item(list.head.unwrap()).value, 5);
    assert_eq!(list.item(list.tail.unwrap()).value, 25);
    assert!(list.item(list.tail.unwrap()).next.is_none());
    assert_eq!(values(&list), vec![5, 25]);
    list.push(60);
    assert_eq!(values(&list), vec![5, 25, 60]);
    assert_eq!(list.pop(), Some(60));
    assert_eq!(list.pop(), Some(25));
}

#[test]
fn remove_the_head_of_three() {
    let mut list: DoublyLinkedList<i32> = DoublyLinkedList::new();
    list.push(5);
    list.push(25);
    list.push(50);
    list.remove(list.head.unwrap());
    assert_eq!(list.item(list.head.unwrap()).value, 25);
    assert!(list.item(list.head.unwrap()).prev.is_none());
    assert_eq!(list.item(list.tail.unwrap()).value, 50);
    assert_eq!(values(&list), vec![25, 50]);
    assert_eq!(values_backwards(&list), vec![50, 25]);
}

#[test]
fn foreach_replaces_every_value_in_order() {
    let mut list: DoublyLinkedList<i32> = DoublyLinkedList::new();
    list.foreach(|value: &i32| *value + 1);
    assert!(list.head.is_none());
    for value in [1, 2, 3] {
        list.push(value);
    }
    list.foreach(|value: &i32| *value * *value + 1);
    assert_eq!(values(&list), vec![2, 5, 10]);
    assert_eq!(values_backwards(&list), vec![10, 5, 2]);
}

#[test]
fn pop_returns_a_copy_of_the_value() {
    let mut list: DoublyLinkedList<String> = DoublyLinkedList::new();
    list.push(String::from("a"));
    list.push(String::from("b"));
    assert_eq!(list.pop_head(), Some(String::from("a")));
    assert_eq!(list.pop(), Some(String::from("b")));
    assert!(list.pop().is_none());
}

#[test]
fn pass_stays_at_the_end() {
    let mut list: DoublyLinkedList<i32> = DoublyLinkedList::new();
    list.push(5);
    let mut iter = list.iter();
    assert!(iter.next().is_some());
    assert!(iter.next().is_none());
    assert!(iter.next().is_none());
}
