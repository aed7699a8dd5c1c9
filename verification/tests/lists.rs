use aoc25::ds::doubly_linked_list::DoublyLinkedList;
use aoc25::ds::linked_list::LinkedList;

#[test]
fn new_list_is_empty() {
    let ll: LinkedList<i32> = LinkedList::new();
    assert!(ll.is_empty());
    assert_eq!(ll.len(), 0);
    assert!(ll.peek().is_none());
}

#[test]
fn push_and_pop_front_many() {
    let mut ll = LinkedList::new();
    for i in 0..5 {
        ll.push_front(i);
    }
    assert_eq!(ll.len(), 5);
    assert_eq!(ll.peek(), Some(&4));

    for expected in (0..5).rev() {
        assert_eq!(ll.pop_front(), Some(expected));
    }
    assert!(ll.is_empty());
    assert_eq!(ll.pop_front(), None);
}

#[test]
fn peek_and_peek_mut() {
    let mut ll = LinkedList::new();
    ll.push_front(10);
    assert_eq!(ll.peek(), Some(&10));
    if let Some(x) = ll.peek_mut() {
        *x = 20;
    }
    assert_eq!(ll.peek(), Some(&20));
}

#[test]
fn iterates_in_stack_order() {
    let mut ll = LinkedList::new();
    for i in 1..=4 { ll.push_front(i); }
    let v: Vec<_> = ll.iter().cloned().collect();
    assert_eq!(v, vec![4, 3, 2, 1]);
}

#[test]
fn clear_empties_list() {
    let mut ll = LinkedList::new();
    for i in 0..3 { ll.push_front(i); }
    ll.clear();
    assert!(ll.is_empty());
    assert_eq!(ll.len(), 0);
    assert!(ll.peek().is_none());
}

#[test]
fn interleaved_ops() {
    let mut ll = LinkedList::new();
    ll.push_front(1);
    ll.push_front(2);
    assert_eq!(ll.pop_front(), Some(2));
    ll.push_front(3);
    assert_eq!(ll.peek(), Some(&3));
    assert_eq!(ll.pop_front(), Some(3));
    assert_eq!(ll.pop_front(), Some(1));
    assert_eq!(ll.pop_front(), None);
}

#[test]
fn reuse_after_clear() {
    let mut ll = LinkedList::new();
    for i in 0..10 { ll.push_front(i); }
    ll.clear();
    for i in 10..20 { ll.push_front(i); }
    assert_eq!(ll.len(), 10);
    assert_eq!(ll.peek(), Some(&19));
}

#[test]
fn iter_empty() {
    let ll: LinkedList<i32> = LinkedList::new();
    assert_eq!(ll.iter().next(), None);
}

#[test]
fn stress_push_pop_1000() {
    let mut ll = LinkedList::new();
    for i in 0..1000 { ll.push_front(i); }
    assert_eq!(ll.len(), 1000);
    for i in (0..1000).rev() { assert_eq!(ll.pop_front(), Some(i)); }
    assert!(ll.is_empty());
}

#[test]
fn new_is_empty() {
    let dl: DoublyLinkedList<i32> = DoublyLinkedList::new();
    assert!(dl.is_empty());
    assert_eq!(dl.len(), 0);
}

#[test]
fn push_front_and_peek() {
    let mut dl = DoublyLinkedList::new();
    dl.push_front(2);
    dl.push_front(1);
    assert_eq!(dl.len(), 2);
    assert_eq!(dl.peek_front(), Some(1));
    assert_eq!(dl.peek_back(), Some(2));
}

#[test]
fn push_back_and_peek() {
    let mut dl = DoublyLinkedList::new();
    dl.push_back(1);
    dl.push_back(2);
    assert_eq!(dl.len(), 2);
    assert_eq!(dl.peek_front(), Some(1));
    assert_eq!(dl.peek_back(), Some(2));
}

#[test]
fn pop_front_cloned_sequence() {
    let mut dl = DoublyLinkedList::new();
    for i in 1..=3 { dl.push_back(i); }
    assert_eq!(dl.pop_front_cloned(), Some(1));
    assert_eq!(dl.pop_front_cloned(), Some(2));
    assert_eq!(dl.pop_front_cloned(), Some(3));
    assert_eq!(dl.pop_front_cloned(), None);
    assert!(dl.is_empty());
}

#[test]
fn pop_back_cloned_sequence() {
    let mut dl = DoublyLinkedList::new();
    for i in 1..=3 { dl.push_back(i); }
    assert_eq!(dl.pop_back_cloned(), Some(3));
    assert_eq!(dl.pop_back_cloned(), Some(2));
    assert_eq!(dl.pop_back_cloned(), Some(1));
    assert_eq!(dl.pop_back_cloned(), None);
    assert!(dl.is_empty());
}

#[test]
fn mixed_ops() {
    let mut dl = DoublyLinkedList::new();
    dl.push_back(1);
    dl.push_front(0);
    dl.push_back(2);
    assert_eq!(dl.peek_front(), Some(0));
    assert_eq!(dl.peek_back(), Some(2));
    assert_eq!(dl.pop_front_cloned(), Some(0));
    assert_eq!(dl.pop_back_cloned(), Some(2));
    assert_eq!(dl.pop_front_cloned(), Some(1));
    assert!(dl.is_empty());
}

#[test]
fn clear_and_reuse() {
    let mut dl = DoublyLinkedList::new();
    for i in 0..5 { dl.push_back(i); }
    dl.clear();
    assert!(dl.is_empty());
    for i in 5..10 { dl.push_front(i); }
    assert_eq!(dl.peek_front(), Some(9));
    assert_eq!(dl.len(), 5);
}

#[test]
fn into_iter_drains() {
    let mut dl = DoublyLinkedList::new();
    for i in 0..4 { dl.push_back(i); }
    let v: Vec<_> = dl.into_iter().collect();
    assert_eq!(v, vec![0,1,2,3]);
}

#[test]
fn peek_on_empty_and_clear_empty() {
    let mut dl: DoublyLinkedList<i32> = DoublyLinkedList::new();
    assert_eq!(dl.peek_front(), None);
    assert_eq!(dl.peek_back(), None);
    dl.clear(); // idempotent
    assert!(dl.is_empty());
}

#[test]
fn single_element_pop_from_back_and_front() {
    let mut dl = DoublyLinkedList::new();
    dl.push_back(42);
    assert_eq!(dl.pop_back_cloned(), Some(42));
    assert!(dl.is_empty());

    dl.push_front(7);
    assert_eq!(dl.pop_front_cloned(), Some(7));
    assert!(dl.is_empty());
}
