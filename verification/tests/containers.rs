use aoc25::ds::dsu::DisjointSet;
use aoc25::ds::array_list::ArrayList;
use aoc25::ds::queue::{Deque, Queue};
use aoc25::ds::stack::Stack;

#[test]
fn stack_basic() {
    let mut s = Stack::new();
    assert!(s.is_empty());
    s.push(1);
    s.push(2);
    assert_eq!(s.peek(), Some(&2));
    assert_eq!(s.pop(), Some(2));
    assert_eq!(s.pop(), Some(1));
    assert_eq!(s.pop(), None);
    assert_eq!(s.len(), 0);
}

#[test]
fn peek_empty() {
    let s: Stack<i32> = Stack::new();
    assert!(s.peek().is_none());
}

#[test]
fn queue_basic() {
    let mut q = Queue::new();
    q.push(1); q.push(2);
    assert_eq!(q.peek(), Some(&1));
    assert_eq!(q.pop(), Some(1));
    assert_eq!(q.pop(), Some(2));
    assert_eq!(q.pop(), None);
    assert!(q.is_empty());
}

#[test]
fn deque_basic() {
    let mut d = Deque::new();
    d.push_back(2); d.push_front(1); d.push_back(3);
    assert_eq!(d.front(), Some(&1));
    assert_eq!(d.back(), Some(&3));
    assert_eq!(d.pop_front(), Some(1));
    assert_eq!(d.pop_back(), Some(3));
    assert_eq!(d.pop_back(), Some(2));
    assert!(d.is_empty());
    assert_eq!(d.len(), 0);
}

#[test]
fn queue_len() {
    let mut q = Queue::new();
    assert_eq!(q.len(), 0);
    q.push(1);
    assert_eq!(q.len(), 1);
}

#[test]
fn basic_ops() {
    let mut a = ArrayList::new();
    assert!(a.is_empty());
    a.push(1);
    a.push(2);
    a.push(3);
    assert_eq!(a.len(), 3);
    assert_eq!(a.get(1), Some(&2));
    if let Some(x) = a.get_mut(1) { *x = 20; }
    assert_eq!(a.get(1), Some(&20));
    assert_eq!(a.slice(0..2), &[1,20]);
    a.slice_mut(1..3).iter_mut().for_each(|x| *x += 1);
    assert_eq!(a.into_vec(), vec![1,21,4]);
}

#[test]
fn dsu_basic() {
    let mut d = DisjointSet::new();
    d.union(1, 2);
    d.union(3, 4);
    d.union(2, 3);
    assert!(d.connected(1, 4));
    assert_eq!(d.size_of(1), 4);
    assert_eq!(d.count(), 1);
}

#[test]
fn dsu_larger_class_keeps_its_representative() {
    let mut d = DisjointSet::new();
    d.union(1, 2);
    assert_eq!(d.find(2), 1);
    d.union(3, 1);
    assert_eq!(d.find(3), 1);
    assert_eq!(d.find(1), 1);
    d.union(7, 8);
    d.union(8, 9);
    d.union(9, 1);
    assert_eq!(d.find(7), 7);
    assert_eq!(d.find(2), 7);
    assert_eq!(d.size_of(3), 6);
    assert_eq!(d.count(), 1);
}

#[test]
fn dsu_unseen_keys_are_alone() {
    let mut d = DisjointSet::new();
    assert_eq!(d.count(), 0);
    assert_eq!(d.find(5), 5);
    assert_eq!(d.count(), 1);
    assert_eq!(d.size_of(6), 1);
    assert_eq!(d.count(), 2);
    assert!(!d.connected(5, 6));
    assert!(d.connected(9, 9));
    assert_eq!(d.count(), 3);
    d.union(5, 5);
    assert_eq!(d.count(), 3);
    d.union(5, 6);
    assert_eq!(d.count(), 2);
    d.union(6, 5);
    assert_eq!(d.count(), 2);
}
