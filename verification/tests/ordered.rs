use aoc25::ds::fenwick::Fenwick;
use aoc25::ds::heap::{MaxHeap, MinHeap};
use aoc25::ds::indexed_heap::IndexedMinHeap;
use aoc25::ds::intervals::{Interval, IntervalSet};
use aoc25::ds::monotonic_queue::{MonotonicQueueMax, MonotonicQueueMin};

#[test]
fn min_heap_basic() {
    let mut h = MinHeap::new();
    h.push(3);
    h.push(1);
    h.push(2);
    assert_eq!(h.peek(), Some(&1));
    assert_eq!(h.pop(), Some(1));
    assert_eq!(h.pop(), Some(2));
    assert_eq!(h.pop(), Some(3));
    assert!(h.is_empty());
}

#[test]
fn max_heap_basic() {
    let mut h = MaxHeap::new();
    h.push(3);
    h.push(1);
    h.push(2);
    assert_eq!(h.peek(), Some(&3));
    assert_eq!(h.pop(), Some(3));
    assert_eq!(h.pop(), Some(2));
    assert_eq!(h.pop(), Some(1));
    assert!(h.is_empty());
}

#[test]
fn len_after_push_pop() {
    let mut h = MinHeap::new();
    assert!(h.is_empty());
    h.push(10);
    h.push(5);
    assert_eq!(h.len(), 2);
    h.pop();
    assert_eq!(h.len(), 1);
}

#[test]
fn len_max_heap() {
    let mut h = MaxHeap::new();
    assert_eq!(h.len(), 0);
    h.push(1);
    h.push(2);
    assert_eq!(h.len(), 2);
}

#[test]
fn sliding_min() {
    let a = [4,2,12,3,1,5];
    let mut mq = MonotonicQueueMin::new();
    let k = 3; let mut out = Vec::new();
    for i in 0..a.len() {
        mq.push(a[i]);
        if i >= k-1 { out.push(mq.min().unwrap()); mq.pop_if(a[i+1-k]); }
    }
    assert_eq!(out, vec![2,2,1,1]);
}

#[test]
fn sliding_max() {
    let a = [1,3,2,5,4];
    let mut mq = MonotonicQueueMax::new();
    let k = 2; let mut out = Vec::new();
    for i in 0..a.len() { mq.push(a[i]); if i>=k-1 { out.push(mq.max().unwrap()); mq.pop_if(a[i+1-k]); } }
    assert_eq!(out, vec![3,3,5,5]);
}

#[test]
fn pop_if_noop_when_not_front() {
    let mut mq = MonotonicQueueMin::new();
    mq.push(2); mq.push(3); // 2 is front
    mq.pop_if(99); // no-op
    assert_eq!(mq.min(), Some(2));
}

#[test]
fn lens_and_empty() {
    let mut mq = MonotonicQueueMin::new();
    assert!(mq.is_empty());
    mq.push(5);
    assert_eq!(mq.len(), 1);

    let mut mx = MonotonicQueueMax::new();
    assert!(mx.max().is_none());
    mx.push(1); mx.push(2);
    assert_eq!(mx.max(), Some(2));
}

#[test]
fn interval_ops() {
    let a = Interval::new(1, 3);
    let b = Interval::new(3, 5);
    assert!(a.overlaps(&b));
    assert_eq!(a.merge(&b), Interval::new(1, 5));
    assert!(a.contains(2));
    assert_eq!(a.len(), 3);
}

#[test]
fn set_merge_and_contains() {
    let mut s = IntervalSet::new();
    s.add(Interval::new(5, 7));
    s.add(Interval::new(1, 3));
    s.add(Interval::new(4, 4)); // bridges
    assert_eq!(s.intervals(), &[Interval::new(1, 7)]);
    assert!(s.contains(6));
    assert!(!s.contains(0));
}

#[test]
fn indexed_heap_decrease_key() {
    let mut h = IndexedMinHeap::with_items(5);
    h.set(2, 10);
    h.set(3, 5);
    h.set(1, 7);
    assert!(h.contains(2));
    // decrease key of 2 to become minimum
    h.set(2, 1);
    assert_eq!(h.pop_min(), Some((2, 1)));
    assert_eq!(h.pop_min().map(|x| x.0), Some(3));
    assert_eq!(h.pop_min().map(|x| x.0), Some(1));
    assert_eq!(h.pop_min(), None);
}

#[test]
fn increase_key_triggers_down() {
    let mut h = IndexedMinHeap::with_items(4);
    h.set(0, 1);
    h.set(1, 2);
    h.set(2, 3);
    // Increase priority of 0 (worse), should stay valid and pop order remains 1, then 0, then 2
    h.set(0, 5);
    assert_eq!(h.pop_min(), Some((1, 2)));
    assert_eq!(h.pop_min(), Some((2, 3)));
    assert_eq!(h.pop_min(), Some((0, 5)));
    assert_eq!(h.pop_min(), None);
}

#[test]
fn fenwick_ops() {
    let mut f = Fenwick::new(5);
    f.add(0, 3);
    f.add(2, 5);
    f.add(4, -2);
    assert_eq!(f.sum_prefix(0), 3);
    assert_eq!(f.sum_prefix(2), 8);
    assert_eq!(f.sum_range(1, 3), 5);
    // empty range should be zero
    assert_eq!(f.sum_range(3, 1), 0);
}

#[test]
fn indexed_heap_pops_in_priority_order() {
    let mut h = IndexedMinHeap::with_items(8);
    let prios = [5i64, 3, 9, 1, 7, 2, 8, 6];
    for (i, p) in prios.iter().enumerate() {
        h.set(i, *p);
    }
    h.set(2, 0);
    h.set(3, 4);
    let mut out = Vec::new();
    while let Some((i, p)) = h.pop_min() {
        assert!(!h.contains(i));
        out.push((i, p));
    }
    assert_eq!(out, vec![(2, 0), (5, 2), (1, 3), (3, 4), (0, 5), (7, 6), (4, 7), (6, 8)]);
}

#[test]
fn fenwick_matches_plain_sums() {
    let values = [3i64, -1, 4, 1, -5, 9, 2, -6];
    let mut f = Fenwick::new(values.len());
    for (i, v) in values.iter().enumerate() {
        f.add(i, *v);
    }
    f.add(100, 7);
    for l in 0..values.len() {
        for r in l..values.len() {
            let want: i64 = values[l..=r].iter().sum();
            assert_eq!(f.sum_range(l, r), want);
        }
        assert_eq!(f.sum_prefix(l), values[..=l].iter().sum::<i64>());
    }
    assert_eq!(f.sum_range(5, 2), 0);
}

#[test]
fn heaps_order_any_ordered_items() {
    let mut words = MinHeap::new();
    for w in ["pear", "apple", "quince", "fig"] {
        words.push(w.to_string());
    }
    assert_eq!(words.peek(), Some(&"apple".to_string()));
    assert_eq!(words.pop(), Some("apple".to_string()));
    assert_eq!(words.pop(), Some("fig".to_string()));
    assert_eq!(words.len(), 2);
    let mut pairs = MaxHeap::new();
    pairs.push((1u8, 'b'));
    pairs.push((2u8, 'a'));
    pairs.push((1u8, 'c'));
    assert_eq!(pairs.pop(), Some((2, 'a')));
    assert_eq!(pairs.pop(), Some((1, 'c')));
    assert_eq!(pairs.pop(), Some((1, 'b')));
    assert_eq!(pairs.pop(), None);
}

#[test]
fn monotonic_queues_take_any_ordered_items() {
    let mut least = MonotonicQueueMin::new();
    for c in ['d', 'b', 'e', 'c'] {
        least.push(c);
    }
    assert_eq!(least.min(), Some('b'));
    least.pop_if('b');
    assert_eq!(least.min(), Some('c'));
    assert_eq!(least.len(), 1);
    let mut greatest = MonotonicQueueMax::new();
    for p in [(1u8, 2u8), (3, 0), (2, 9), (2, 1)] {
        greatest.push(p);
    }
    assert_eq!(greatest.max(), Some((3, 0)));
    greatest.pop_if((3, 0));
    assert_eq!(greatest.max(), Some((2, 9)));
}
