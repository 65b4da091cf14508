use std::cmp::{Ordering, Reverse};
use std::collections::BinaryHeap;

use compressor::heap::{heap_pop, heap_push};

/// An entry ordered by its weight alone, as the tree builder's nodes are.
#[derive(Debug, Clone, Copy, PartialEq, Eq)]
struct ByWeight(u64, usize);

impl Ord for ByWeight {
    fn cmp(&self, other: &Self) -> Ordering {
        self.0.cmp(&other.0)
    }
}

impl PartialOrd for ByWeight {
    fn partial_cmp(&self, other: &Self) -> Option<Ordering> {
        Some(self.cmp(other))
    }
}

#[test]
fn pops_come_out_lightest_first() {
    let mut h = Vec::new();
    for (i, w) in [5u64, 1, 9, 3, 3, 7, 0, 12].iter().enumerate() {
        heap_push(&mut h, (*w, i));
    }
    let mut weights = Vec::new();
    while let Some((w, _)) = heap_pop(&mut h) {
        weights.push(w);
    }
    assert_eq!(weights, vec![0, 1, 3, 3, 5, 7, 9, 12]);
    assert_eq!(heap_pop(&mut h), None);
}

#[test]
fn ties_leave_in_the_order_of_std_binary_heap() {
    let weights: Vec<u64> = (0..300u64).map(|i| (i * 7919) % 5).collect();
    let mut mine = Vec::new();
    let mut std_heap = BinaryHeap::new();
    for (i, w) in weights.iter().enumerate() {
        heap_push(&mut mine, (*w, i));
        std_heap.push(Reverse(ByWeight(*w, i)));
    }
    // interleave pops and pushes as the tree builder does
    let mut next = weights.len();
    while std_heap.len() > 1 {
        let a = heap_pop(&mut mine).unwrap();
        let b = heap_pop(&mut mine).unwrap();
        let Reverse(sa) = std_heap.pop().unwrap();
        let Reverse(sb) = std_heap.pop().unwrap();
        assert_eq!((a.0, a.1), (sa.0, sa.1));
        assert_eq!((b.0, b.1), (sb.0, sb.1));
        heap_push(&mut mine, (a.0 + b.0, next));
        std_heap.push(Reverse(ByWeight(sa.0 + sb.0, next)));
        next += 1;
    }
    assert_eq!(heap_pop(&mut mine).map(|e| e.1), std_heap.pop().map(|Reverse(e)| e.1));
}
