use priority_heap::heap::{Heap, MaxHeap, MinHeap};
use priority_heap::order::{MaxFirst, MinFirst};

#[test]
fn test_empty_heap() {
    let mut heap = MaxHeap::new();
    assert_eq!(heap.extract_next(), None);
}

#[test]
fn test_min_heap() {
    let mut heap = MinHeap::new();
    heap.add(4);
    heap.add(2);
    heap.add(9);
    heap.add(11);
    assert_eq!(heap.len(), 4);
    assert_eq!(heap.extract_next(), Some(2));
    assert_eq!(heap.extract_next(), Some(4));
    assert_eq!(heap.extract_next(), Some(9));
    heap.add(1);
    assert_eq!(heap.extract_next(), Some(1));
}

#[test]
fn test_max_heap() {
    let mut heap = MaxHeap::new();
    println!("heap: {:?}", heap);
    heap.add(4);
    heap.add(2);
    heap.add(9);
    heap.add(11);
    assert_eq!(heap.len(), 4);
    assert_eq!(heap.extract_next(), Some(11));
    assert_eq!(heap.extract_next(), Some(9));
    assert_eq!(heap.extract_next(), Some(4));
    heap.add(1);
    assert_eq!(heap.extract_next(), Some(2));
}

#[test]
fn test_explicit_comparators() {
    let mut min_heap = Heap::new(MinFirst);
    let mut max_heap = Heap::new(MaxFirst);
    for v in [5, -3, 8, 0] {
        min_heap.add(v);
        max_heap.add(v);
    }
    assert_eq!(min_heap.extract_next(), Some(-3));
    assert_eq!(max_heap.extract_next(), Some(8));
}

#[test]
fn test_deep_sink_min_heap() {
    // at least eight elements in scrambled order: a full extraction passes
    // only when the sink cascades over several levels
    let mut heap = MinHeap::new();
    for v in [64, 19, 91, 37, 75, 46, 73, 57, 28] {
        heap.add(v);
    }
    let mut drained: Vec<i32> = Vec::new();
    while let Some(v) = heap.extract_next() {
        drained.push(v);
    }
    assert_eq!(drained, vec![19, 28, 37, 46, 57, 64, 73, 75, 91]);
}

#[test]
fn test_drained_heap_keeps_signaling() {
    let mut heap = MinHeap::new();
    heap.add(7);
    assert_eq!(heap.extract_next(), Some(7));
    assert_eq!(heap.extract_next(), None);
    assert_eq!(heap.extract_next(), None);
}

#[test]
fn test_size_accounting() {
    let mut heap = MaxHeap::new();
    assert_eq!(heap.len(), 0);
    assert!(heap.is_empty());
    heap.add(3);
    heap.add(3);
    heap.add(-1);
    assert_eq!(heap.len(), 3);
    assert!(!heap.is_empty());
    assert_eq!(heap.extract_next(), Some(3));
    assert_eq!(heap.len(), 2);
    assert_eq!(heap.extract_next(), Some(3));
    assert_eq!(heap.extract_next(), Some(-1));
    assert_eq!(heap.extract_next(), None);
    assert_eq!(heap.len(), 0);
    assert!(heap.is_empty());
}

#[test]
fn test_new_min_new_max() {
    let mut min_heap = Heap::new_min();
    let mut max_heap = Heap::new_max();
    for v in [10, 30, 20] {
        min_heap.add(v);
        max_heap.add(v);
    }
    assert_eq!(min_heap.extract_next(), Some(10));
    assert_eq!(max_heap.extract_next(), Some(30));
}
