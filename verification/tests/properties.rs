use leonardo_heap::layout::Layout;
use leonardo_heap::LeonardoHeap;

fn drain_all(heap: &mut LeonardoHeap) -> Vec<u64> {
    let mut outputs: Vec<u64> = Vec::new();
    let mut drain = heap.drain();
    while let Some(output) = drain.next() {
        outputs.push(output);
    }
    outputs
}

#[test]
fn test_layout_sum_matches_len() {
    // The canonical decomposition always accounts for every element.
    for size in 0..300 {
        let layout = Layout::new_from_len(size);
        assert_eq!(layout.len(), size);
        assert_eq!(layout.is_empty(), size == 0);
    }
}

#[test]
fn test_layout_push_pop_len() {
    let mut layout = Layout::new();
    for expected in 1..100 {
        layout.push();
        assert_eq!(layout.len(), expected);
    }
    for expected in (0..99).rev() {
        layout.pop();
        assert_eq!(layout.len(), expected);
    }
    // Popping an empty layout is a no-op.
    layout.pop();
    assert_eq!(layout.len(), 0);
}

#[test]
fn test_layout_lowest_order() {
    assert_eq!(Layout::new().lowest_order(), None);
    assert_eq!(Layout::new_from_len(1).lowest_order(), Some(1));
    assert_eq!(Layout::new_from_len(2).lowest_order(), Some(0));
    assert_eq!(Layout::new_from_len(3).lowest_order(), Some(2));
    assert_eq!(Layout::new_from_len(5).lowest_order(), Some(3));
    assert_eq!(Layout::new_from_len(17).lowest_order(), Some(0));
}

#[test]
fn test_pop_empty() {
    let mut heap = LeonardoHeap::new();
    assert_eq!(heap.pop(), None);
    assert_eq!(heap.peek(), None);
    assert!(heap.is_empty());
}

#[test]
fn test_peek_is_max() {
    let mut heap = LeonardoHeap::new();
    heap.push(2);
    assert_eq!(heap.peek(), Some(2));
    heap.push(9);
    assert_eq!(heap.peek(), Some(9));
    heap.push(5);
    assert_eq!(heap.peek(), Some(9));
    assert_eq!(heap.len(), 3);
}

#[test]
fn test_push_then_drain_descending_boundaries() {
    // Sizes straddling several Leonardo order boundaries.
    for n in [0u64, 1, 2, 3, 7, 11, 200] {
        let mut heap = LeonardoHeap::new();
        for v in 0..n {
            heap.push((v * 7919) % 101);
        }
        let mut expected: Vec<u64> = (0..n).map(|v| (v * 7919) % 101).collect();
        expected.sort_by(|a, b| b.cmp(a));
        let outputs = drain_all(&mut heap);
        assert_eq!(outputs, expected);
        assert!(heap.is_empty());
    }
}

#[test]
fn test_push_duplicates_kept() {
    let mut heap = LeonardoHeap::new();
    heap.push(4);
    heap.push(4);
    heap.push(1);
    assert_eq!(drain_all(&mut heap), vec![4, 4, 1]);
}

#[test]
fn test_sort_small_exact() {
    let mut heap = LeonardoHeap::new();
    for v in [5u64, 3, 8, 1, 9, 2, 7] {
        heap.push(v);
    }
    heap.sort();
    assert_eq!(heap.to_vec(), vec![1, 2, 3, 5, 7, 8, 9]);
    // The sorted array is still a valid heap: the maximum sits at the end.
    assert_eq!(heap.peek(), Some(9));
    assert_eq!(heap.pop(), Some(9));
}

#[test]
fn test_dedup_drains_distinct_descending() {
    let mut heap = LeonardoHeap::new();
    for v in [4u64, 1, 4, 2, 2, 2, 9, 1] {
        heap.push(v);
    }
    heap.dedup();
    assert_eq!(drain_all(&mut heap), vec![9, 4, 2, 1]);
}

#[test]
fn test_retain_keeps_matching() {
    let mut heap = LeonardoHeap::new();
    for v in [6u64, 1, 8, 3, 4, 7, 2] {
        heap.push(v);
    }
    heap.retain(|v| v % 2 == 0);
    assert_eq!(drain_all(&mut heap), vec![8, 6, 4, 2]);
}

#[test]
fn test_clear() {
    let mut heap = LeonardoHeap::new();
    heap.push(1);
    heap.push(2);
    heap.clear();
    assert!(heap.is_empty());
    assert_eq!(heap.pop(), None);
    heap.push(3);
    assert_eq!(heap.pop(), Some(3));
}

#[test]
fn test_capacity_and_reserve() {
    let mut heap = LeonardoHeap::with_capacity(16);
    assert!(heap.capacity() >= 16);
    heap.push(1);
    heap.push(2);
    heap.reserve(100);
    heap.reserve_exact(50);
    assert!(heap.capacity() >= heap.len());
    heap.shrink_to_fit();
    assert_eq!(heap.pop(), Some(2));
    assert_eq!(heap.pop(), Some(1));
}

#[test]
fn test_iter_leaves_heap_intact() {
    let mut heap = LeonardoHeap::new();
    heap.push(4);
    heap.push(6);
    let mut it = heap.iter();
    assert_eq!(it.size_hint(), (2, Some(2)));
    assert_eq!(it.next(), Some(6));
    assert_eq!(it.next(), Some(4));
    assert_eq!(it.next(), None);
    // The heap itself still holds both elements.
    assert_eq!(heap.len(), 2);
    assert_eq!(heap.pop(), Some(6));
}

#[test]
fn test_drain_empties_heap() {
    let mut heap = LeonardoHeap::new();
    heap.push(10);
    heap.push(20);
    let mut drain = heap.drain();
    assert_eq!(drain.size_hint(), (2, Some(2)));
    assert_eq!(drain.next(), Some(20));
    assert_eq!(drain.next(), Some(10));
    assert_eq!(drain.next(), None);
    assert!(heap.is_empty());
}

#[test]
fn test_sorted_heap_still_pops_descending() {
    let mut heap = LeonardoHeap::new();
    for v in [3u64, 1, 4, 1, 5, 9, 2, 6] {
        heap.push(v);
    }
    heap.sort();
    assert_eq!(drain_all(&mut heap), vec![9, 6, 5, 4, 3, 2, 1, 1]);
}
