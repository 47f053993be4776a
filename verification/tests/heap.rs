use rand::seq::SliceRandom;

use leonardo_heap::balance_after_pop;
use leonardo_heap::balance_after_push;
use leonardo_heap::layout::Layout;
use leonardo_heap::sift_down;
use leonardo_heap::subheap::SubHeapMut;
use leonardo_heap::LeonardoHeap;

#[test]
fn test_sift_down_zero() {
    let mut subheap_data: Vec<u64> = vec![1];
    sift_down(&mut subheap_data, SubHeapMut::new(0, 0));
    assert_eq!(subheap_data, vec![1]);
}

#[test]
fn test_sift_down_one() {
    let mut subheap_data: Vec<u64> = vec![1];
    sift_down(&mut subheap_data, SubHeapMut::new(0, 1));
    assert_eq!(subheap_data, vec![1]);
}

#[test]
fn test_sift_down_two() {
    let mut subheap_data: Vec<u64> = vec![3, 2, 1];
    sift_down(&mut subheap_data, SubHeapMut::new(0, 2));
    assert_eq!(subheap_data, vec![1, 2, 3]);

    let mut subheap_data: Vec<u64> = vec![3, 5, 4];
    sift_down(&mut subheap_data, SubHeapMut::new(0, 2));
    assert_eq!(subheap_data, vec![3, 4, 5]);

    let mut subheap_data: Vec<u64> = vec![6, 7, 8];
    sift_down(&mut subheap_data, SubHeapMut::new(0, 2));
    assert_eq!(subheap_data, vec![6, 7, 8]);
}

#[test]
fn test_sift_down_three() {
    let mut subheap_data: Vec<u64> = vec![1, 2, 3, 4, 5];
    sift_down(&mut subheap_data, SubHeapMut::new(0, 3));
    assert_eq!(subheap_data, vec![1, 2, 3, 4, 5]);

    let mut subheap_data: Vec<u64> = vec![1, 2, 3, 5, 4];
    sift_down(&mut subheap_data, SubHeapMut::new(0, 3));
    assert_eq!(subheap_data, vec![1, 2, 3, 4, 5]);

    let mut subheap_data: Vec<u64> = vec![1, 2, 5, 4, 3];
    sift_down(&mut subheap_data, SubHeapMut::new(0, 3));
    assert_eq!(subheap_data, vec![1, 2, 3, 4, 5]);

    let mut subheap_data: Vec<u64> = vec![2, 3, 5, 4, 1];
    sift_down(&mut subheap_data, SubHeapMut::new(0, 3));
    assert_eq!(subheap_data, vec![2, 1, 3, 4, 5]);

    let mut subheap_data: Vec<u64> = vec![3, 2, 5, 4, 1];
    sift_down(&mut subheap_data, SubHeapMut::new(0, 3));
    assert_eq!(subheap_data, vec![1, 2, 3, 4, 5]);
}

#[test]
fn test_sift_down_sorting() {
    let mut subheap_data: Vec<u64> = vec![5, 5, 4];
    sift_down(&mut subheap_data, SubHeapMut::new(0, 2));
    assert_eq!(subheap_data, vec![4, 5, 5]);

    let mut subheap_data: Vec<u64> = vec![1, 2, 4, 4, 3];
    sift_down(&mut subheap_data, SubHeapMut::new(0, 3));
    assert_eq!(subheap_data, vec![1, 2, 3, 4, 4]);
}

#[test]
fn test_balance_after_push_first() {
    let mut subheap_data: Vec<u64> = vec![1];
    let layout = Layout::new_from_len(1);
    balance_after_push(&mut subheap_data, &layout);
    assert_eq!(subheap_data, vec![1]);
}

#[test]
fn test_balance_after_push_second() {
    let mut subheap_data: Vec<u64> = vec![1, 2];
    let layout = Layout::new_from_len(2);
    balance_after_push(&mut subheap_data, &layout);
    assert_eq!(subheap_data, vec![1, 2]);

    let mut subheap_data: Vec<u64> = vec![2, 1];
    let layout = Layout::new_from_len(2);
    balance_after_push(&mut subheap_data, &layout);
    assert_eq!(subheap_data, vec![1, 2]);
}

#[test]
fn test_balance_after_push_merge() {
    let mut subheap_data: Vec<u64> = vec![1, 2, 3];
    let layout = Layout::new_from_len(3);
    balance_after_push(&mut subheap_data, &layout);
    assert_eq!(subheap_data, vec![1, 2, 3]);

    let mut subheap_data: Vec<u64> = vec![1, 3, 2];
    let layout = Layout::new_from_len(3);
    balance_after_push(&mut subheap_data, &layout);
    assert_eq!(subheap_data, vec![1, 2, 3]);
}

#[test]
fn test_balance_after_pop_empty() {
    let mut subheap_data: Vec<u64> = vec![];
    let layout = Layout::new_from_len(0);
    balance_after_pop(&mut subheap_data, &layout);
    assert_eq!(subheap_data, vec![]);
}

#[test]
fn test_balance_after_pop_one() {
    let mut heap_data: Vec<u64> = vec![1];
    let layout = Layout::new_from_len(1);
    balance_after_pop(&mut heap_data, &layout);
    assert_eq!(heap_data, vec![1]);
}

#[test]
fn test_balance_after_pop_two() {
    let mut heap_data: Vec<u64> = vec![1, 2];
    let layout = Layout::new_from_len(2);
    balance_after_pop(&mut heap_data, &layout);
    assert_eq!(heap_data, vec![1, 2]);

    let mut heap_data: Vec<u64> = vec![2, 1];
    let layout = Layout::new_from_len(2);
    balance_after_pop(&mut heap_data, &layout);
    assert_eq!(heap_data, vec![1, 2]);
}

#[test]
fn test_balance_after_pop_split_heaps() {
    let mut heap_data: Vec<u64> = vec![1, 2, 3, 4, 5, 6, 7];
    let layout = Layout::new_from_len(7);
    balance_after_pop(&mut heap_data, &layout);
    assert_eq!(heap_data, vec![1, 2, 3, 4, 5, 6, 7]);

    let mut heap_data: Vec<u64> = vec![1, 2, 3, 4, 5, 7, 6];
    let layout = Layout::new_from_len(7);
    balance_after_pop(&mut heap_data, &layout);
    assert_eq!(heap_data, vec![1, 2, 3, 4, 5, 6, 7]);

    let mut heap_data: Vec<u64> = vec![1, 2, 3, 4, 6, 5, 7];
    let layout = Layout::new_from_len(7);
    balance_after_pop(&mut heap_data, &layout);
    assert_eq!(heap_data, vec![1, 2, 3, 4, 5, 6, 7]);

    let mut heap_data: Vec<u64> = vec![1, 2, 3, 4, 7, 5, 6];
    let layout = Layout::new_from_len(7);
    balance_after_pop(&mut heap_data, &layout);
    assert_eq!(heap_data, vec![1, 2, 3, 4, 5, 6, 7]);

    let mut heap_data: Vec<u64> = vec![1, 2, 3, 4, 6, 7, 5];
    let layout = Layout::new_from_len(7);
    balance_after_pop(&mut heap_data, &layout);
    assert_eq!(heap_data, vec![1, 2, 3, 4, 5, 6, 7]);

    let mut heap_data: Vec<u64> = vec![1, 2, 3, 4, 7, 6, 5];
    let layout = Layout::new_from_len(7);
    balance_after_pop(&mut heap_data, &layout);
    assert_eq!(heap_data, vec![1, 2, 3, 4, 5, 6, 7]);
}

#[test]
fn test_balance_after_pop_restring_after_sift() {
    let mut heap_data: Vec<u64> = vec![1, 2, 3, 4, 5, 6, 10, 11, 12, 9, 7, 13, 8];
    let layout = Layout::new_from_len(13);
    balance_after_pop(&mut heap_data, &layout);
    assert_eq!(heap_data, vec![1, 2, 3, 4, 5, 6, 9, 10, 11, 8, 7, 12, 13]);
}

#[test]
fn test_balance_after_pop_mutiple_layers() {
    let mut heap_data: Vec<u64> = vec![3, 0, 5, 1, 9, 2, 6, 7, 10, 4, 8];
    let layout = Layout::new_from_len(11);
    balance_after_pop(&mut heap_data, &layout);
    assert_eq!(heap_data, vec![3, 0, 4, 1, 5, 2, 6, 7, 8, 9, 10]);
}

#[test]
fn test_push_pop() {
    let mut heap = LeonardoHeap::new();
    heap.push(4);
    heap.push(1);
    heap.push(2);
    heap.push(3);

    assert_eq!(heap.pop(), Some(4));
    assert_eq!(heap.pop(), Some(3));
    assert_eq!(heap.pop(), Some(2));
    assert_eq!(heap.pop(), Some(1));
}

#[test]
fn test_random() {
    let mut rng = rand::rng();

    let mut inputs: Vec<u64> = (0..200).collect();

    let mut expected = inputs.clone();
    expected.sort_by(|a, b| b.cmp(a));

    inputs.shuffle(&mut rng);

    let mut heap = LeonardoHeap::new();
    for input in inputs {
        heap.push(input.clone());
    }

    let mut outputs: Vec<u64> = Vec::new();
    while let Some(output) = heap.pop() {
        outputs.push(output);
    }

    assert_eq!(outputs, expected);
}

#[test]
fn test_sort_random() {
    let mut rng = rand::rng();

    let mut inputs: Vec<u64> = (0..200).collect();

    let mut expected = inputs.clone();
    expected.sort();

    inputs.shuffle(&mut rng);

    let mut heap = LeonardoHeap::new();
    for input in &inputs {
        heap.push(input.clone());
    }

    heap.sort();

    assert_eq!(heap.to_vec(), expected);
}

#[test]
fn test_iter() {
    let mut heap = LeonardoHeap::new();
    heap.push(4);
    heap.push(1);
    heap.push(2);
    heap.push(3);

    let mut heap_iter = heap.iter();

    assert_eq!(heap_iter.next(), Some(4));
    assert_eq!(heap_iter.next(), Some(3));
    assert_eq!(heap_iter.next(), Some(2));
    assert_eq!(heap_iter.next(), Some(1));
}
