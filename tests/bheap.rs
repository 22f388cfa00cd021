use ds::bheap::{BinaryHeap, ErrorKind};
use std::cmp::Ordering;

fn construct() -> BinaryHeap<u32, ()> {
    BinaryHeap::from_source(vec![0, 1, 2, 3, 4, 5, 6, 7, 8], ()).unwrap()
}

fn max_heap() -> BinaryHeap<u32, fn(&u32, &u32) -> Ordering> {
    BinaryHeap::new(|a, b| u32::cmp(a, b))
}

fn min_heap() -> BinaryHeap<u32, fn(&u32, &u32) -> Ordering> {
    BinaryHeap::new(|a, b| u32::cmp(b, a))
}

fn is_heap_ordered(heap: &BinaryHeap<u32, fn(&u32, &u32) -> Ordering>, cmp: fn(&u32, &u32) -> Ordering) -> bool {
    let v = heap.inner();
    (2..v.len()).all(|i| cmp(&v[i], &v[i / 2]) != Ordering::Greater)
}

#[test]
fn parent() {
    let heap = construct();

    assert_eq!(None, heap.parent(0).ok());
    assert_eq!(None, heap.parent(1).ok());
    assert_eq!(Some(1), heap.parent(2).ok());
    assert_eq!(Some(1), heap.parent(3).ok());
    assert_eq!(Some(2), heap.parent(4).ok());
    assert_eq!(Some(2), heap.parent(5).ok());
    assert_eq!(Some(3), heap.parent(6).ok());
    assert_eq!(Some(3), heap.parent(7).ok());
    assert_eq!(Some(4), heap.parent(8).ok());
    assert_eq!(None, heap.parent(9).ok());
}

#[test]
fn children() {
    let heap = construct();

    assert_eq!(None, heap.children(0).ok());
    assert_eq!(Some((Some(2), Some(3))), heap.children(1).ok());
    assert_eq!(Some((Some(4), Some(5))), heap.children(2).ok());
    assert_eq!(Some((Some(6), Some(7))), heap.children(3).ok());
    assert_eq!(Some((Some(8), None)), heap.children(4).ok());
    assert_eq!(Some((None, None)), heap.children(5).ok());
}

#[test]
fn push() {
    let mut heap: BinaryHeap<u32, fn(&u32, &u32) -> Ordering> = BinaryHeap::new(|a, b| u32::cmp(a, b));

    heap.push(5);
    assert_eq!(&vec![0, 5], heap.inner());
    heap.push(2);
    assert_eq!(&vec![0, 5, 2], heap.inner());
    heap.push(3);
    assert_eq!(&vec![0, 5, 2, 3], heap.inner());
    heap.push(4);
    assert_eq!(&vec![0, 5, 4, 3, 2], heap.inner());
}

#[test]
fn bounds_errors() {
    let mut heap = construct();

    assert_eq!(heap.get(0), None);
    assert_eq!(heap.get(9), None);
    assert_eq!(heap.get(8), Some(&8));
    assert_eq!(heap.parent(0).unwrap_err().kind(), &ErrorKind::ZeroIndex);
    assert_eq!(heap.parent(9).unwrap_err().kind(), &ErrorKind::OutOfBounds(9));
    assert_eq!(heap.parent(1).unwrap_err().kind(), &ErrorKind::NoParent);
    assert_eq!(heap.children(0).unwrap_err().kind(), &ErrorKind::ZeroIndex);
    assert_eq!(heap.children(12).unwrap_err().kind(), &ErrorKind::OutOfBounds(12));
    assert_eq!(heap.swap(0, 1).unwrap_err().kind(), &ErrorKind::ZeroIndex);
    assert_eq!(heap.swap(1, 9).unwrap_err().kind(), &ErrorKind::OutOfBounds(9));
    assert_eq!(heap.inner(), &vec![0, 1, 2, 3, 4, 5, 6, 7, 8]);
}

#[test]
fn swap_exchanges_elements() {
    let mut heap = construct();

    assert!(heap.swap(1, 8).is_ok());
    assert_eq!(heap.inner(), &vec![0, 8, 2, 3, 4, 5, 6, 7, 1]);
    assert!(heap.swap(3, 3).is_ok());
    assert_eq!(heap.inner(), &vec![0, 8, 2, 3, 4, 5, 6, 7, 1]);
}

#[test]
fn parent_child_consistency() {
    let heap = construct();

    for i in 1..9usize {
        if let Ok(p) = heap.parent(i) {
            let (l, r) = heap.children(p).unwrap();
            assert!(l == Some(i) || r == Some(i));
        }
        let (l, r) = heap.children(i).unwrap();
        if let Some(l) = l {
            assert_eq!(heap.parent(l).ok(), Some(i));
        }
        if let Some(r) = r {
            assert_eq!(heap.parent(r).ok(), Some(i));
        }
    }
}

#[test]
fn from_source_empty_is_none() {
    assert!(BinaryHeap::<u32, ()>::from_source(vec![], ()).is_none());
}

#[test]
fn empty_heaps() {
    let heap = max_heap();
    assert_eq!(heap.inner(), &vec![0]);
    assert_eq!(heap.end(), 0);
    assert_eq!(heap.get(1), None);

    let heap: BinaryHeap<u32, fn(&u32, &u32) -> Ordering> = BinaryHeap::with_capacity(16, |a, b| u32::cmp(a, b));
    assert_eq!(heap.inner(), &vec![0]);
    assert_eq!(heap.end(), 0);
}

#[test]
fn end_is_last_index() {
    let mut heap = max_heap();
    heap.push(7);
    heap.push(9);
    assert_eq!(heap.end(), 2);
    assert_eq!(heap.get(heap.end()), Some(&7));
}

#[test]
fn heap_ordered_after_pushes() {
    let mut heap = max_heap();
    for v in [3, 9, 1, 7, 7, 2, 8, 10, 0, 5] {
        heap.push(v);
        assert!(is_heap_ordered(&heap, |a, b| u32::cmp(a, b)));
    }
    assert_eq!(heap.get(1), Some(&10));
}

#[test]
fn pop_returns_top_and_keeps_order() {
    let mut heap = max_heap();
    for v in [5, 2, 3, 4] {
        heap.push(v);
    }
    assert_eq!(heap.pop().ok(), Some(5));
    assert_eq!(heap.inner(), &vec![0, 4, 2, 3]);
    assert!(is_heap_ordered(&heap, |a, b| u32::cmp(a, b)));
    assert_eq!(heap.pop().ok(), Some(4));
    assert_eq!(heap.pop().ok(), Some(3));
    assert_eq!(heap.pop().ok(), Some(2));
    assert!(matches!(heap.pop().unwrap_err().kind(), ErrorKind::Custom(_)));
    assert_eq!(heap.inner(), &vec![0]);
}

#[test]
fn pop_top_outranks_rest() {
    let mut heap = max_heap();
    for v in [4, 11, 6, 6, 1, 9, 3] {
        heap.push(v);
    }
    let top = heap.pop().unwrap();
    assert_eq!(top, 11);
    assert!(heap.inner()[1..].iter().all(|x| *x <= top));
    assert!(is_heap_ordered(&heap, |a, b| u32::cmp(a, b)));
}

#[test]
fn drain_sorted_max() {
    let mut heap = max_heap();
    for v in [3, 9, 1, 7, 7, 2, 8] {
        heap.push(v);
    }
    assert_eq!(heap.drain_sorted(), vec![9, 8, 7, 7, 3, 2, 1]);
    assert_eq!(heap.inner(), &vec![0]);
}

#[test]
fn drain_sorted_min() {
    let mut heap = min_heap();
    for v in [3, 9, 1, 7, 7, 2, 8] {
        heap.push(v);
    }
    assert_eq!(heap.inner()[1], 1);
    assert_eq!(heap.drain_sorted(), vec![1, 2, 3, 7, 7, 8, 9]);
    assert_eq!(heap.end(), 0);
}

#[test]
fn pop_then_push_again() {
    let mut heap = min_heap();
    heap.push(4);
    assert_eq!(heap.pop().ok(), Some(4));
    heap.push(6);
    heap.push(5);
    assert_eq!(heap.inner(), &vec![0, 5, 6]);
}

fn unordered(v: Vec<u32>) -> BinaryHeap<u32, fn(&u32, &u32) -> Ordering> {
    let cmp: fn(&u32, &u32) -> Ordering = |a, b| u32::cmp(a, b);
    BinaryHeap::from_source(v, cmp).unwrap()
}

#[test]
fn float_moves_up_along_path() {
    let mut heap = unordered(vec![0, 1, 5, 3, 9]);
    assert!(heap.float(4).is_ok());
    assert_eq!(heap.inner(), &vec![0, 9, 1, 3, 5]);
}

#[test]
fn float_bad_target() {
    let mut heap = unordered(vec![0, 1, 5, 3, 9]);
    assert_eq!(heap.float(0).unwrap_err().kind(), &ErrorKind::ZeroIndex);
    assert_eq!(heap.float(5).unwrap_err().kind(), &ErrorKind::OutOfBounds(5));
    assert_eq!(heap.inner(), &vec![0, 1, 5, 3, 9]);
}

#[test]
fn sink_moves_down_to_higher_child() {
    let mut heap = unordered(vec![0, 1, 5, 7, 3, 2]);
    assert!(heap.sink(1).is_ok());
    assert_eq!(heap.inner(), &vec![0, 7, 5, 1, 3, 2]);
}

#[test]
fn sink_bad_target() {
    let mut heap = unordered(vec![0, 1, 5, 3]);
    assert_eq!(heap.sink(0).unwrap_err().kind(), &ErrorKind::ZeroIndex);
    assert_eq!(heap.sink(4).unwrap_err().kind(), &ErrorKind::OutOfBounds(4));
    assert_eq!(heap.inner(), &vec![0, 1, 5, 3]);
}

#[test]
fn pop_empty_keeps_heap() {
    let mut heap = max_heap();
    assert!(matches!(heap.pop().unwrap_err().kind(), ErrorKind::Custom(_)));
    assert_eq!(heap.inner(), &vec![0]);
}
