use anchors::fakeheap::FakeHeap;

#[test]
fn fakeheap_test_insert_pop() {
    let mut heap: FakeHeap<i32> = FakeHeap::new(10);

    heap.insert(0, 1);
    heap.insert(0, 1);
    heap.insert(0, 1);
    heap.insert(5, 2);
    heap.insert(3, 3);
    heap.insert(4, 4);

    assert_eq!(Some(1), heap.pop_min().map(|(_, v)| v));
    assert_eq!(Some(1), heap.pop_min().map(|(_, v)| v));
    assert_eq!(Some(1), heap.pop_min().map(|(_, v)| v));
    assert_eq!(Some(3), heap.pop_min().map(|(_, v)| v));
    assert_eq!(Some(4), heap.pop_min().map(|(_, v)| v));

    heap.insert(1, 5);

    assert_eq!(Some(5), heap.pop_min().map(|(_, v)| v));
    assert_eq!(Some(2), heap.pop_min().map(|(_, v)| v));

    assert_eq!(None, heap.pop_min().map(|(_, v)| v));
}

#[test]
fn fakeheap_pop_reports_height_and_lifo_order() {
    let mut heap: FakeHeap<u64> = FakeHeap::new(4);
    heap.insert(2, 10);
    heap.insert(2, 11);
    heap.insert(1, 12);
    assert_eq!(Some((1, 12)), heap.pop_min());
    assert_eq!(Some((2, 11)), heap.pop_min());
    assert_eq!(Some((2, 10)), heap.pop_min());
    assert_eq!(None, heap.pop_min());
}

#[test]
fn fakeheap_insert_then_pop_gives_item_back() {
    let mut heap: FakeHeap<u64> = FakeHeap::new(3);
    heap.insert(2, 7);
    heap.insert(1, 9);
    assert_eq!(Some((1, 9)), heap.pop_min());
    assert_eq!(Some((2, 7)), heap.pop_min());
}

#[test]
fn fakeheap_empty_heap_pops_nothing() {
    let mut heap: FakeHeap<u64> = FakeHeap::new(0);
    assert_eq!(None, heap.pop_min());
}

#[test]
fn fakeheap_run_of_pops_hands_out_every_item_once_lowest_first() {
    let mut heap: FakeHeap<u32> = FakeHeap::new(6);
    let inserted = vec![(4usize, 40u32), (1, 10), (4, 41), (0, 1), (2, 20)];
    for (h, x) in inserted.iter() {
        heap.insert(*h, *x);
    }
    let mut popped = Vec::new();
    while let Some(item) = heap.pop_min() {
        popped.push(item);
    }
    let heights: Vec<usize> = popped.iter().map(|(h, _)| *h).collect();
    let mut sorted_heights = heights.clone();
    sorted_heights.sort();
    assert_eq!(sorted_heights, heights);
    let mut a = popped.clone();
    a.sort();
    let mut b = inserted.clone();
    b.sort();
    assert_eq!(b, a);
    assert_eq!(None, heap.pop_min());
}
