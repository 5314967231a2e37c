use hwt::{FeatureHeap, LeafQueue, NodeQueue};

#[test]
fn queue_gives_the_least_distance_first() {
    let mut queue = NodeQueue::new();
    assert_eq!(queue.distance(), None);
    assert!(!queue.is_empty());
    queue.add_one((5, 50, 1));
    queue.add_one((3, 30, 0));
    queue.add_one((5, 51, 2));
    queue.add_one((128, 99, 6));
    assert_eq!(queue.distance(), Some(3));
    assert_eq!(queue.pop(), Some((3, 30, 0)));
    assert_eq!(queue.distance(), Some(5));
    // Within one distance the entry added last leaves first.
    assert_eq!(queue.pop(), Some((5, 51, 2)));
    queue.add_one((5, 52, 3));
    assert_eq!(queue.pop(), Some((5, 52, 3)));
    assert_eq!(queue.pop(), Some((5, 50, 1)));
    assert!(!queue.is_empty());
    assert_eq!(queue.pop(), Some((128, 99, 6)));
    assert!(queue.is_empty());
    assert_eq!(queue.pop(), None);
    assert_eq!(queue.distance(), None);
    assert!(queue.is_empty());
}

#[test]
fn queue_clear_starts_over() {
    let mut queue = LeafQueue::new();
    queue.add_one((7, 1, 0));
    queue.add_one((9, 2, 0));
    assert_eq!(queue.pop(), Some((7, 1, 0)));
    queue.clear();
    assert_eq!(queue.distance(), None);
    queue.add_one((0, 3, 0));
    assert_eq!(queue.distance(), Some(0));
    assert_eq!(queue.pop(), Some((0, 3, 0)));
    assert_eq!(queue.pop(), None);
    let fresh = LeafQueue::default();
    assert_eq!(fresh.distance(), None);
    let node = NodeQueue::default();
    assert_eq!(node.distance(), None);
}

#[test]
fn heap_keeps_the_nearest() {
    let mut heap = FeatureHeap::new();
    heap.reset(3, 0);
    for f in [0b1111u128, 0b1, 0b111, 0b11, 0, 0b11111] {
        heap.add(f);
    }
    let mut dest = [9u128; 5];
    let filled = heap.fill_slice(&mut dest);
    assert_eq!(filled, &[0, 0b1, 0b11]);
    assert_eq!(dest, [0, 0b1, 0b11, 9, 9]);
    let mut short = [9u128; 2];
    assert_eq!(heap.fill_slice(&mut short), &[0, 0b1]);
}

#[test]
fn heap_is_done_once_enough_lies_within_the_watermark() {
    let mut heap = FeatureHeap::default();
    heap.reset(2, 0b1111);
    assert!(!heap.done());
    heap.add(0b1111);
    heap.add(0b0011);
    heap.add(0b0111);
    // Only the query itself lies within distance 0.
    assert!(!heap.done());
    heap.search_distance(1);
    assert!(heap.done());
    let mut dest = [0u128; 2];
    assert_eq!(heap.fill_slice(&mut dest), &[0b1111, 0b0111]);
    // Features offered within the watermark are counted at once.
    heap.reset(2, 0);
    heap.search_distance(2);
    heap.add(0b11);
    assert!(!heap.done());
    heap.add(0b111);
    assert!(!heap.done());
    heap.add(0b1);
    assert!(heap.done());
    let mut dest = [0u128; 4];
    assert_eq!(heap.fill_slice(&mut dest), &[0b1, 0b11]);
}

#[test]
fn heap_reset_forgets() {
    let mut heap = FeatureHeap::new();
    heap.reset(1, 0);
    heap.add(5);
    heap.reset(4, 1);
    let mut dest = [0u128; 4];
    assert_eq!(heap.fill_slice(&mut dest).len(), 0);
    heap.add(1);
    heap.add(3);
    assert_eq!(heap.fill_slice(&mut dest), &[1, 3]);
}
