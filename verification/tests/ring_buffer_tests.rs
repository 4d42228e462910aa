use arena_collections::ring_buffer::{RingBuffer, RingSpecifier};

#[test]
fn ring_buffer_base_cases() {
    let rb: RingBuffer<Vec<i32>> = RingBuffer::new();

    assert_eq!(rb.iter(), Vec::<i32>::new());
    assert_eq!(rb.is_empty(), true);
    assert_eq!(rb.is_full(), true);

    let rb = RingBuffer::from(RingSpecifier::MakeFull(vec![0]));
    assert_eq!(rb.iter(), vec![0]);
    assert_eq!(rb.is_empty(), false);
    assert_eq!(rb.is_full(), true);
}

#[test]
fn ring_buffer_deq_tests() {
    let mut rb = RingBuffer::from(RingSpecifier::MakeFull(vec![1, 2, 3, 4, 5, 6, 7]));

    assert_eq!(rb.is_empty(), false);
    assert_eq!(rb.is_full(), true);
    assert_eq!(rb.iter(), vec![1, 2, 3, 4, 5, 6, 7]);

    let decd_item = rb.dequeue();
    assert_eq!(*rb.at(decd_item.unwrap()), 1);
    assert_eq!(rb.is_empty(), false);
    assert_eq!(rb.is_full(), false);
    assert_eq!(rb.iter(), vec![2, 3, 4, 5, 6, 7]);

    let decd_item = rb.dequeue();
    assert_eq!(*rb.at(decd_item.unwrap()), 2);
    assert_eq!(rb.is_empty(), false);
    assert_eq!(rb.is_full(), false);
    assert_eq!(rb.iter(), vec![3, 4, 5, 6, 7]);

    let popped_item = rb.pop_rear();
    assert_eq!(*rb.at(popped_item.unwrap()), 7);
    assert_eq!(rb.is_empty(), false);
    assert_eq!(rb.is_full(), false);
    assert_eq!(rb.iter(), vec![3, 4, 5, 6]);
}

#[test]
fn ring_buffer_enq_tests() {
    let mut rb = RingBuffer::from(RingSpecifier::MakeEmpty(vec![1, 2, 3, 4]));

    assert_eq!(rb.is_empty(), true);
    assert_eq!(rb.is_full(), false);
    assert_eq!(rb.iter(), Vec::<i32>::new());

    let idx = rb.enqueue();
    rb.set(idx.unwrap(), -1);
    assert_eq!(rb.is_empty(), false);
    assert_eq!(rb.is_full(), false);
    assert_eq!(rb.iter(), vec![-1]);

    let idx = rb.enqueue();
    rb.set(idx.unwrap(), -2);
    assert_eq!(rb.is_empty(), false);
    assert_eq!(rb.is_full(), false);
    assert_eq!(rb.iter(), vec![-1, -2]);

    let idx = rb.enqueue();
    rb.set(idx.unwrap(), -3);
    assert_eq!(rb.is_empty(), false);
    assert_eq!(rb.is_full(), false);
    assert_eq!(rb.iter(), vec![-1, -2, -3]);

    let idx = rb.enqueue();
    rb.set(idx.unwrap(), -4);
    assert_eq!(rb.is_empty(), false);
    assert_eq!(rb.is_full(), true);
    assert_eq!(rb.iter(), vec![-1, -2, -3, -4]);

    let idx = rb.dequeue();
    assert_eq!(*rb.at(idx.unwrap()), -1);
    assert_eq!(rb.is_empty(), false);
    assert_eq!(rb.is_full(), false);
    assert_eq!(rb.len(), 3);
    assert_eq!(rb.iter(), vec![-2, -3, -4]);

    let front = rb.front();
    let next_idx = rb.peek_next();
    assert_eq!(*rb.at(front), -2);
    assert_eq!(*rb.at(next_idx.unwrap()), -3);
}

#[test]
fn ring_buffer_with_capacity_and_clear() {
    let rb: RingBuffer<Vec<i32>> = RingBuffer::new();
    let mut rb = rb.with_capacity(3);
    assert_eq!(rb.is_empty(), true);
    assert_eq!(rb.is_full(), false);
    let idx = rb.enqueue();
    rb.set(idx.unwrap(), 5);
    assert_eq!(rb.iter(), vec![5]);
    assert_eq!(rb.peek_next(), None);
    rb.clear();
    assert_eq!(rb.iter(), Vec::<i32>::new());
    assert_eq!(rb.len(), 0);
    assert_eq!(rb.is_empty(), true);
}

#[test]
fn ring_buffer_wraps_around() {
    let mut rb = RingBuffer::from(RingSpecifier::MakeEmpty(vec![0, 0, 0]));
    for v in [1, 2, 3] {
        let idx = rb.enqueue();
        rb.set(idx.unwrap(), v);
    }
    assert_eq!(rb.enqueue(), None);
    assert_eq!(rb.dequeue().is_some(), true);
    let idx = rb.enqueue();
    rb.set(idx.unwrap(), 4);
    assert_eq!(rb.iter(), vec![2, 3, 4]);
    assert_eq!(rb.rear(), rb.front());
}
