use hsm_rs::actor::queue::{MpmcBoundedQueue, QueueAdapter, RingBuffer};
use std::cell::Cell;

#[test]
fn enqueue_dequeue_roundtrip() {
    let queue = MpmcBoundedQueue::<u32, 4>::new();

    assert_eq!(queue.dequeue(), None);
    assert_eq!(queue.enqueue(7), Ok(()));
    assert_eq!(queue.dequeue(), Some(7));
    assert_eq!(queue.dequeue(), None);
}

#[test]
fn queue_full_and_empty_conditions() {
    let queue = MpmcBoundedQueue::<u32, 2>::new();

    assert_eq!(queue.enqueue(1), Ok(()));
    assert_eq!(queue.enqueue(2), Ok(()));
    assert_eq!(queue.enqueue(3), Err(3));

    assert_eq!(queue.dequeue(), Some(1));
    assert_eq!(queue.dequeue(), Some(2));
    assert_eq!(queue.dequeue(), None);
}

#[test]
fn wraparound_behavior() {
    let queue = MpmcBoundedQueue::<u32, 4>::new();

    for i in 0..4 {
        assert_eq!(queue.enqueue(i), Ok(()));
    }

    assert_eq!(queue.dequeue(), Some(0));
    assert_eq!(queue.dequeue(), Some(1));

    assert_eq!(queue.enqueue(4), Ok(()));
    assert_eq!(queue.enqueue(5), Ok(()));
    assert_eq!(queue.enqueue(6), Err(6));

    assert_eq!(queue.dequeue(), Some(2));
    assert_eq!(queue.dequeue(), Some(3));
    assert_eq!(queue.dequeue(), Some(4));
    assert_eq!(queue.dequeue(), Some(5));
    assert_eq!(queue.dequeue(), None);
}

#[derive(Debug)]
struct DropCounter<'a> {
    counter: &'a Cell<usize>,
}

impl<'a> Drop for DropCounter<'a> {
    fn drop(&mut self) {
        let v = self.counter.get();
        self.counter.set(v + 1);
    }
}

#[test]
fn mpmc_bounded_queue_drop() {
    let counter = Cell::new(0);

    {
        let queue = MpmcBoundedQueue::<DropCounter, 4>::new();

        queue
            .enqueue(DropCounter { counter: &counter })
            .expect("Queue unexpectedly full");
        queue
            .enqueue(DropCounter { counter: &counter })
            .expect("Queue unexpectedly full");

        assert_eq!(counter.get(), 0);
    }

    // Nothing extra dropped
    assert_eq!(counter.get(), 2);
}

#[test]
fn drop_consumed() {
    let counter = Cell::new(0);

    {
        let queue = MpmcBoundedQueue::<DropCounter, 4>::new();

        queue
            .enqueue(DropCounter { counter: &counter })
            .expect("Queue unexpectedly full");
        queue
            .enqueue(DropCounter { counter: &counter })
            .expect("Queue unexpectedly full");

        let _a = queue.dequeue().unwrap();
        let _b = queue.dequeue().unwrap();

        assert_eq!(counter.get(), 0);
    }

    // Nothing extra dropped
    assert_eq!(counter.get(), 2);
}

#[test]
fn ring_buffer_counts_and_wraps_many_times() {
    let mut ring: RingBuffer<u64> = RingBuffer::new(2);
    assert_eq!(ring.capacity_of(), 2);
    for round in 0..1000u64 {
        assert_eq!(ring.len(), 0);
        assert_eq!(ring.enqueue(round), Ok(()));
        assert_eq!(ring.enqueue(round + 1), Ok(()));
        assert_eq!(ring.len(), 2);
        assert_eq!(ring.enqueue(round + 2), Err(round + 2));
        assert_eq!(ring.dequeue(), Some(round));
        assert_eq!(ring.dequeue(), Some(round + 1));
        assert_eq!(ring.dequeue(), None);
    }
}
