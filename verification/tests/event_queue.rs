use hsm_rs::actor::queue::{EventQueue, MultiProducer, QueueAdapter};
use std::cell::Cell;

struct TestQueue {
    value: Cell<Option<u32>>,
}

impl TestQueue {
    fn new() -> Self {
        Self {
            value: Cell::new(None),
        }
    }
}

impl QueueAdapter<u32> for TestQueue {
    fn enqueue(&self, data: u32) -> Result<(), u32> {
        if self.value.get().is_some() {
            return Err(data);
        }

        self.value.set(Some(data));
        Ok(())
    }

    fn dequeue(&self) -> Option<u32> {
        let value = self.value.get();
        self.value.set(None);
        value
    }
}

impl MultiProducer for TestQueue {}

#[test]
fn producer_split_only_succeeds_once() {
    let queue = EventQueue::<u32, _>::new(TestQueue::new());

    assert!(queue.producer().is_some());
    assert!(queue.producer().is_none());
}

#[test]
fn consumer_split_only_succeeds_once() {
    let queue = EventQueue::<u32, _>::new(TestQueue::new());

    assert!(queue.consumer().is_some());
    assert!(queue.consumer().is_none());
}

#[test]
fn cloned_producers_can_enqueue() {
    let queue = EventQueue::<u32, _>::new(TestQueue::new());
    let mut producer = queue.producer().expect("first producer call should succeed");
    let mut consumer = queue.consumer().expect("first consumer call should succeed");
    let mut producer_clone = producer.clone();

    assert_eq!(producer.enqueue(7), Ok(()));
    assert_eq!(producer_clone.enqueue(8), Err(8));
    assert_eq!(consumer.dequeue(), Some(7));
}

#[test]
fn direct_enqueue_reaches_the_consumer() {
    let queue = EventQueue::<u32, _>::new(TestQueue::new());
    let mut consumer = queue.consumer().expect("first consumer call should succeed");

    assert_eq!(queue.enqueue(3), Ok(()));
    assert_eq!(consumer.dequeue(), Some(3));
    assert_eq!(consumer.dequeue(), None);
}

#[test]
fn split_follows_the_claim_outcome() {
    let queue = EventQueue::<u32, _>::new(TestQueue::new());

    assert!(queue.producer_after_claim(Ok(false)).is_some());
    assert!(queue.producer_after_claim(Err(true)).is_none());
    assert!(queue.consumer_after_claim(Ok(false)).is_some());
    assert!(queue.consumer_after_claim(Err(true)).is_none());
}
