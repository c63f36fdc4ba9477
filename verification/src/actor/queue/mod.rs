use vstd::prelude::*;

use std::sync::atomic::{AtomicBool, Ordering};

mod cell;
pub mod mpmc_bounded_queue;
pub mod ring_buffer;

pub use self::mpmc_bounded_queue::MpmcBoundedQueue;
pub use self::ring_buffer::RingBuffer;

verus! {

/// `QueueAdapter` trait is made available such that any underlying queue that implements it can be
/// used as an event queue in the framework.
/// `QueueAdapter` queues are required to implement interior mutability such that the
/// consumer/producer split can be managed cleanly by the framework no matter the underlying queue
pub trait QueueAdapter<T> {
    /// Enqueues an item to the underlying queue
    /// # Errors
    /// If the queue is unable to enqueue the data, it will return an error.
    fn enqueue(&self, data: T) -> (r: Result<(), T>)
        ensures
            r is Ok || r == Err::<(), T>(data),
    ;

    /// Dequeues an item from the underlying queue, if there is one.
    fn dequeue(&self) -> Option<T>;
}

/// Marks queues that several producers may use at once.
pub trait MultiProducer {}

/// An event queue that hands out its producer side and its consumer side once each.
pub struct EventQueue<E, Q: QueueAdapter<E>> {
    inner: Q,
    producer_split: AtomicBool,
    consumer_split: AtomicBool,
    _pd: std::marker::PhantomData<E>,
}

/// The producer side of an [`EventQueue`].
pub struct EventProducer<'a, E, Q: QueueAdapter<E>> {
    inner: &'a Q,
    _pd: std::marker::PhantomData<E>,
}

/// The consumer side of an [`EventQueue`].
pub struct EventConsumer<'a, E, Q: QueueAdapter<E>> {
    inner: &'a Q,
    _pd: std::marker::PhantomData<E>,
}

impl<E, Q: QueueAdapter<E>> EventQueue<E, Q> {
    /// The queue underneath.
    pub closed spec fn queue(&self) -> Q {
        self.inner
    }

    /// Wraps `queue`; neither side has been handed out yet.
    pub fn new(queue: Q) -> (q: Self)
        ensures
            q.queue() == queue,
    {
        Self {
            inner: queue,
            producer_split: AtomicBool::new(false),
            consumer_split: AtomicBool::new(false),
            _pd: std::marker::PhantomData,
        }
    }

    /// Hands out the producer side, the first time only: later calls give `None`. Which call
    /// is first is decided by an atomic flag, so several threads may race for it.
    pub fn producer(&self) -> (r: Option<EventProducer<'_, E, Q>>)
        ensures
            r matches Some(p) ==> p.queue() == self.queue(),
    {
        let claim = self.producer_split.compare_exchange(
            false,
            true,
            Ordering::AcqRel,
            Ordering::Acquire,
        );
        self.producer_after_claim(claim)
    }

    /// The producer side for the outcome of the attempt to claim it: handed out when the
    /// claim succeeded (the flag went from unclaimed to claimed), `None` when it was taken
    /// already.
    pub fn producer_after_claim(&self, claim: Result<bool, bool>) -> (r: Option<
        EventProducer<'_, E, Q>,
    >)
        ensures
            r is Some <==> claim is Ok,
            r matches Some(p) ==> p.queue() == self.queue(),
    {
        match claim {
            Ok(_) => Some(EventProducer { inner: &self.inner, _pd: std::marker::PhantomData }),
            Err(_) => None,
        }
    }

    /// Hands out the consumer side, the first time only: later calls give `None`.
    pub fn consumer(&self) -> (r: Option<EventConsumer<'_, E, Q>>)
        ensures
            r matches Some(c) ==> c.queue() == self.queue(),
    {
        let claim = self.consumer_split.compare_exchange(
            false,
            true,
            Ordering::AcqRel,
            Ordering::Acquire,
        );
        self.consumer_after_claim(claim)
    }

    /// The consumer side for the outcome of the attempt to claim it: handed out when the
    /// claim succeeded, `None` when it was taken already.
    pub fn consumer_after_claim(&self, claim: Result<bool, bool>) -> (r: Option<
        EventConsumer<'_, E, Q>,
    >)
        ensures
            r is Some <==> claim is Ok,
            r matches Some(c) ==> c.queue() == self.queue(),
    {
        match claim {
            Ok(_) => Some(EventConsumer { inner: &self.inner, _pd: std::marker::PhantomData }),
            Err(_) => None,
        }
    }
}

impl<E, Q: QueueAdapter<E> + MultiProducer> EventQueue<E, Q> {
    /// Enqueues directly on a queue that several producers may share.
    /// # Errors
    /// If the queue is unable to enqueue the data, it will return an error.
    pub fn enqueue(&self, data: E) -> (r: Result<(), E>)
        ensures
            r is Ok || r == Err::<(), E>(data),
            call_ensures(Q::enqueue, (&self.queue(), data), r),
    {
        let f = Q::enqueue;
        f(&self.inner, data)
    }
}

impl<E, Q: QueueAdapter<E>> EventProducer<'_, E, Q> {
    /// The queue this producer feeds.
    pub closed spec fn queue(&self) -> Q {
        *self.inner
    }

    /// Enqueues an item to the underlying queue via the producer interface
    /// # Errors
    /// If the queue is unable to enqueue the data, it will return an error.
    pub fn enqueue(&mut self, event: E) -> (r: Result<(), E>)
        ensures
            final(self).queue() == old(self).queue(),
            r is Ok || r == Err::<(), E>(event),
            call_ensures(Q::enqueue, (&old(self).queue(), event), r),
    {
        let f = Q::enqueue;
        f(self.inner, event)
    }
}

impl<E, Q: QueueAdapter<E> + MultiProducer> Clone for EventProducer<'_, E, Q> {
    fn clone(&self) -> (p: Self)
        ensures
            p.queue() == self.queue(),
    {
        Self { inner: self.inner, _pd: std::marker::PhantomData }
    }
}

impl<E, Q: QueueAdapter<E>> EventConsumer<'_, E, Q> {
    /// The queue this consumer drains.
    pub closed spec fn queue(&self) -> Q {
        *self.inner
    }

    /// Dequeues the next event, if there is one.
    pub fn dequeue(&mut self) -> (r: Option<E>)
        ensures
            final(self).queue() == old(self).queue(),
    {
        self.inner.dequeue()
    }
}

/// Law: posting directly on an event queue gives back what the queue underneath answered
/// for that very event on that very queue: `Ok` only where the queue's own `enqueue` accepted
/// it, and otherwise the event itself, handed back.
pub proof fn law_event_queue_enqueue_forwards<E, Q: QueueAdapter<E> + MultiProducer>(
    q: &EventQueue<E, Q>,
    data: E,
    r: Result<(), E>,
)
    requires
        call_ensures(EventQueue::<E, Q>::enqueue, (q, data), r),
    ensures
        call_ensures(Q::enqueue, (&q.queue(), data), r),
        r is Ok || r == Err::<(), E>(data),
{
}

} // verus!
