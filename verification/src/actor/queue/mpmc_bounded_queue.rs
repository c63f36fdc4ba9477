use vstd::prelude::*;

use super::cell::{new_cell, replace_in_cell};
use super::ring_buffer::{is_power_of_two, RingBuffer};
use super::{MultiProducer, QueueAdapter};

verus! {

/// The framework's default event queue: a bounded queue of `SIZE` slots that producers and
/// the consumer share by reference. The slots follow the sequence-numbered ring of
/// [`RingBuffer`], whose first-in first-out behaviour is proved; here the ring sits in a
/// cell so that `enqueue` and `dequeue` work through a shared reference. Queued elements are
/// dropped with the queue.
///
/// Despite its name the queue is for one thread: it is not `Sync`, so producers and the
/// consumer share it by reference on one thread, and neither another thread nor an interrupt
/// handler can feed it.
///
/// As the name suggests, the queue is bounded. The `SIZE` must obey the following:
/// - The queue `SIZE` must be at least 2
/// - The queue `SIZE` must be a power of 2
#[verifier::reject_recursive_types(T)]
pub struct MpmcBoundedQueue<T, const SIZE: usize> {
    ring: std::cell::Cell<RingBuffer<T>>,
}

impl<T, const SIZE: usize> MpmcBoundedQueue<T, SIZE> {
    /// The queue's size is one that [`RingBuffer::new`] accepts.
    #[verifier::type_invariant]
    spec fn sized(&self) -> bool {
        SIZE >= 2 && is_power_of_two(SIZE as nat)
    }

    /// The ring taken out of the cell, of `SIZE` slots. The cell only ever holds the ring that
    /// `new` made or one put back by `enqueue` or `dequeue`, of the same size, so the fresh
    /// ring is never made.
    fn sized_ring(&self, ring: RingBuffer<T>) -> (r: RingBuffer<T>)
        ensures
            r.capacity() == SIZE,
            ring.capacity() == SIZE ==> r == ring,
    {
        proof {
            use_type_invariant(self);
        }
        if ring.capacity_of() == SIZE {
            ring
        } else {
            RingBuffer::new(SIZE)
        }
    }

    /// Constructs a new, empty `MpmcBoundedQueue`. The queue `SIZE` must be at least 2 and a
    /// power of 2.
    #[must_use]
    pub fn new() -> (q: Self)
        requires
            SIZE >= 2,
            is_power_of_two(SIZE as nat),
    {
        let ring: RingBuffer<T> = RingBuffer::new(SIZE);
        MpmcBoundedQueue { ring: new_cell(ring) }
    }
}

impl<T, const SIZE: usize> QueueAdapter<T> for MpmcBoundedQueue<T, SIZE> {
    /// Enqueues the `data` onto the queue. Returns the object unmodified if the queue is full
    /// resulting in an `Err`.
    ///
    /// The answer is that of a ring of `SIZE` slots: `Ok` when it held fewer than `SIZE`
    /// elements, the element handed back when it held `SIZE`.
    fn enqueue(&self, data: T) -> (r: Result<(), T>)
        ensures
            r is Ok || r == Err::<(), T>(data),
            exists|before: RingBuffer<T>, after: RingBuffer<T>|
                before.capacity() == SIZE && #[trigger] call_ensures(
                    RingBuffer::<T>::enqueue_owned,
                    (before, data),
                    (after, r),
                ),
    {
        let taken = replace_in_cell(&self.ring, RingBuffer::without_slots());
        let ring = self.sized_ring(taken);
        let ghost before = ring;
        let push = RingBuffer::<T>::enqueue_owned;
        let (after, r) = push(ring, data);
        proof {
            assert(call_ensures(RingBuffer::<T>::enqueue_owned, (before, data), (after, r)));
        }
        let _ = replace_in_cell(&self.ring, after);
        r
    }

    /// Dequeues the data from the queue, returns `None` if there is no data in the queue.
    ///
    /// The answer is that of a ring of `SIZE` slots: its oldest element, `None` when it held
    /// none.
    fn dequeue(&self) -> (r: Option<T>)
        ensures
            exists|before: RingBuffer<T>, after: RingBuffer<T>|
                before.capacity() == SIZE && #[trigger] call_ensures(
                    RingBuffer::<T>::dequeue_owned,
                    (before,),
                    (after, r),
                ),
    {
        let taken = replace_in_cell(&self.ring, RingBuffer::without_slots());
        let ring = self.sized_ring(taken);
        let ghost before = ring;
        let pop = RingBuffer::<T>::dequeue_owned;
        let (after, r) = pop(ring);
        proof {
            assert(call_ensures(RingBuffer::<T>::dequeue_owned, (before,), (after, r)));
        }
        let _ = replace_in_cell(&self.ring, after);
        r
    }
}

/// `MpmcBoundedQueue` is certainly `MultiProducer`
impl<T, const N: usize> MultiProducer for MpmcBoundedQueue<T, N> {}

/// Law: the queue refuses an element only when it is full. Its `enqueue` answers as a ring of
/// `SIZE` slots does: an element offered to a ring holding fewer than `SIZE` elements is
/// accepted and joins the back; one offered to a ring holding `SIZE` is handed back, the ring
/// left as it was.
pub proof fn law_enqueue_refuses_only_when_full<T, const SIZE: usize>(
    q: &MpmcBoundedQueue<T, SIZE>,
    data: T,
    r: Result<(), T>,
)
    requires
        call_ensures(<MpmcBoundedQueue<T, SIZE> as QueueAdapter<T>>::enqueue, (q, data), r),
    ensures
        exists|before: RingBuffer<T>, after: RingBuffer<T>|
            {
                &&& #[trigger] before.capacity() == SIZE
                &&& #[trigger] after.capacity() == SIZE
                &&& before@.len() < SIZE ==> r is Ok && after@ == before@.push(data)
                &&& before@.len() >= SIZE ==> r == Err::<(), T>(data) && after@ == before@
            },
{
    let (before, after) = choose|before: RingBuffer<T>, after: RingBuffer<T>|
        before.capacity() == SIZE && #[trigger] call_ensures(
            RingBuffer::<T>::enqueue_owned,
            (before, data),
            (after, r),
        );
    assert(after.capacity() == SIZE);
}

/// Law: the queue hands out its oldest element. Its `dequeue` answers as a ring of `SIZE`
/// slots does: the element at the front, which leaves, or `None` when the ring is empty.
pub proof fn law_dequeue_gives_oldest<T, const SIZE: usize>(
    q: &MpmcBoundedQueue<T, SIZE>,
    r: Option<T>,
)
    requires
        call_ensures(<MpmcBoundedQueue<T, SIZE> as QueueAdapter<T>>::dequeue, (q,), r),
    ensures
        exists|before: RingBuffer<T>, after: RingBuffer<T>|
            {
                &&& #[trigger] before.capacity() == SIZE
                &&& #[trigger] after.capacity() == SIZE
                &&& before@.len() > 0 ==> r == Some(before@[0]) && after@ == before@.drop_first()
                &&& before@.len() == 0 ==> r is None && after@ == before@
            },
{
    let (before, after) = choose|before: RingBuffer<T>, after: RingBuffer<T>|
        before.capacity() == SIZE && #[trigger] call_ensures(
            RingBuffer::<T>::dequeue_owned,
            (before,),
            (after, r),
        );
    assert(after.capacity() == SIZE);
}

} // verus!
