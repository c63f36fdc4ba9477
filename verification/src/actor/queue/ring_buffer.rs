use vstd::prelude::*;

use vstd::arithmetic::div_mod::{
    lemma_add_mod_noop, lemma_fundamental_div_mod, lemma_mod_bound, lemma_mod_add_multiples_vanish, lemma_mod_mod,
    lemma_mod_pos_bound, lemma_small_mod, lemma_sub_mod_noop, lemma_sub_mod_noop_right,
};

verus! {

/// The number of distinct `usize` values: positions wrap around at this value.
pub open spec fn position_range() -> int {
    usize::MAX as int + 1
}

/// `n` is a power of two. Within the range of `usize` these are exactly the sizes that divide
/// the number of distinct positions, so that a position keeps its slot when it wraps around.
pub open spec fn is_power_of_two(n: nat) -> bool {
    n >= 1 && position_range() % (n as int) == 0
}

/// How a slot's sequence number stands to the position being claimed.
pub enum Lag {
    /// The slot is one round behind the position: the queue is full (or empty, on dequeue).
    Behind,
    /// The slot is ready for the position.
    Ready,
    /// The slot is ahead of the position: another claimant got there first.
    Ahead,
}

/// The signed difference of two wrapping counters, classified.
fn lag(seq: usize, pos: usize) -> (l: Lag)
    ensures
        l is Ready <==> seq == pos,
        l is Behind <==> seq != pos && vstd::wrapping::usize_specs::wrapping_sub(seq, pos)
            > isize::MAX,
{
    let dif = seq.wrapping_sub(pos);
    if dif == 0 {
        Lag::Ready
    } else if dif > (isize::MAX as usize) {
        Lag::Behind
    } else {
        Lag::Ahead
    }
}

proof fn lemma_range_facts(n: int)
    requires
        2 <= n <= usize::MAX,
        position_range() % n == 0,
    ensures
        n * (position_range() / n) == position_range(),
        n <= position_range() / 2,
        isize::MAX as int == position_range() / 2 - 1,
{
    let m = position_range();
    lemma_fundamental_div_mod(m, n);
    let q = m / n;
    assert(n * q == m);
    assert(q >= 2) by (nonlinear_arith)
        requires
            n * q == m,
            2 <= n,
            n < m,
    ;
    assert(n <= m / 2) by (nonlinear_arith)
        requires
            n * q == m,
            q >= 2,
            n >= 2,
    ;
    assert(usize::MAX as int == 0xffff_ffff || usize::MAX as int == 0xffff_ffff_ffff_ffff);
    if usize::MAX as int == 0xffff_ffff {
        assert(isize::MAX as int == 0x7fff_ffff);
    } else {
        assert(isize::MAX as int == 0x7fff_ffff_ffff_ffff);
    }
}

/// A position reduced to `usize` and then to a slot index is the position reduced to a slot.
proof fn lemma_mod_range(a: int, n: int)
    requires
        a >= 0,
        2 <= n <= usize::MAX,
        position_range() % n == 0,
    ensures
        (a % position_range()) % n == a % n,
{
    lemma_range_facts(n);
    lemma_mod_mod(a, n, position_range() / n);
}

/// Wrapping addition on a reduced position is addition followed by reduction.
proof fn lemma_wadd(a: int, b: int)
    requires
        a >= 0,
        0 <= b <= usize::MAX,
    ensures
        vstd::wrapping::usize_specs::wrapping_add((a % position_range()) as usize, b as usize)
            == ((a + b) % position_range()) as usize,
{
    let m = position_range();
    lemma_mod_pos_bound(a, m);
    let r = a % m;
    lemma_add_mod_noop(a, b, m);
    lemma_small_mod(b as nat, m as nat);
    if r + b < m {
        lemma_small_mod((r + b) as nat, m as nat);
    } else {
        lemma_mod_add_multiples_vanish(r + b - m, m);
        lemma_small_mod((r + b - m) as nat, m as nat);
    }
}

/// Wrapping subtraction of reduced positions is subtraction followed by reduction.
proof fn lemma_wsub(a: int, b: int)
    requires
        a >= 0,
        b >= 0,
    ensures
        vstd::wrapping::usize_specs::wrapping_sub(
            (a % position_range()) as usize,
            (b % position_range()) as usize,
        ) as int == (a - b) % position_range(),
{
    let m = position_range();
    lemma_mod_pos_bound(a, m);
    lemma_mod_pos_bound(b, m);
    let ra = a % m;
    let rb = b % m;
    lemma_sub_mod_noop(a, b, m);
    if ra - rb >= 0 {
        lemma_small_mod((ra - rb) as nat, m as nat);
    } else {
        lemma_mod_add_multiples_vanish(ra - rb, m);
        lemma_small_mod((ra - rb + m) as nat, m as nat);
    }
}

/// Two slots of a ring of `n` have the same offset from any head only if they are the same.
proof fn lemma_offset_unique(k1: int, k2: int, h: int, n: int)
    requires
        n >= 1,
        0 <= k1 < n,
        0 <= k2 < n,
        (k1 - h) % n == (k2 - h) % n,
    ensures
        k1 == k2,
{
    lemma_fundamental_div_mod(k1 - h, n);
    lemma_fundamental_div_mod(k2 - h, n);
    lemma_mod_bound(k1 - h, n);
    lemma_mod_bound(k2 - h, n);
    let q1 = (k1 - h) / n;
    let q2 = (k2 - h) / n;
    assert(k1 - k2 == n * (q1 - q2)) by (nonlinear_arith)
        requires
            k1 - h == n * q1 + (k1 - h) % n,
            k2 - h == n * q2 + (k2 - h) % n,
            (k1 - h) % n == (k2 - h) % n,
    ;
    assert(q1 == q2) by (nonlinear_arith)
        requires
            k1 - k2 == n * (q1 - q2),
            -n < k1 - k2 < n,
            n > 0,
    ;
}

/// Advancing the head by one shifts every offset down by one, the slot at the head wrapping
/// around to the last offset.
proof fn lemma_offset_shift(k: int, h: int, n: int)
    requires
        n >= 1,
    ensures
        (k - (h + 1)) % n == if (k - h) % n == 0 {
            n - 1
        } else {
            (k - h) % n - 1
        },
{
    lemma_mod_bound(k - h, n);
    let o = (k - h) % n;
    lemma_sub_mod_noop(k - h, 1, n);
    if n == 1 {
        lemma_small_mod(0, 1);
    } else {
        lemma_small_mod(1, n as nat);
    }
    assert((k - (h + 1)) == (k - h) - 1);
    if o == 0 {
        lemma_mod_add_multiples_vanish(-1, n);
        lemma_small_mod((n - 1) as nat, n as nat);
    } else {
        lemma_small_mod((o - 1) as nat, n as nat);
    }
}

/// The offset, from head `h`, of the slot that position `a` maps to is `a - h` reduced.
proof fn lemma_offset_of(a: int, h: int, n: int)
    requires
        a >= 0,
        2 <= n <= usize::MAX,
        position_range() % n == 0,
    ensures
        ((a % position_range()) % n - h) % n == (a - h) % n,
{
    lemma_mod_range(a, n);
    lemma_sub_mod_noop_right(a % n, h, n);
    lemma_sub_mod_noop(a, h, n);
    lemma_mod_pos_bound(a, n);
    lemma_small_mod((a % n) as nat, n as nat);
    lemma_mod_bound(h, n);
}

/// A slot of the ring: its sequence number tells which position it is waiting for.
struct Slot<T> {
    sequence: usize,
    data: Option<T>,
}

/// Slot `j` of a ring of `n` slots whose oldest element is at position `head` and which holds
/// `items`: the slot stands for the position `head + off`, where `off` is its offset from the
/// head. If that position is occupied the slot holds the element and waits for its dequeue
/// (sequence `position + 1`); otherwise the slot is empty and waits for the position's enqueue
/// (sequence `position`). Sequences wrap around with the positions.
spec fn slot_ok<T>(slot: Slot<T>, j: int, head: int, items: Seq<T>, n: int) -> bool {
    let off = (j - head) % n;
    if off < items.len() {
        &&& slot.sequence as int == (head + off + 1) % position_range()
        &&& slot.data == Some(items[off])
    } else {
        &&& slot.sequence as int == (head + off) % position_range()
        &&& slot.data is None
    }
}

/// A bounded first-in first-out queue over a ring of slots, each carrying a sequence number
/// that records which enqueue or dequeue position it is waiting for. The enqueue and dequeue
/// positions count up without bound, wrapping around at the range of `usize`; a position maps
/// to the slot at its remainder by the ring size, which is a power of two.
pub struct RingBuffer<T> {
    slots: Vec<Slot<T>>,
    enqueue_pos: usize,
    dequeue_pos: usize,
    head: Ghost<int>,
    items: Ghost<Seq<T>>,
}

impl<T> View for RingBuffer<T> {
    type V = Seq<T>;

    /// The elements held, oldest first.
    closed spec fn view(&self) -> Seq<T> {
        self.items@
    }
}

impl<T> RingBuffer<T> {
    /// The ring is consistent: positions, sequence numbers and slot contents agree with the
    /// elements held. A ring without slots holds nothing.
    #[verifier::type_invariant]
    closed spec fn wf(&self) -> bool {
        let n = self.slots@.len() as int;
        &&& n == 0 || (2 <= n && is_power_of_two(n as nat))
        &&& self.head@ >= 0
        &&& self.items@.len() <= n
        &&& self.dequeue_pos as int == self.head@ % position_range()
        &&& self.enqueue_pos as int == (self.head@ + self.items@.len()) % position_range()
        &&& forall|j: int|
            0 <= j < n ==> #[trigger] slot_ok(self.slots@[j], j, self.head@, self.items@, n)
    }

    /// The number of slots: the most elements the queue holds at once.
    pub closed spec fn capacity(&self) -> nat {
        self.slots@.len()
    }

    /// An empty queue of `size` slots.
    pub fn new(size: usize) -> (q: Self)
        requires
            size >= 2,
            is_power_of_two(size as nat),
        ensures
            q.capacity() == size,
            q@ == Seq::<T>::empty(),
    {
        let mut slots: Vec<Slot<T>> = Vec::new();
        let mut i: usize = 0;
        while i < size
            invariant
                i <= size,
                slots@.len() == i,
                forall|j: int|
                    0 <= j < i ==> #[trigger] slot_ok(slots@[j], j, 0, Seq::<T>::empty(), size as int),
            decreases size - i,
        {
            proof {
                lemma_small_mod(i as nat, size as nat);
                lemma_small_mod(i as nat, position_range() as nat);
            }
            slots.push(Slot { sequence: i, data: None });
            i = i + 1;
        }
        proof {
            lemma_small_mod(0, position_range() as nat);
        }
        RingBuffer {
            slots,
            enqueue_pos: 0,
            dequeue_pos: 0,
            head: Ghost(0),
            items: Ghost(Seq::empty()),
        }
    }

    /// A queue without slots: it holds nothing and takes nothing.
    pub(crate) fn without_slots() -> (q: Self)
        ensures
            q.capacity() == 0,
            q@ == Seq::<T>::empty(),
    {
        proof {
            lemma_small_mod(0, position_range() as nat);
        }
        RingBuffer {
            slots: Vec::new(),
            enqueue_pos: 0,
            dequeue_pos: 0,
            head: Ghost(0),
            items: Ghost(Seq::empty()),
        }
    }

    /// The number of elements held.
    pub fn len(&self) -> (n: usize)
        ensures
            n == self@.len(),
            n <= self.capacity(),
    {
        proof {
            use_type_invariant(self);
        }
        let d = self.enqueue_pos.wrapping_sub(self.dequeue_pos);
        let cap = self.slots.len();
        proof {
            assert(self.items@.len() <= cap);
            let h = self.head@;
            lemma_wsub(h + self.items@.len(), h);
            lemma_small_mod(self.items@.len(), position_range() as nat);
        }
        d
    }

    /// The number of slots.
    pub fn capacity_of(&self) -> (n: usize)
        ensures
            n == self.capacity(),
    {
        self.slots.len()
    }

    /// Appends `data` at the back, or hands it back when the queue is full.
    pub fn enqueue(&mut self, data: T) -> (r: Result<(), T>)
        ensures
            final(self).capacity() == old(self).capacity(),
            old(self)@.len() < old(self).capacity() ==> r is Ok && final(self)@ == old(self)@.push(
                data,
            ),
            old(self)@.len() >= old(self).capacity() ==> r == Err::<(), T>(data) && final(self)@
                == old(self)@,
    {
        let mut taken = RingBuffer::without_slots();
        std::mem::swap(&mut taken, self);
        let (ring, r) = taken.enqueue_owned(data);
        *self = ring;
        r
    }

    /// Removes and returns the element at the front, or `None` when the queue is empty.
    pub fn dequeue(&mut self) -> (r: Option<T>)
        ensures
            final(self).capacity() == old(self).capacity(),
            old(self)@.len() > 0 ==> r == Some(old(self)@[0]) && final(self)@ == old(
                self,
            )@.drop_first(),
            old(self)@.len() == 0 ==> r is None && final(self)@ == old(self)@,
    {
        let mut taken = RingBuffer::without_slots();
        std::mem::swap(&mut taken, self);
        let (ring, r) = taken.dequeue_owned();
        *self = ring;
        r
    }

    /// `enqueue` on an owned ring: claims the slot at the enqueue position when its sequence
    /// number shows it ready for that position.
    pub fn enqueue_owned(self, data: T) -> (out: (Self, Result<(), T>))
        ensures
            out.0.capacity() == self.capacity(),
            self@.len() < self.capacity() ==> out.1 is Ok && out.0@ == self@.push(data),
            self@.len() >= self.capacity() ==> out.1 == Err::<(), T>(data) && out.0@ == self@,
    {
        proof {
            use_type_invariant(&self);
        }
        let ghost old_self = self;
        let RingBuffer { mut slots, enqueue_pos, dequeue_pos, head, items } = self;
        let n = slots.len();
        if n == 0 {
            return (RingBuffer { slots, enqueue_pos, dequeue_pos, head, items }, Err(data));
        }
        let pos = enqueue_pos;
        let j = pos % n;
        let ghost h = head@;
        let ghost items0 = items@;
        let ghost len = items0.len() as int;
        let ghost m = position_range();
        proof {
            lemma_range_facts(n as int);
            lemma_offset_of(h + len, h, n as int);
            assert(slot_ok(slots@[j as int], j as int, h, items0, n as int));
            if len < n {
                lemma_small_mod(len as nat, n as nat);
            } else {
                lemma_mod_add_multiples_vanish(0, n as int);
                lemma_small_mod(0, n as nat);
                lemma_wsub(h + 1, h + len);
                lemma_mod_add_multiples_vanish(1 - n, m);
                lemma_small_mod((m + 1 - n) as nat, m as nat);
            }
        }
        let seq = slots[j].sequence;
        match lag(seq, pos) {
            Lag::Ready => {
                let next = pos.wrapping_add(1);
                proof {
                    lemma_wadd(h + len, 1);
                }
                slots.set(j, Slot { sequence: next, data: Some(data) });
                let ghost items2 = items0.push(data);
                proof {
                    assert forall|k: int| 0 <= k < n implies #[trigger] slot_ok(
                        slots@[k],
                        k,
                        h,
                        items2,
                        n as int,
                    ) by {
                        if k != j {
                            assert(slot_ok(old_self.slots@[k], k, h, items0, n as int));
                            if (k - h) % (n as int) == len {
                                lemma_offset_unique(k, j as int, h, n as int);
                            }
                        }
                    }
                }
                (
                    RingBuffer { slots, enqueue_pos: next, dequeue_pos, head, items: Ghost(items2) },
                    Ok(()),
                )
            },
            _ => (RingBuffer { slots, enqueue_pos, dequeue_pos, head, items }, Err(data)),
        }
    }

    /// `dequeue` on an owned ring: takes the slot at the dequeue position when its sequence
    /// number shows it filled for that position, and sets it waiting one round later.
    pub fn dequeue_owned(self) -> (out: (Self, Option<T>))
        ensures
            out.0.capacity() == self.capacity(),
            self@.len() > 0 ==> out.1 == Some(self@[0]) && out.0@ == self@.drop_first(),
            self@.len() == 0 ==> out.1 is None && out.0@ == self@,
    {
        proof {
            use_type_invariant(&self);
        }
        let ghost old_self = self;
        let RingBuffer { mut slots, enqueue_pos, dequeue_pos, head, items } = self;
        let n = slots.len();
        if n == 0 {
            return (RingBuffer { slots, enqueue_pos, dequeue_pos, head, items }, None);
        }
        let pos = dequeue_pos;
        let j = pos % n;
        let ghost h = head@;
        let ghost items0 = items@;
        let ghost len = items0.len() as int;
        let ghost m = position_range();
        proof {
            lemma_range_facts(n as int);
            lemma_offset_of(h, h, n as int);
            lemma_small_mod(0, n as nat);
            assert(slot_ok(slots@[j as int], j as int, h, items0, n as int));
            lemma_wadd(h, 1);
            if len == 0 {
                lemma_wsub(h, h + 1);
                lemma_mod_add_multiples_vanish(-1, m);
                lemma_small_mod((m - 1) as nat, m as nat);
            }
        }
        let expected = pos.wrapping_add(1);
        let seq = slots[j].sequence;
        match lag(seq, expected) {
            Lag::Ready => {
                let freed = pos.wrapping_add(n);
                proof {
                    lemma_wadd(h, n as int);
                }
                let mut slot = Slot { sequence: freed, data: None };
                std::mem::swap(&mut slots[j], &mut slot);
                let ghost items2 = items0.drop_first();
                proof {
                    lemma_offset_shift(j as int, h, n as int);
                    assert forall|k: int| 0 <= k < n implies #[trigger] slot_ok(
                        slots@[k],
                        k,
                        h + 1,
                        items2,
                        n as int,
                    ) by {
                        lemma_offset_shift(k, h, n as int);
                        if k != j {
                            assert(slot_ok(old_self.slots@[k], k, h, items0, n as int));
                            if (k - h) % (n as int) == 0 {
                                lemma_offset_unique(k, j as int, h, n as int);
                            }
                            lemma_mod_bound(k - h, n as int);
                            let off = (k - h) % (n as int);
                            assert(h + 1 + (off - 1) == h + off);
                        } else {
                            assert(h + 1 + (n - 1) == h + n);
                        }
                    }
                }
                (
                    RingBuffer {
                        slots,
                        enqueue_pos,
                        dequeue_pos: expected,
                        head: Ghost(h + 1),
                        items: Ghost(items2),
                    },
                    slot.data,
                )
            },
            _ => (RingBuffer { slots, enqueue_pos, dequeue_pos, head, items }, None),
        }
    }
}

} // verus!
