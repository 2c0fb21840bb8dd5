//! Bounded MPMC queue built on per-slot sequence numbers.
//!
//! Every slot carries a sequence number, a stamp that names a position and
//! the slot's state for it: `2p` means free for the producer that holds
//! position `p`, and `2p + 1` means holding the item for the consumer at
//! position `p`. Taking an item restamps the slot as free for the position
//! one lap later, `p + capacity`. Positions are `usize` counters that wrap
//! around, and so do stamps. Because a free stamp is even and a full one odd,
//! a producer tells an empty slot from a slot still holding the item of the
//! previous lap for every capacity, one included.

use vstd::prelude::*;
use crate::collections::fifo::{fifo_accepts, fifo_front, fifo_pop, fifo_push};
use crate::collections::ring::{
    distance, is_ring_capacity, lemma_distance_forward, lemma_mask_is_slot, lemma_offsets_distinct,
    lemma_ring_capacity, lemma_slot_full_turn, lemma_wrap_add, lemma_wrap_basics, lemma_wrap_double,
    lemma_wrap_slot, lemma_wrap_sub, lemma_wrapping_add, lemma_wrapping_sub, modulus, slot_of, wrap,
};
use crate::sync::cache_pad::CachePadded;

verus! {

struct Slot<T> {
    sequence: usize,
    data: Option<T>,
}

/// The stamp of a slot that is free for the producer at position `p`.
pub open spec fn free_stamp(p: int) -> usize {
    wrap(2 * p)
}

/// The stamp of a slot that holds the item for the consumer at position `p`.
pub open spec fn full_stamp(p: int) -> usize {
    wrap(2 * p + 1)
}

/// Bounded FIFO queue with a power-of-two capacity.
pub struct ArrayQueue<T> {
    buffer: Vec<Slot<T>>,
    mask: usize,
    head: CachePadded<usize>,
    tail: CachePadded<usize>,
}

impl<T> ArrayQueue<T> {
    /// The number of items the queue can hold.
    pub closed spec fn capacity(&self) -> nat {
        self.buffer@.len()
    }

    /// The number of queued items: the distance from the consumer position to
    /// the producer position.
    closed spec fn count(&self) -> nat {
        distance(self.head.value, self.tail.value)
    }

    /// The slot of the item `k` places behind the consumer position.
    closed spec fn slot(&self, k: int) -> int {
        slot_of(self.head.value + k, self.capacity() as int)
    }

    /// The slot `k` places behind the consumer position holds that position's
    /// item, stamped full, when `k` is below the count, and is empty, stamped
    /// free for that position, otherwise.
    closed spec fn slot_ok(&self, k: int) -> bool {
        let s = self.buffer@[self.slot(k)];
        if k < self.count() {
            s.data is Some && s.sequence == full_stamp(self.head.value + k)
        } else {
            s.data is None && s.sequence == free_stamp(self.head.value + k)
        }
    }

    /// The queue's invariant.
    pub closed spec fn wf(&self) -> bool {
        &&& is_ring_capacity(self.capacity() as int)
        &&& self.capacity() <= usize::MAX / 4
        &&& self.mask == self.capacity() - 1
        &&& self.count() <= self.capacity()
        &&& forall|k: int| 0 <= k < self.capacity() ==> #[trigger] self.slot_ok(k)
    }

    /// The queued items, oldest first.
    pub closed spec fn view(&self) -> Seq<T> {
        Seq::new(self.count(), |k: int| self.buffer@[self.slot(k)].data->Some_0)
    }

    /// Creates an empty queue. `capacity` must be a power of two. (A larger
    /// capacity than `usize::MAX / 4` cannot be allocated: a slot takes more
    /// than four bytes.)
    pub fn new(capacity: usize) -> (queue: Self)
        requires
            is_ring_capacity(capacity as int),
            capacity <= usize::MAX / 4,
        ensures
            queue.wf(),
            queue.capacity() == capacity,
            queue@ == Seq::<T>::empty(),
    {
        proof {
            lemma_ring_capacity(capacity as int);
        }
        let mut buffer: Vec<Slot<T>> = Vec::with_capacity(capacity);
        let mut i: usize = 0;
        while i < capacity
            invariant
                i <= capacity,
                capacity <= usize::MAX / 4,
                buffer@.len() == i,
                forall|j: int| 0 <= j < i ==> buffer@[j].sequence == 2 * j && (#[trigger] buffer@[j]).data is None,
            decreases capacity - i,
        {
            buffer.push(Slot { sequence: i + i, data: None });
            i = i + 1;
        }
        let queue = ArrayQueue {
            buffer,
            mask: capacity - 1,
            head: CachePadded::new(0),
            tail: CachePadded::new(0),
        };
        proof {
            lemma_wrap_basics(0);
            assert forall|k: int| 0 <= k < queue.capacity() implies #[trigger] queue.slot_ok(k) by {
                vstd::arithmetic::div_mod::lemma_small_mod(k as nat, capacity as nat);
                lemma_wrap_basics(2 * k);
            }
            assert(queue@ =~= Seq::<T>::empty());
        }
        queue
    }

    /// The producer position is the consumer position advanced by the count.
    proof fn lemma_tail(&self)
        requires
            self.wf(),
        ensures
            self.tail.value == wrap(self.head.value + self.count()),
    {
        lemma_wrap_add(self.tail.value - self.head.value, self.head.value as int);
        lemma_wrap_basics(self.tail.value as int);
    }

    /// The producer position: where the next push goes.
    pub closed spec fn producer_position(&self) -> usize {
        self.tail.value
    }

    /// The consumer position: where the next pop comes from.
    pub closed spec fn consumer_position(&self) -> usize {
        self.head.value
    }

    /// The sequence number of the slot that position `pos` selects.
    pub closed spec fn sequence_at(&self, pos: usize) -> usize {
        self.buffer@[slot_of(pos as int, self.capacity() as int)].sequence
    }

    /// At the producer position the slot's stamp tells a producer to claim the
    /// slot exactly when the queue has room, and to stop otherwise.
    pub proof fn lemma_producer_decision(&self)
        requires
            self.wf(),
        ensures
            decide(self.sequence_at(self.producer_position()), free_stamp(self.producer_position() as int))
                == if self@.len() < self.capacity() {
                SlotDecision::Claim
            } else {
                SlotDecision::Stop
            },
    {
        let h = self.head.value as int;
        let n = self.count() as int;
        let cap = self.capacity() as int;
        let pos = self.tail.value;
        self.lemma_tail();
        lemma_wrap_slot(h + n, cap);
        lemma_ring_capacity(cap);
        lemma_wrap_basics(h + n);
        lemma_wrap_double(pos as int, h + n);
        if n < cap {
            assert(self.slot_ok(n));
            lemma_wrap_sub(2 * (h + n), 2 * (h + n));
            lemma_wrap_basics(0);
        } else {
            lemma_slot_full_turn(h, cap);
            assert(self.slot_ok(0));
            lemma_wrap_sub(2 * h + 1, 2 * (h + n));
            lemma_wrap_basics(1 - 2 * cap);
            vstd::arithmetic::div_mod::lemma_mod_add_multiples_vanish(1 - 2 * cap, modulus());
            vstd::arithmetic::div_mod::lemma_small_mod((modulus() + 1 - 2 * cap) as nat, modulus() as nat);
        }
    }

    /// At the consumer position the slot's stamp tells a consumer to claim the
    /// item exactly when the queue is not empty, and to stop otherwise.
    pub proof fn lemma_consumer_decision(&self)
        requires
            self.wf(),
        ensures
            decide(self.sequence_at(self.consumer_position()), full_stamp(self.consumer_position() as int))
                == if self@.len() > 0 {
                SlotDecision::Claim
            } else {
                SlotDecision::Stop
            },
    {
        let h = self.head.value as int;
        let n = self.count() as int;
        let cap = self.capacity() as int;
        lemma_ring_capacity(cap);
        lemma_wrap_basics(h);
        assert(self.slot(0) == slot_of(h, cap));
        assert(self.slot_ok(0));
        if n > 0 {
            lemma_wrap_sub(2 * h + 1, 2 * h + 1);
            lemma_wrap_basics(0);
        } else {
            lemma_wrap_sub(2 * h, 2 * h + 1);
            lemma_wrap_basics(-1);
            vstd::arithmetic::div_mod::lemma_mod_add_multiples_vanish(-1, modulus());
            vstd::arithmetic::div_mod::lemma_small_mod((modulus() - 1) as nat, modulus() as nat);
        }
    }

    /// A producer holding a stale position, one that another producer claimed
    /// within the last lap, is told to retry: it never overwrites a slot and
    /// never reports a queue with room as full.
    pub proof fn lemma_stale_producer_retries(&self, behind: int)
        requires
            self.wf(),
            1 <= behind <= self.capacity(),
        ensures
            decide(
                self.sequence_at(wrap(self.producer_position() - behind)),
                free_stamp(wrap(self.producer_position() - behind) as int),
            ) == SlotDecision::Retry,
    {
        let h = self.head.value as int;
        let n = self.count() as int;
        let cap = self.capacity() as int;
        let p = h + n - behind;
        self.lemma_tail();
        lemma_ring_capacity(cap);
        lemma_wrap_add(h + n, -behind);
        lemma_wrap_slot(p, cap);
        lemma_wrap_basics(p);
        lemma_wrap_double(wrap(p) as int, p);
        if behind <= n {
            let k = n - behind;
            assert(self.slot_ok(k));
            lemma_wrap_sub(2 * p + 1, 2 * p);
            lemma_wrap_basics(1);
        } else {
            let k = n - behind + cap;
            lemma_slot_full_turn(p, cap);
            assert(self.slot(k) == slot_of(p, cap));
            assert(self.slot_ok(k));
            lemma_wrap_sub(2 * (p + cap), 2 * p);
            lemma_wrap_basics(2 * cap);
        }
    }

    /// A consumer holding a stale position, one that another consumer took
    /// within the last lap, is told to retry: it never takes an item twice
    /// and never reports a non-empty queue as empty.
    pub proof fn lemma_stale_consumer_retries(&self, behind: int)
        requires
            self.wf(),
            1 <= behind <= self.capacity(),
        ensures
            decide(
                self.sequence_at(wrap(self.consumer_position() - behind)),
                full_stamp(wrap(self.consumer_position() - behind) as int),
            ) == SlotDecision::Retry,
    {
        let h = self.head.value as int;
        let n = self.count() as int;
        let cap = self.capacity() as int;
        let p = h - behind;
        let k = cap - behind;
        lemma_ring_capacity(cap);
        lemma_wrap_slot(p, cap);
        lemma_wrap_basics(p);
        lemma_wrap_double(wrap(p) as int, p);
        lemma_slot_full_turn(p, cap);
        assert(self.slot(k) == slot_of(p, cap));
        assert(self.slot_ok(k));
        if k < n {
            lemma_wrap_sub(2 * (p + cap) + 1, 2 * p + 1);
            lemma_wrap_basics(2 * cap);
        } else {
            lemma_wrap_sub(2 * (p + cap), 2 * p + 1);
            lemma_wrap_basics(2 * cap - 1);
        }
    }

    /// Enqueues an element. Returns `Err(data)` if the queue is full.
    pub fn push(&mut self, data: T) -> (result: Result<(), T>)
        requires
            old(self).wf(),
        ensures
            final(self).wf(),
            final(self).capacity() == old(self).capacity(),
            final(self)@ == fifo_push(old(self)@, old(self).capacity(), data),
            result is Ok <==> fifo_accepts(old(self)@, old(self).capacity()),
            result is Err ==> result == Err::<(), T>(data),
    {
        let ghost h = self.head.value as int;
        let ghost n = self.count() as int;
        let ghost cap = self.capacity() as int;
        let pos = self.tail.value;
        proof {
            self.lemma_tail();
            self.lemma_producer_decision();
            lemma_mask_is_slot(pos, cap as usize);
            lemma_wrap_slot(h + n, cap);
            lemma_wrapping_add(pos, pos);
        }
        let index = pos & self.mask;
        let expected = pos.wrapping_add(pos);
        // The slot at the producer position is either free for this lap or
        // still holds the item from one lap earlier, in which case the queue
        // is full. A retry, where another producer has claimed the position,
        // needs a second producer and cannot arise here.
        match slot_decision(self.buffer[index].sequence, expected) {
            SlotDecision::Claim => {
                let next = pos.wrapping_add(1);
                let stamp = expected.wrapping_add(1);
                proof {
                    lemma_wrapping_add(pos, 1);
                    lemma_wrap_add(h + n, 1);
                    lemma_wrapping_add(expected, 1);
                    lemma_wrap_add(2 * (pos as int), 1);
                    lemma_wrap_basics(h + n);
                    lemma_wrap_double(pos as int, h + n);
                }
                self.tail.value = next;
                self.buffer.set(index, Slot { sequence: stamp, data: Some(data) });
                proof {
                    lemma_distance_forward(h as usize, n + 1);
                    assert(self.count() == n + 1);
                    assert forall|k: int| 0 <= k < cap implies #[trigger] self.slot_ok(k) by {
                        if k != n {
                            if self.slot(k) == index {
                                lemma_offsets_distinct(h, k, n, cap);
                            }
                            assert(old(self).slot_ok(k));
                        }
                    }
                    assert(self@ =~= old(self)@.push(data)) by {
                        assert forall|k: int| 0 <= k < n implies self.slot(k) != index by {
                            if self.slot(k) == index {
                                lemma_offsets_distinct(h, k, n, cap);
                            }
                        }
                    }
                }
                Ok(())
            },
            _ => Err(data),
        }
    }

    /// Dequeues an element. Returns `None` if the queue is empty.
    pub fn pop(&mut self) -> (result: Option<T>)
        requires
            old(self).wf(),
        ensures
            final(self).wf(),
            final(self).capacity() == old(self).capacity(),
            result == fifo_front(old(self)@),
            final(self)@ == fifo_pop(old(self)@),
    {
        let ghost h = self.head.value as int;
        let ghost n = self.count() as int;
        let ghost cap = self.capacity() as int;
        let pos = self.head.value;
        proof {
            self.lemma_tail();
            self.lemma_consumer_decision();
            lemma_mask_is_slot(pos, cap as usize);
            lemma_ring_capacity(cap);
            lemma_wrap_basics(h);
            lemma_wrapping_add(pos, pos);
            lemma_wrapping_add(wrap(2 * h), 1);
            lemma_wrap_add(2 * h, 1);
            lemma_wrapping_add(pos, 1);
        }
        let index = pos & self.mask;
        proof {
            assert(self.slot(0) == index);
            assert(self.slot_ok(0));
        }
        let next = pos.wrapping_add(1);
        let expected = pos.wrapping_add(pos).wrapping_add(1);
        // The slot at the consumer position holds an item for this lap or is
        // still empty; a retry needs a second consumer.
        match slot_decision(self.buffer[index].sequence, expected) {
            SlotDecision::Claim => {
                let lap = pos.wrapping_add(self.mask).wrapping_add(1);
                let stamp = lap.wrapping_add(lap);
                proof {
                    lemma_wrapping_add(pos, self.mask);
                    lemma_wrapping_add(wrap(h + cap - 1), 1);
                    lemma_wrap_add(h + cap - 1, 1);
                    lemma_wrapping_add(lap, lap);
                    lemma_wrap_basics(h + cap);
                    lemma_wrap_double(lap as int, h + cap);
                }
                self.head.value = next;
                let mut slot = Slot { sequence: stamp, data: None };
                self.buffer.set_and_swap(index, &mut slot);
                proof {
                    let h2 = wrap(h + 1) as int;
                    assert forall|k: int| 0 <= k < cap implies self.slot(k) == old(self).slot(k + 1) by {
                        lemma_wrap_add(h + 1, k);
                        lemma_wrap_slot(h2 + k, cap);
                        lemma_wrap_slot(h + 1 + k, cap);
                    }
                    lemma_slot_full_turn(h, cap);
                    lemma_wrap_sub(h + n, h + 1);
                    lemma_wrap_basics(n - 1);
                    assert(self.count() == n - 1);
                    assert forall|k: int| 0 <= k < cap implies #[trigger] self.slot_ok(k) by {
                        lemma_wrap_add(h + 1, k);
                        lemma_wrap_double(h2 + k, h + (k + 1));
                        if k + 1 < cap {
                            if self.slot(k) == index {
                                lemma_offsets_distinct(h, k + 1, 0, cap);
                            }
                            assert(old(self).slot_ok(k + 1));
                        } else {
                            assert(h + (k + 1) == h + cap);
                        }
                    }
                    assert(self@ =~= old(self)@.drop_first()) by {
                        assert forall|k: int| 0 <= k < n - 1 implies self.slot(k) != index by {
                            if self.slot(k) == index {
                                lemma_offsets_distinct(h, k + 1, 0, cap);
                            }
                        }
                    }
                }
                slot.data
            },
            _ => None,
        }
    }
}

/// What a producer or consumer does after reading a slot's sequence number.
#[derive(Debug, Clone, Copy, PartialEq, Eq, Structural)]
pub enum SlotDecision {
    /// The slot is ready for this position: claim the position.
    Claim,
    /// The slot is a lap behind: the queue is full (for a producer) or empty
    /// (for a consumer).
    Stop,
    /// The position is stale: reload it and try again.
    Retry,
}

/// The decision for a slot with sequence `sequence`, read by a party that
/// expects `expected` (the free stamp of its position for a producer, the
/// full stamp for a consumer): the difference, read as a signed number, is
/// zero, negative or positive.
pub open spec fn decide(sequence: usize, expected: usize) -> SlotDecision {
    let dif = wrap(sequence - expected);
    if dif == 0 {
        SlotDecision::Claim
    } else if dif > usize::MAX / 2 {
        SlotDecision::Stop
    } else {
        SlotDecision::Retry
    }
}

/// Compares a slot's stamp with the one its reader expects.
pub fn slot_decision(sequence: usize, expected: usize) -> (decision: SlotDecision)
    ensures
        decision == decide(sequence, expected),
{
    proof {
        lemma_wrapping_sub(sequence, expected);
    }
    let dif = sequence.wrapping_sub(expected);
    if dif == 0 {
        SlotDecision::Claim
    } else if dif > usize::MAX / 2 {
        SlotDecision::Stop
    } else {
        SlotDecision::Retry
    }
}

} // verus!
