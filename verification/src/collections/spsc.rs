//! Bounded single-producer single-consumer queue.
//!
//! The producer owns the tail position and the consumer the head position;
//! both are `usize` counters that wrap around, and the queue holds the items
//! between them.

use vstd::prelude::*;
use crate::collections::fifo::{fifo_accepts, fifo_front, fifo_pop, fifo_push};
use crate::collections::ring::{
    distance, is_ring_capacity, lemma_distance_forward, lemma_mask_is_slot, lemma_offsets_distinct,
    lemma_ring_capacity, lemma_wrap_add, lemma_wrap_basics, lemma_wrap_slot, lemma_wrap_sub,
    lemma_wrapping_add, lemma_wrapping_sub, slot_of, wrap,
};
use crate::sync::cache_pad::CachePadded;

verus! {

/// Bounded FIFO queue for one producer and one consumer, with a power-of-two
/// capacity.
pub struct SpscQueue<T> {
    buffer: Vec<Option<T>>,
    mask: usize,
    head: CachePadded<usize>,
    tail: CachePadded<usize>,
}

impl<T> SpscQueue<T> {
    /// The number of items the queue can hold.
    pub closed spec fn capacity(&self) -> nat {
        self.buffer@.len()
    }

    closed spec fn count(&self) -> nat {
        distance(self.head.value, self.tail.value)
    }

    closed spec fn slot(&self, k: int) -> int {
        slot_of(self.head.value + k, self.capacity() as int)
    }

    /// The slots of the `count` positions from the head hold the items; the
    /// others are empty.
    closed spec fn slot_ok(&self, k: int) -> bool {
        (k < self.count()) == (self.buffer@[self.slot(k)] is Some)
    }

    /// The queue's invariant.
    pub closed spec fn wf(&self) -> bool {
        &&& is_ring_capacity(self.capacity() as int)
        &&& self.mask == self.capacity() - 1
        &&& self.count() <= self.capacity()
        &&& forall|k: int| 0 <= k < self.capacity() ==> #[trigger] self.slot_ok(k)
    }

    /// The queued items, oldest first.
    pub closed spec fn view(&self) -> Seq<T> {
        Seq::new(self.count(), |k: int| self.buffer@[self.slot(k)]->Some_0)
    }

    /// Creates an empty queue. `capacity` must be a power of two.
    pub fn new(capacity: usize) -> (queue: Self)
        requires
            is_ring_capacity(capacity as int),
        ensures
            queue.wf(),
            queue.capacity() == capacity,
            queue@ == Seq::<T>::empty(),
    {
        proof {
            lemma_ring_capacity(capacity as int);
        }
        let mut buffer: Vec<Option<T>> = Vec::with_capacity(capacity);
        let mut i: usize = 0;
        while i < capacity
            invariant
                i <= capacity,
                buffer@.len() == i,
                forall|j: int| 0 <= j < i ==> #[trigger] buffer@[j] is None,
            decreases capacity - i,
        {
            buffer.push(None);
            i = i + 1;
        }
        let queue = SpscQueue {
            buffer,
            mask: capacity - 1,
            head: CachePadded::new(0),
            tail: CachePadded::new(0),
        };
        proof {
            lemma_wrap_basics(0);
            lemma_ring_capacity(capacity as int);
            assert forall|k: int| 0 <= k < queue.capacity() implies #[trigger] queue.slot_ok(k) by {
                vstd::arithmetic::div_mod::lemma_small_mod(k as nat, capacity as nat);
            }
            assert(queue@ =~= Seq::<T>::empty());
        }
        queue
    }

    proof fn lemma_tail(&self)
        requires
            self.wf(),
        ensures
            self.tail.value == wrap(self.head.value + self.count()),
    {
        lemma_wrap_add(self.tail.value - self.head.value, self.head.value as int);
        lemma_wrap_basics(self.tail.value as int);
    }

    /// Enqueues an element; `Err(value)` when the queue is full.
    pub fn push(&mut self, value: T) -> (result: Result<(), T>)
        requires
            old(self).wf(),
        ensures
            final(self).wf(),
            final(self).capacity() == old(self).capacity(),
            final(self)@ == fifo_push(old(self)@, old(self).capacity(), value),
            result is Ok <==> fifo_accepts(old(self)@, old(self).capacity()),
            result is Err ==> result == Err::<(), T>(value),
    {
        let ghost h = self.head.value as int;
        let ghost n = self.count() as int;
        let ghost cap = self.capacity() as int;
        let tail = self.tail.value;
        let head = self.head.value;
        proof {
            lemma_wrapping_sub(tail, head);
        }
        if tail.wrapping_sub(head) >= self.buffer.len() {
            return Err(value);
        }
        proof {
            self.lemma_tail();
            lemma_mask_is_slot(tail, cap as usize);
            lemma_wrap_slot(h + n, cap);
            lemma_ring_capacity(cap);
            lemma_wrapping_add(tail, 1);
            lemma_wrap_add(h + n, 1);
        }
        let index = tail & self.mask;
        self.buffer.set(index, Some(value));
        self.tail.value = tail.wrapping_add(1);
        proof {
            lemma_distance_forward(h as usize, n + 1);
            assert forall|k: int| 0 <= k < cap implies #[trigger] self.slot_ok(k) by {
                if k != n {
                    if self.slot(k) == index {
                        lemma_offsets_distinct(h, k, n, cap);
                    }
                    assert(old(self).slot_ok(k));
                }
            }
            assert(self@ =~= old(self)@.push(value)) by {
                assert forall|k: int| 0 <= k < n implies self.slot(k) != index by {
                    if self.slot(k) == index {
                        lemma_offsets_distinct(h, k, n, cap);
                    }
                }
            }
        }
        Ok(())
    }

    /// Dequeues an element; `None` when the queue is empty.
    pub fn pop(&mut self) -> (result: Option<T>)
        requires
            old(self).wf(),
        ensures
            final(self).wf(),
            final(self).capacity() == old(self).capacity(),
            result == fifo_front(old(self)@),
            final(self)@ == fifo_pop(old(self)@),
    {
        let ghost h = self.head.value as int;
        let ghost n = self.count() as int;
        let ghost cap = self.capacity() as int;
        let head = self.head.value;
        let tail = self.tail.value;
        proof {
            self.lemma_tail();
            lemma_wrap_basics(h);
            lemma_wrap_basics(h + n);
            lemma_ring_capacity(cap);
        }
        if head == tail {
            proof {
                lemma_wrap_basics(0);
            }
            return None;
        }
        proof {
            if n == 0 {
                lemma_wrap_basics(0);
            }
            lemma_mask_is_slot(head, cap as usize);
            assert(self.slot(0) == slot_of(h, cap));
            assert(self.slot_ok(0));
            lemma_wrapping_add(head, 1);
        }
        let index = head & self.mask;
        let mut taken: Option<T> = None;
        self.buffer.set_and_swap(index, &mut taken);
        self.head.value = head.wrapping_add(1);
        proof {
            let h2 = wrap(h + 1) as int;
            assert forall|k: int| 0 <= k < cap implies self.slot(k) == old(self).slot(k + 1) by {
                lemma_wrap_add(h + 1, k);
                lemma_wrap_slot(h2 + k, cap);
                lemma_wrap_slot(h + 1 + k, cap);
            }
            vstd::arithmetic::div_mod::lemma_mod_add_multiples_vanish(h, cap);
            lemma_wrap_sub(h + n, h + 1);
            lemma_wrap_basics(n - 1);
            assert(self.count() == n - 1);
            assert forall|k: int| 0 <= k < cap implies #[trigger] self.slot_ok(k) by {
                if k + 1 < cap {
                    if self.slot(k) == index {
                        lemma_offsets_distinct(h, k + 1, 0, cap);
                    }
                    assert(old(self).slot_ok(k + 1));
                }
            }
            assert(self@ =~= old(self)@.drop_first()) by {
                assert forall|k: int| 0 <= k < n - 1 implies self.slot(k) != index by {
                    if self.slot(k) == index {
                        lemma_offsets_distinct(h, k + 1, 0, cap);
                    }
                }
            }
        }
        taken
    }
}

} // verus!
