//! The single-producer single-consumer protocol of [`SpscQueue`] with the
//! producer and the consumer running at the same time.
//!
//! A push is three steps of the producer: read the consumer's head and
//! check for room, write the slot at the tail, publish the new tail. A pop is
//! three steps of the consumer: read the producer's tail and check for an
//! item, take the slot at the head, publish the new head. Steps of the two
//! parties interleave arbitrarily, each step being atomic. Positions here
//! are unbounded; that wrapping `usize` positions select the same slots is
//! shown in the `ring` module.
//!
//! [`SpscQueue`]: crate::collections::spsc::SpscQueue

use vstd::prelude::*;
use crate::collections::fifo::{fifo_front, fifo_pop, fifo_push};
use crate::collections::ring::{lemma_offsets_distinct, lemma_slot_full_turn, slot_of};

verus! {

/// Where the producer is within a push.
pub enum ProducerPhase<T> {
    /// Between pushes.
    Idle,
    /// Found room for `value` at position `pos`.
    Checked { pos: int, value: T },
    /// Wrote `value` into the slot of `pos`, not yet published.
    Written { pos: int, value: T },
}

/// Where the consumer is within a pop.
pub enum ConsumerPhase<T> {
    /// Between pops.
    Idle,
    /// Found an item at position `pos`.
    Checked { pos: int },
    /// Took `value` out of the slot of `pos`, not yet published.
    Taken { pos: int, value: T },
}

/// The shared queue and both parties' progress, with the history of every
/// item the producer published and the consumer handed out.
pub struct SpscSystem<T> {
    pub capacity: nat,
    pub head: int,
    pub tail: int,
    pub slots: Seq<Option<T>>,
    pub producer: ProducerPhase<T>,
    pub consumer: ConsumerPhase<T>,
    pub sent: Seq<T>,
    pub received: Seq<T>,
}

/// One atomic step of either party.
pub enum SpscAction<T> {
    /// Start pushing `value`: read the head and check for room.
    ProducerCheck(T),
    ProducerWrite,
    ProducerPublish,
    /// Start popping: read the tail and check for an item.
    ConsumerCheck,
    ConsumerTake,
    ConsumerPublish,
}

/// An empty queue of `capacity` slots with both parties idle.
pub open spec fn spsc_init<T>(capacity: nat) -> SpscSystem<T> {
    SpscSystem {
        capacity,
        head: 0,
        tail: 0,
        slots: Seq::new(capacity, |i: int| None),
        producer: ProducerPhase::Idle,
        consumer: ConsumerPhase::Idle,
        sent: Seq::empty(),
        received: Seq::empty(),
    }
}

/// Whether `action` can be taken now. A party's next step depends only on
/// its own phase, never on the other party.
pub open spec fn spsc_enabled<T>(s: SpscSystem<T>, action: SpscAction<T>) -> bool {
    match action {
        SpscAction::ProducerCheck(_) => s.producer is Idle,
        SpscAction::ProducerWrite => s.producer is Checked,
        SpscAction::ProducerPublish => s.producer is Written,
        SpscAction::ConsumerCheck => s.consumer is Idle,
        SpscAction::ConsumerTake => s.consumer is Checked,
        SpscAction::ConsumerPublish => s.consumer is Taken,
    }
}

/// The state after `action`, which must be enabled.
pub open spec fn spsc_step<T>(s: SpscSystem<T>, action: SpscAction<T>) -> SpscSystem<T> {
    let cap = s.capacity as int;
    match action {
        SpscAction::ProducerCheck(value) => if s.tail - s.head >= cap {
            s
        } else {
            SpscSystem { producer: ProducerPhase::Checked { pos: s.tail, value }, ..s }
        },
        SpscAction::ProducerWrite => match s.producer {
            ProducerPhase::Checked { pos, value } => SpscSystem {
                slots: s.slots.update(slot_of(pos, cap), Some(value)),
                producer: ProducerPhase::Written { pos, value },
                ..s
            },
            _ => s,
        },
        SpscAction::ProducerPublish => match s.producer {
            ProducerPhase::Written { pos, value } => SpscSystem {
                tail: pos + 1,
                producer: ProducerPhase::Idle,
                sent: s.sent.push(value),
                ..s
            },
            _ => s,
        },
        SpscAction::ConsumerCheck => if s.head == s.tail {
            s
        } else {
            SpscSystem { consumer: ConsumerPhase::Checked { pos: s.head }, ..s }
        },
        SpscAction::ConsumerTake => match s.consumer {
            ConsumerPhase::Checked { pos } => SpscSystem {
                slots: s.slots.update(slot_of(pos, cap), None),
                consumer: ConsumerPhase::Taken { pos, value: s.slots[slot_of(pos, cap)]->Some_0 },
                ..s
            },
            _ => s,
        },
        SpscAction::ConsumerPublish => match s.consumer {
            ConsumerPhase::Taken { pos, value } => SpscSystem {
                head: pos + 1,
                consumer: ConsumerPhase::Idle,
                received: s.received.push(value),
                ..s
            },
            _ => s,
        },
    }
}

/// Runs the enabled actions of `actions` in order, skipping the others.
pub open spec fn spsc_run<T>(s: SpscSystem<T>, actions: Seq<SpscAction<T>>) -> SpscSystem<T>
    decreases actions.len(),
{
    if actions.len() == 0 {
        s
    } else {
        let next = if spsc_enabled(s, actions[0]) {
            spsc_step(s, actions[0])
        } else {
            s
        };
        spsc_run(next, actions.drop_first())
    }
}

/// What the slot `k` places after the head holds: the published item at
/// that position, except the one the consumer has taken out, or the item
/// the producer has written just past the tail.
pub open spec fn expected_slot<T>(s: SpscSystem<T>, k: int) -> Option<T> {
    let p = s.head + k;
    if p < s.tail {
        if k == 0 && s.consumer is Taken {
            None
        } else {
            Some(s.sent[p])
        }
    } else if p == s.tail && s.producer is Written {
        Some(s.producer->Written_value)
    } else {
        None
    }
}

/// The invariant of the protocol.
pub open spec fn spsc_inv<T>(s: SpscSystem<T>) -> bool {
    let cap = s.capacity as int;
    &&& cap > 0
    &&& s.slots.len() == cap
    &&& 0 <= s.head <= s.tail <= s.head + cap
    &&& s.sent.len() == s.tail
    &&& s.received == s.sent.subrange(0, s.head)
    &&& match s.producer {
        ProducerPhase::Idle => true,
        ProducerPhase::Checked { pos, value } => pos == s.tail && s.tail - s.head < cap,
        ProducerPhase::Written { pos, value } => pos == s.tail && s.tail - s.head < cap,
    }
    &&& match s.consumer {
        ConsumerPhase::Idle => true,
        ConsumerPhase::Checked { pos } => pos == s.head && s.head < s.tail,
        ConsumerPhase::Taken { pos, value } => pos == s.head && s.head < s.tail && value == s.sent[s.head],
    }
    &&& forall|k: int| 0 <= k < cap ==> #[trigger] s.slots[slot_of(s.head + k, cap)] == expected_slot(s, k)
}

/// The empty queue satisfies the invariant.
pub proof fn lemma_init_inv<T>(capacity: nat)
    requires
        capacity > 0,
    ensures
        spsc_inv(spsc_init::<T>(capacity)),
{
    let s = spsc_init::<T>(capacity);
    assert(s.received =~= s.sent.subrange(0, 0));
    assert forall|k: int| 0 <= k < capacity implies #[trigger] s.slots[slot_of(s.head + k, capacity as int)]
        == expected_slot(s, k) by {
        vstd::arithmetic::div_mod::lemma_mod_bound(k, capacity as int);
    }
}

/// Every enabled step keeps the invariant. In particular the producer writes
/// only into a slot that holds no unread item, and the consumer takes only
/// the item published at its position.
pub proof fn lemma_step_inv<T>(s: SpscSystem<T>, action: SpscAction<T>)
    requires
        spsc_inv(s),
        spsc_enabled(s, action),
    ensures
        spsc_inv(spsc_step(s, action)),
        action is ProducerWrite ==> s.slots[slot_of(s.tail, s.capacity as int)] is None,
        action is ConsumerTake ==> s.slots[slot_of(s.head, s.capacity as int)] == Some(s.sent[s.head]),
{
    let cap = s.capacity as int;
    let t = spsc_step(s, action);
    match action {
        SpscAction::ProducerCheck(value) => {
            assert forall|k: int| 0 <= k < cap implies #[trigger] t.slots[slot_of(t.head + k, cap)]
                == expected_slot(t, k) by {
                assert(s.slots[slot_of(s.head + k, cap)] == expected_slot(s, k));
            }
        },
        SpscAction::ProducerWrite => {
            let n = s.tail - s.head;
            assert(s.head + n == s.tail);
            assert(s.slots[slot_of(s.head + n, cap)] == expected_slot(s, n));
            assert forall|k: int| 0 <= k < cap implies #[trigger] t.slots[slot_of(t.head + k, cap)]
                == expected_slot(t, k) by {
                vstd::arithmetic::div_mod::lemma_mod_bound(s.head + k, cap);
                if k != n && slot_of(s.head + k, cap) == slot_of(s.head + n, cap) {
                    lemma_offsets_distinct(s.head, k, n, cap);
                }
                assert(s.slots[slot_of(s.head + k, cap)] == expected_slot(s, k));
            }
        },
        SpscAction::ProducerPublish => {
            let n = s.tail - s.head;
            assert(t.sent.subrange(0, t.head) =~= s.sent.subrange(0, s.head));
            assert forall|k: int| 0 <= k < cap implies #[trigger] t.slots[slot_of(t.head + k, cap)]
                == expected_slot(t, k) by {
                assert(s.slots[slot_of(s.head + k, cap)] == expected_slot(s, k));
            }
        },
        SpscAction::ConsumerCheck => {
            assert forall|k: int| 0 <= k < cap implies #[trigger] t.slots[slot_of(t.head + k, cap)]
                == expected_slot(t, k) by {
                assert(s.slots[slot_of(s.head + k, cap)] == expected_slot(s, k));
            }
        },
        SpscAction::ConsumerTake => {
            assert(s.head + 0 == s.head);
            assert(s.slots[slot_of(s.head + 0, cap)] == expected_slot(s, 0));
            assert forall|k: int| 0 <= k < cap implies #[trigger] t.slots[slot_of(t.head + k, cap)]
                == expected_slot(t, k) by {
                vstd::arithmetic::div_mod::lemma_mod_bound(s.head + k, cap);
                if k != 0 && slot_of(s.head + k, cap) == slot_of(s.head + 0, cap) {
                    lemma_offsets_distinct(s.head, k, 0, cap);
                }
                assert(s.slots[slot_of(s.head + k, cap)] == expected_slot(s, k));
            }
        },
        SpscAction::ConsumerPublish => {
            assert(t.received =~= t.sent.subrange(0, t.head));
            assert forall|k: int| 0 <= k < cap implies #[trigger] t.slots[slot_of(t.head + k, cap)]
                == expected_slot(t, k) by {
                if k + 1 < cap {
                    assert(t.head + k == s.head + (k + 1));
                    assert(s.slots[slot_of(s.head + (k + 1), cap)] == expected_slot(s, k + 1));
                } else {
                    assert(s.head + 0 == s.head);
                    assert(s.slots[slot_of(s.head + 0, cap)] == expected_slot(s, 0));
                    lemma_slot_full_turn(s.head, cap);
                    assert(t.head + k == s.head + cap);
                }
            }
        },
    }
}

/// Under any interleaving of the producer's and the consumer's steps, the
/// invariant holds; so the consumer hands out exactly the published items,
/// in order, each once, and the queue never holds more than its capacity.
pub proof fn lemma_run_inv<T>(s: SpscSystem<T>, actions: Seq<SpscAction<T>>)
    requires
        spsc_inv(s),
    ensures
        spsc_inv(spsc_run(s, actions)),
        spsc_run(s, actions).received == spsc_run(s, actions).sent.subrange(0, spsc_run(s, actions).head),
        spsc_run(s, actions).tail - spsc_run(s, actions).head <= s.capacity,
    decreases actions.len(),
{
    if actions.len() > 0 {
        let next = if spsc_enabled(s, actions[0]) {
            lemma_step_inv(s, actions[0]);
            spsc_step(s, actions[0])
        } else {
            s
        };
        lemma_run_inv(next, actions.drop_first());
    }
}

/// The items queued in a state: published and not yet handed out.
pub open spec fn queued<T>(s: SpscSystem<T>) -> Seq<T> {
    s.sent.subrange(s.head, s.tail)
}

/// The producer's three steps of a push.
pub open spec fn push_steps<T>(value: T) -> Seq<SpscAction<T>> {
    seq![SpscAction::ProducerCheck(value), SpscAction::ProducerWrite, SpscAction::ProducerPublish]
}

/// The consumer's three steps of a pop.
pub open spec fn pop_steps<T>() -> Seq<SpscAction<T>> {
    seq![SpscAction::ConsumerCheck, SpscAction::ConsumerTake, SpscAction::ConsumerPublish]
}

/// A push's steps, run without interruption, change the queued items exactly
/// as `SpscQueue::push` changes its items (`fifo_push`), whatever the
/// consumer is doing; the consumer's progress is untouched.
pub proof fn lemma_push_steps<T>(s: SpscSystem<T>, value: T)
    requires
        spsc_inv(s),
        s.producer is Idle,
    ensures
        spsc_inv(spsc_run(s, push_steps(value))),
        queued(spsc_run(s, push_steps(value))) == fifo_push(queued(s), s.capacity, value),
        spsc_run(s, push_steps(value)).producer is Idle,
        spsc_run(s, push_steps(value)).consumer == s.consumer,
        spsc_run(s, push_steps(value)).received == s.received,
        spsc_run(s, push_steps(value)).capacity == s.capacity,
{
    let steps = push_steps(value);
    reveal_with_fuel(spsc_run, 4);
    lemma_run_inv(s, steps);
    let s1 = spsc_step(s, steps[0]);
    lemma_step_inv(s, steps[0]);
    assert(steps.drop_first() =~= seq![SpscAction::ProducerWrite, SpscAction::ProducerPublish]);
    assert(steps.drop_first().drop_first() =~= seq![SpscAction::<T>::ProducerPublish]);
    assert(steps.drop_first().drop_first().drop_first() =~= Seq::<SpscAction<T>>::empty());
    if s.tail - s.head < s.capacity {
        let s2 = spsc_step(s1, SpscAction::ProducerWrite);
        lemma_step_inv(s1, SpscAction::ProducerWrite);
        let s3 = spsc_step(s2, SpscAction::ProducerPublish);
        assert(spsc_run(s, steps) == s3);
        assert(queued(s3) =~= queued(s).push(value));
    } else {
        assert(spsc_run(s, steps) == s);
    }
}

/// A pop's steps, run without interruption, hand out the item that
/// `SpscQueue::pop` returns (`fifo_front`) and leave the queued items as it
/// does (`fifo_pop`), whatever the producer is doing.
pub proof fn lemma_pop_steps<T>(s: SpscSystem<T>)
    requires
        spsc_inv(s),
        s.consumer is Idle,
    ensures
        spsc_inv(spsc_run(s, pop_steps())),
        queued(spsc_run(s, pop_steps())) == fifo_pop(queued(s)),
        spsc_run(s, pop_steps()).received == match fifo_front(queued(s)) {
            Some(x) => s.received.push(x),
            None => s.received,
        },
        spsc_run(s, pop_steps()).consumer is Idle,
        spsc_run(s, pop_steps()).producer == s.producer,
        spsc_run(s, pop_steps()).capacity == s.capacity,
{
    let steps = pop_steps::<T>();
    reveal_with_fuel(spsc_run, 4);
    lemma_run_inv(s, steps);
    let s1 = spsc_step(s, steps[0]);
    lemma_step_inv(s, steps[0]);
    assert(steps.drop_first() =~= seq![SpscAction::<T>::ConsumerTake, SpscAction::ConsumerPublish]);
    assert(steps.drop_first().drop_first() =~= seq![SpscAction::<T>::ConsumerPublish]);
    assert(steps.drop_first().drop_first().drop_first() =~= Seq::<SpscAction<T>>::empty());
    if s.head != s.tail {
        let s2 = spsc_step(s1, SpscAction::ConsumerTake);
        lemma_step_inv(s1, SpscAction::ConsumerTake);
        let s3 = spsc_step(s2, SpscAction::ConsumerPublish);
        assert(spsc_run(s, steps) == s3);
        assert(queued(s3) =~= queued(s).drop_first());
    } else {
        assert(spsc_run(s, steps) == s);
        assert(queued(s) =~= Seq::<T>::empty());
    }
}

} // verus!
