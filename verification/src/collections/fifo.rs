//! The abstract behaviour shared by the bounded queues: a sequence of items,
//! oldest first, that holds at most `cap` items.

use vstd::prelude::*;

verus! {

/// Whether a push onto `items` is accepted: only while there is room.
pub open spec fn fifo_accepts<T>(items: Seq<T>, cap: nat) -> bool {
    items.len() < cap
}

/// The items after a push: the new item joins the back, unless the queue is
/// full, in which case nothing changes.
pub open spec fn fifo_push<T>(items: Seq<T>, cap: nat, x: T) -> Seq<T> {
    if fifo_accepts(items, cap) {
        items.push(x)
    } else {
        items
    }
}

/// The item a pop hands out: the oldest one, if any.
pub open spec fn fifo_front<T>(items: Seq<T>) -> Option<T> {
    if items.len() == 0 {
        None
    } else {
        Some(items[0])
    }
}

/// The items after a pop: the oldest one leaves.
pub open spec fn fifo_pop<T>(items: Seq<T>) -> Seq<T> {
    if items.len() == 0 {
        items
    } else {
        items.drop_first()
    }
}

/// One operation on a queue.
pub enum QueueOp<T> {
    Push(T),
    Pop,
}

/// Runs `ops` from `items`; the result is the final items, the pushed items
/// that were accepted and the items that pops handed out, each in order.
pub open spec fn run_fifo<T>(items: Seq<T>, cap: nat, ops: Seq<QueueOp<T>>) -> (Seq<T>, Seq<T>, Seq<T>)
    decreases ops.len(),
{
    if ops.len() == 0 {
        (items, Seq::empty(), Seq::empty())
    } else {
        let (mid, accepted, delivered) = match ops[0] {
            QueueOp::Push(x) => (
                fifo_push(items, cap, x),
                if fifo_accepts(items, cap) { seq![x] } else { Seq::empty() },
                Seq::<T>::empty(),
            ),
            QueueOp::Pop => (
                fifo_pop(items),
                Seq::<T>::empty(),
                if items.len() == 0 { Seq::empty() } else { seq![items[0]] },
            ),
        };
        let (fin, accepted_rest, delivered_rest) = run_fifo(mid, cap, ops.drop_first());
        (fin, accepted + accepted_rest, delivered + delivered_rest)
    }
}

/// Nothing is lost, duplicated or reordered: the items handed out by pops,
/// followed by the items still queued, are exactly the items that were queued
/// at the start followed by every accepted push, in order. The queue never
/// holds more than its capacity.
pub proof fn lemma_fifo_conservation<T>(items: Seq<T>, cap: nat, ops: Seq<QueueOp<T>>)
    requires
        items.len() <= cap,
    ensures
        run_fifo(items, cap, ops).2 + run_fifo(items, cap, ops).0 == items + run_fifo(items, cap, ops).1,
        run_fifo(items, cap, ops).0.len() <= cap,
    decreases ops.len(),
{
    if ops.len() > 0 {
        let rest = ops.drop_first();
        match ops[0] {
            QueueOp::Push(x) => {
                let mid = fifo_push(items, cap, x);
                lemma_fifo_conservation(mid, cap, rest);
                let (fin, acc, del) = run_fifo(mid, cap, rest);
                if fifo_accepts(items, cap) {
                    assert(del + fin == items.push(x) + acc);
                    assert(items.push(x) + acc =~= items + (seq![x] + acc));
                    assert(Seq::<T>::empty() + del =~= del);
                } else {
                    assert(Seq::<T>::empty() + del =~= del);
                    assert(Seq::<T>::empty() + acc =~= acc);
                }
            },
            QueueOp::Pop => {
                let mid = fifo_pop(items);
                lemma_fifo_conservation(mid, cap, rest);
                let (fin, acc, del) = run_fifo(mid, cap, rest);
                if items.len() == 0 {
                    assert(Seq::<T>::empty() + del =~= del);
                    assert(Seq::<T>::empty() + acc =~= acc);
                } else {
                    assert(del + fin == items.drop_first() + acc);
                    assert(seq![items[0]] + (del + fin) =~= items + acc);
                    assert(seq![items[0]] + del + fin =~= seq![items[0]] + (del + fin));
                    assert(Seq::<T>::empty() + acc =~= acc);
                }
            },
        }
    }
}

/// A single item pushed onto an empty queue is the next one popped, and the
/// queue is empty again afterwards.
pub proof fn lemma_fifo_push_then_pop<T>(cap: nat, x: T)
    requires
        cap >= 1,
    ensures
        fifo_front(fifo_push(Seq::<T>::empty(), cap, x)) == Some(x),
        fifo_pop(fifo_push(Seq::<T>::empty(), cap, x)) == Seq::<T>::empty(),
{
    assert(fifo_pop(fifo_push(Seq::<T>::empty(), cap, x)) =~= Seq::<T>::empty());
}

/// Items leave in the order they arrived: pushing `x` behind a non-empty
/// queue does not change which item is popped next.
pub proof fn lemma_fifo_order<T>(items: Seq<T>, cap: nat, x: T)
    requires
        items.len() > 0,
    ensures
        fifo_front(fifo_push(items, cap, x)) == fifo_front(items),
{
}

} // verus!
