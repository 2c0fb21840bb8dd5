use aevum::collections::flat_map::fnv1a;
use aevum::collections::queue::{slot_decision, SlotDecision};
use aevum::collections::ring::is_power_of_two;
use aevum::collections::{ArrayQueue, FlatLockFreeMap, ObjectPool, SpscQueue, TreiberStack};
use aevum::sync::{worker_start, worker_step, CachePadded, TicketLock, WorkerAction, WorkerState};

#[test]
fn array_queue_rejects_push_when_full() {
    let mut queue = ArrayQueue::new(2);
    assert_eq!(queue.push(10), Ok(()));
    assert_eq!(queue.push(20), Ok(()));
    assert_eq!(queue.push(30), Err(30));
    assert_eq!(queue.pop(), Some(10));
    assert_eq!(queue.push(30), Ok(()));
    assert_eq!(queue.pop(), Some(20));
    assert_eq!(queue.pop(), Some(30));
    assert_eq!(queue.pop(), None);
}

#[test]
fn array_queue_of_capacity_one() {
    let mut queue = ArrayQueue::new(1);
    assert_eq!(queue.push('a'), Ok(()));
    assert_eq!(queue.push('b'), Err('b'));
    assert_eq!(queue.pop(), Some('a'));
    assert_eq!(queue.pop(), None);
    for c in ['x', 'y', 'z'] {
        assert_eq!(queue.push(c), Ok(()));
        assert_eq!(queue.push('!'), Err('!'));
        assert_eq!(queue.pop(), Some(c));
    }
    assert_eq!(queue.pop(), None);
}

#[test]
fn object_pool_of_capacity_one() {
    let mut pool = ObjectPool::new(1, || 0u8);
    let mut a = pool.take();
    let mut b = pool.take();
    *a.get_mut() = 1;
    *b.get_mut() = 2;
    pool.recycle(a);
    // The pool already holds one idle object; the second is dropped.
    pool.recycle(b);
    assert_eq!(*pool.take().get(), 1);
    assert_eq!(*pool.take().get(), 0);
}

#[test]
fn array_queue_keeps_order_over_many_laps() {
    let mut queue = ArrayQueue::new(4);
    let mut next_in = 0u64;
    let mut next_out = 0u64;
    for round in 0..500u64 {
        let pushes = round % 5;
        for _ in 0..pushes {
            if queue.push(next_in).is_ok() {
                next_in += 1;
            }
        }
        for _ in 0..(round % 3) {
            match queue.pop() {
                Some(v) => {
                    assert_eq!(v, next_out);
                    next_out += 1;
                }
                None => assert_eq!(next_in, next_out),
            }
        }
    }
    while let Some(v) = queue.pop() {
        assert_eq!(v, next_out);
        next_out += 1;
    }
    assert_eq!(next_in, next_out);
}

#[test]
fn array_queue_pop_on_empty_is_none() {
    let mut queue: ArrayQueue<String> = ArrayQueue::new(8);
    assert!(queue.pop().is_none());
    assert!(queue.push(String::from("x")).is_ok());
    assert_eq!(queue.pop().as_deref(), Some("x"));
    assert!(queue.pop().is_none());
}

#[test]
fn spsc_queue_of_capacity_one() {
    let mut queue = SpscQueue::new(1);
    assert_eq!(queue.push('a'), Ok(()));
    assert_eq!(queue.push('b'), Err('b'));
    assert_eq!(queue.pop(), Some('a'));
    assert_eq!(queue.pop(), None);
    assert_eq!(queue.push('c'), Ok(()));
    assert_eq!(queue.pop(), Some('c'));
}

#[test]
fn spsc_queue_full_at_capacity() {
    let mut queue = SpscQueue::new(4);
    for i in 0..4 {
        assert!(queue.push(i).is_ok());
    }
    assert_eq!(queue.push(4), Err(4));
    for i in 0..4 {
        assert_eq!(queue.pop(), Some(i));
    }
    assert_eq!(queue.pop(), None);
}

#[test]
fn treiber_stack_is_last_in_first_out() {
    let mut stack = TreiberStack::new();
    assert_eq!(stack.pop(), None);
    stack.push(1);
    stack.push(2);
    stack.push(3);
    assert_eq!(stack.pop(), Some(3));
    stack.push(4);
    assert_eq!(stack.pop(), Some(4));
    assert_eq!(stack.pop(), Some(2));
    assert_eq!(stack.pop(), Some(1));
    assert_eq!(stack.pop(), None);

    let mut other: TreiberStack<u8> = TreiberStack::default();
    assert_eq!(other.pop(), None);
}

#[test]
fn fnv1a_known_digests() {
    assert_eq!(fnv1a(b""), 0xcbf29ce484222325);
    assert_eq!(fnv1a(b"a"), 0xaf63dc4c8601ec8c);
    assert_eq!(fnv1a(b"foobar"), 0x85944171f73967e8);
}

#[test]
fn flat_map_rejects_reserved_keys() {
    let mut map = FlatLockFreeMap::new(8);
    assert!(!map.insert(0, 5));
    assert!(!map.insert(usize::MAX, 5));
    assert_eq!(map.get(0), None);
    assert_eq!(map.get(usize::MAX), None);
    assert!(!map.remove(0));
    assert!(!map.remove(usize::MAX));
}

#[test]
fn flat_map_updates_existing_key() {
    let mut map = FlatLockFreeMap::new(8);
    assert!(map.insert(5, 1));
    assert_eq!(map.get(5), Some(1));
    assert!(map.insert(5, 2));
    assert_eq!(map.get(5), Some(2));
    assert_eq!(map.get(6), None);
}

#[test]
fn flat_map_full_table() {
    let mut map = FlatLockFreeMap::new(2);
    assert!(map.insert(1, 10));
    assert!(map.insert(2, 20));
    assert!(!map.insert(3, 30));
    assert_eq!(map.get(3), None);
    // An existing key can still be updated in a full table.
    assert!(map.insert(1, 11));
    assert_eq!(map.get(1), Some(11));
    assert_eq!(map.get(2), Some(20));
}

#[test]
fn flat_map_remove_then_get() {
    let mut map = FlatLockFreeMap::new(16);
    assert!(map.insert(7, 70));
    assert!(map.remove(7));
    assert_eq!(map.get(7), None);
    assert!(!map.remove(7));
}

#[test]
fn flat_map_reuses_tombstones() {
    let mut map = FlatLockFreeMap::new(1);
    assert!(map.insert(1, 10));
    assert!(!map.insert(2, 20));
    assert!(map.remove(1));
    assert!(map.insert(2, 20));
    assert_eq!(map.get(2), Some(20));
    assert_eq!(map.get(1), None);
}

#[test]
fn flat_map_reuses_tombstones_after_removes() {
    let mut map = FlatLockFreeMap::new(2);
    assert!(map.insert(1, 10));
    assert!(map.insert(3, 30));
    assert!(map.remove(1));
    assert_eq!(map.get(3), Some(30));
    assert!(map.insert(3, 31));
    assert_eq!(map.get(3), Some(31));
    assert!(map.remove(3));
    assert!(!map.remove(3));
    assert!(map.insert(5, 50));
    assert!(map.insert(6, 60));
    assert!(!map.insert(7, 70));
    assert_eq!(map.get(5), Some(50));
    assert_eq!(map.get(6), Some(60));
}

#[test]
fn flat_map_reinsert_after_remove_keeps_one_copy() {
    // Keys 1 and 3 share a probe sequence in a two-cell map. Re-inserting 3
    // updates its own cell rather than taking the tombstone left by 1, so
    // removing 3 afterwards leaves it absent.
    let mut map = FlatLockFreeMap::new(2);
    assert!(map.insert(1, 10));
    assert!(map.insert(3, 30));
    assert!(map.remove(1));
    assert!(map.insert(3, 31));
    assert!(map.remove(3));
    assert_eq!(map.get(3), None);
    assert_eq!(map.get(1), None);
    assert!(!map.remove(3));
}

#[test]
fn flat_map_hashes_in_native_byte_order() {
    let map = FlatLockFreeMap::new(4);
    assert_eq!(map.is_little_endian(), 1usize.to_ne_bytes()[0] == 1);
}

#[test]
fn ticket_lock_try_lock_only_when_idle() {
    let mut lock = TicketLock::default();
    let guard = lock.try_lock().expect("idle lock");
    assert!(lock.try_lock().is_none());
    lock.unlock(guard);
    let guard = lock.try_lock().expect("idle again");
    lock.unlock(guard);
}

#[test]
fn ticket_lock_serves_tickets_in_order() {
    let mut lock = TicketLock::new();
    let first = lock.lock();
    let second = lock.take_ticket();
    let third = lock.take_ticket();
    assert_eq!((second.number(), third.number()), (1, 2));
    let second = lock.poll(second).expect_err("second ticket waits");
    let third = lock.poll(third).expect_err("third ticket waits");

    lock.unlock(first);
    let second_guard = lock.poll(second).expect("second ticket admitted");
    let third = lock.poll(third).expect_err("third ticket still waits");
    assert!(lock.try_lock().is_none());

    lock.unlock(second_guard);
    let third_guard = lock.poll(third).expect("third ticket admitted");
    lock.unlock(third_guard);
    assert!(lock.try_lock().is_some());
}

#[test]
fn object_pool_makes_objects_when_empty() {
    let mut pool = ObjectPool::new(2, || 7);
    let object = pool.take();
    assert_eq!(*object, 7);
    assert_eq!(object.into_inner(), 7);
}

#[test]
fn object_pool_reuses_oldest_returned_object() {
    let mut pool = ObjectPool::new(2, || 0);
    let mut a = pool.take();
    let mut b = pool.take();
    let mut c = pool.take();
    *a.get_mut() = 1;
    *b.get_mut() = 2;
    *c.get_mut() = 3;
    pool.recycle(a);
    pool.recycle(b);
    // The pool keeps two idle objects; the third is dropped.
    pool.recycle(c);
    assert_eq!(*pool.take().get(), 1);
    assert_eq!(*pool.take().get(), 2);
    assert_eq!(*pool.take().get(), 0);
}

#[test]
fn cache_padded_round_trip() {
    let mut padded = CachePadded::new(5);
    assert_eq!(*padded, 5);
    assert_eq!(*padded.get(), 5);
    assert_eq!(padded.replace(6), 5);
    assert_eq!(padded.value, 6);
    assert_eq!(padded.into_inner(), 6);
}

#[test]
fn worker_runs_jobs_then_drains_after_shutdown() {
    let mut jobs = ArrayQueue::new(8);
    for id in 0..3u32 {
        assert!(jobs.push(id).is_ok());
    }
    let mut ran = Vec::new();
    let mut active_reads = vec![true, true, false];
    let mut state = worker_start();
    let mut popped = None;
    loop {
        let observed = match state {
            WorkerState::CheckActive => active_reads.remove(0),
            WorkerState::Poll | WorkerState::Drain => {
                popped = jobs.pop();
                popped.is_some()
            }
            WorkerState::Done => break,
        };
        let (next, action) = worker_step(state, observed);
        match action {
            WorkerAction::RunJob => ran.push(popped.take().expect("job popped")),
            WorkerAction::Exit => {
                state = next;
                break;
            }
            WorkerAction::Spin | WorkerAction::Continue => {}
        }
        if state == WorkerState::CheckActive && next == WorkerState::Poll {
            // A job submitted while the pool is active.
            let _ = jobs.push(10 + ran.len() as u32);
        }
        state = next;
    }
    assert_eq!(state, WorkerState::Done);
    assert!(jobs.pop().is_none());
    assert_eq!(ran.len(), 5);
    assert_eq!(&ran[..3], &[0, 1, 2]);
}

#[test]
fn worker_transitions() {
    assert_eq!(worker_step(WorkerState::CheckActive, true), (WorkerState::Poll, WorkerAction::Continue));
    assert_eq!(worker_step(WorkerState::CheckActive, false), (WorkerState::Drain, WorkerAction::Continue));
    assert_eq!(worker_step(WorkerState::Poll, true), (WorkerState::CheckActive, WorkerAction::RunJob));
    assert_eq!(worker_step(WorkerState::Poll, false), (WorkerState::CheckActive, WorkerAction::Spin));
    assert_eq!(worker_step(WorkerState::Drain, true), (WorkerState::Drain, WorkerAction::RunJob));
    assert_eq!(worker_step(WorkerState::Drain, false), (WorkerState::Done, WorkerAction::Exit));
    assert_eq!(worker_step(WorkerState::Done, true), (WorkerState::Done, WorkerAction::Exit));
}

#[test]
fn power_of_two_capacities() {
    assert!(!is_power_of_two(0));
    assert!(is_power_of_two(1));
    assert!(is_power_of_two(2));
    assert!(!is_power_of_two(3));
    assert!(is_power_of_two(4096));
    assert!(!is_power_of_two(4095));
    assert!(!is_power_of_two(usize::MAX));
    assert!(is_power_of_two(1 << (usize::BITS - 1)));
}


#[test]
fn slot_decisions() {
    assert_eq!(slot_decision(5, 5), SlotDecision::Claim);
    assert_eq!(slot_decision(4, 5), SlotDecision::Stop);
    assert_eq!(slot_decision(6, 5), SlotDecision::Retry);
    assert_eq!(slot_decision(0, usize::MAX), SlotDecision::Retry);
    assert_eq!(slot_decision(usize::MAX, 0), SlotDecision::Stop);
    assert_eq!(slot_decision(usize::MAX / 2, 0), SlotDecision::Retry);
    assert_eq!(slot_decision(usize::MAX / 2 + 1, 0), SlotDecision::Stop);
}

#[test]
fn treiber_stack_clear_empties_a_deep_stack() {
    let mut stack = TreiberStack::new();
    for i in 0..200_000u32 {
        stack.push(i);
    }
    stack.clear();
    assert_eq!(stack.pop(), None);
    stack.push(7);
    assert_eq!(stack.pop(), Some(7));
}
