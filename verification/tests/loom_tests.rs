use aevum::collections::{ArrayQueue, SpscQueue};
use aevum::sync::TicketLock;

#[test]
fn test_array_queue_loom() {
    // Minimal capacity, so that positions wrap around the ring at once.
    let mut queue = ArrayQueue::<usize>::new(2);

    let _ = queue.push(1);
    assert_eq!(queue.pop(), Some(1));

    let _ = queue.push(2);
    assert_eq!(queue.pop(), Some(2));
    assert_eq!(queue.pop(), None);
}

#[test]
fn test_spsc_queue_loom() {
    let mut queue = SpscQueue::<usize>::new(2);

    let _ = queue.push(1);
    let _ = queue.push(2);

    assert_eq!(queue.pop(), Some(1));
    assert_eq!(queue.pop(), Some(2));
}

#[test]
fn test_ticket_lock_loom() {
    let mut lock = TicketLock::new();

    let guard = lock.lock();
    lock.unlock(guard);

    let guard = lock.lock();
    lock.unlock(guard);

    assert!(lock.try_lock().is_some());
}
