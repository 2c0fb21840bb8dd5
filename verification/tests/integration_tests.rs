use aevum::collections::{ArrayQueue, FlatLockFreeMap, ObjectPool, SpscQueue, TreiberStack};

#[test]
fn test_array_queue_mpmc() {
    let iters = 1000;
    let mut queue = ArrayQueue::new(4096);
    let mut counter = 0;

    // Four producers, each pushing `iters` ones.
    for _ in 0..4 {
        for _ in 0..iters {
            assert!(queue.push(1).is_ok());
        }
    }

    // Four consumers, each popping `iters` items.
    for _ in 0..4 {
        for _ in 0..iters {
            let val = queue.pop().expect("an item for every push");
            counter += val;
        }
    }

    assert_eq!(counter, 4 * iters);
    assert!(queue.pop().is_none());
}

#[test]
fn test_spsc_queue() {
    let iters = 1000;
    let mut queue = SpscQueue::new(1024);

    // The producer runs ahead by up to a full queue, the consumer follows.
    let mut next_pop = 0;
    for i in 0..iters {
        while queue.push(i).is_err() {
            assert_eq!(queue.pop(), Some(next_pop));
            next_pop += 1;
        }
    }
    while next_pop < iters {
        assert_eq!(queue.pop(), Some(next_pop));
        next_pop += 1;
    }
    assert_eq!(queue.pop(), None);
}

#[test]
fn test_treiber_stack_concurrent() {
    let iters = 1000;
    let mut stack = TreiberStack::new();

    // Four pushers.
    for _ in 0..4 {
        for i in 0..iters {
            stack.push(i);
        }
    }

    let mut total_popped = 0;
    while stack.pop().is_some() {
        total_popped += 1;
    }

    assert_eq!(total_popped, 4 * iters);
}

#[test]
fn test_flat_map_concurrent() {
    let iters = 1000;
    let mut map = FlatLockFreeMap::new(4096);

    // Four inserters with disjoint key ranges.
    for t in 0..4 {
        for i in 1..=iters {
            let key = t * 10000 + i;
            assert!(map.insert(key, key * 2));
        }
    }

    // Verify all inserts.
    for t in 0..4 {
        for i in 1..=iters {
            let key = t * 10000 + i;
            assert_eq!(map.get(key), Some(key * 2));
        }
    }
}

#[test]
fn test_object_pool_concurrent() {
    let iters = 1000;
    let mut pool = ObjectPool::new(1024, || 0);

    // Four users taking, changing and returning objects.
    for _ in 0..4 {
        for _ in 0..iters {
            let mut obj = pool.take();
            *obj.get_mut() += 1;
            pool.recycle(obj);
        }
    }

    // One object was made and reused for every take.
    let obj = pool.take();
    assert_eq!(*obj.get(), 4 * iters);
}
