# aevum

Bounded queues, a stack, a flat hash map, an object pool and a ticket lock,
each specified against a mathematical model and verified with Verus.

Layout:

- `src/collections/ring.rs` — arithmetic of power-of-two rings with wrapping
  `usize` positions (masking equals the remainder; wrapping keeps the slot).
- `src/collections/fifo.rs` — the bounded FIFO model shared by the queues,
  with the conservation law for any run of pushes and pops.
- `src/collections/queue.rs` — `ArrayQueue`, the sequence-number ring buffer,
  and the slot decision its producers and consumers make.
- `src/collections/spsc.rs` — `SpscQueue`, the head/tail ring buffer.
- `src/collections/spsc_protocol.rs` — the producer and consumer steps of
  the SPSC queue interleaved, with the invariant that makes them safe.
- `src/collections/treiber_stack.rs` — `TreiberStack`, a linked LIFO stack.
- `src/collections/flat_map.rs` — `FlatLockFreeMap`, open addressing with
  linear probing, FNV-1a hashing and tombstones; the probing model and its
  laws.
- `src/collections/object_pool.rs` — `ObjectPool` over an `ArrayQueue`.
- `src/sync/ticket_lock.rs` — `TicketLock` with FIFO admission.
- `src/sync/thread_pool.rs` — the decisions of a thread-pool worker.
- `src/sync/cache_pad.rs` — `CachePadded`.
- `app/lib.rs` — `LockFreeThreadPool`: worker threads and the shared flag,
  driven by the verified worker decisions.

Every data structure here is owned by one party at a time (`&mut self`);
sharing across threads is left to the code around the library.
