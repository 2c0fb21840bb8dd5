//! Bounded queues, a stack, a flat hash map and an object pool.

pub mod fifo;
pub mod flat_map;
pub mod object_pool;
pub mod queue;
pub mod ring;
pub mod spsc;
pub mod spsc_protocol;
pub mod treiber_stack;

pub use flat_map::FlatLockFreeMap;
pub use object_pool::{ObjectPool, PooledObject};
pub use queue::ArrayQueue;
pub use spsc::SpscQueue;
pub use treiber_stack::TreiberStack;
