//! Aevum: bounded queues, a stack, a flat hash map, an object pool and a
//! ticket lock, each specified against a mathematical model and proved
//! correct by Verus.

pub mod collections;
pub mod prelude;
pub mod sync;

pub use crate::collections::flat_map::FlatLockFreeMap;
pub use crate::collections::object_pool::ObjectPool;
pub use crate::collections::queue::ArrayQueue;
pub use crate::collections::spsc::SpscQueue;
pub use crate::collections::treiber_stack::TreiberStack;
pub use crate::sync::cache_pad::CachePadded;
pub use crate::sync::ticket_lock::{Ticket, TicketLock, TicketLockGuard};
