//! The commonly used Aevum types.

pub use crate::collections::flat_map::FlatLockFreeMap;
pub use crate::collections::object_pool::{ObjectPool, PooledObject};
pub use crate::collections::queue::ArrayQueue;
pub use crate::collections::spsc::SpscQueue;
pub use crate::collections::treiber_stack::TreiberStack;
pub use crate::sync::cache_pad::CachePadded;
pub use crate::sync::ticket_lock::{Ticket, TicketLock, TicketLockGuard};
