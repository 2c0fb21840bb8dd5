//! Synchronization primitives and the decisions of a thread-pool worker.

pub mod cache_pad;
pub mod thread_pool;
pub mod ticket_lock;

pub use cache_pad::CachePadded;
pub use thread_pool::{worker_start, worker_step, WorkerAction, WorkerState};
pub use ticket_lock::{Ticket, TicketLock, TicketLockGuard};
