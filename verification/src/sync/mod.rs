//! Locks, events, semaphores and wait queues.
//!
//! Nothing here blocks: where a caller would have to wait, the function says so and the caller
//! comes back later.

pub mod channel;
pub mod event;
pub mod futex;
pub mod laws;
pub mod lock;
pub mod semaphore;
pub mod waitqueue;
