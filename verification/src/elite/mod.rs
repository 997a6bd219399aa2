//! Isolated experiments: a generation-checked order pool and a bounded lock-free queue.
//! The deterministic production path does not depend on them.
pub mod lockfree_queue;
pub mod order_pool;
