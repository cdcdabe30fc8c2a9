//! A MapReduce execution core: a coordinator-side task-lifecycle state
//! machine with lease-based failure recovery, a deterministic partitioner
//! routing intermediate key/value pairs to reduce buckets, and the pure
//! map/reduce application functions, all with verified contracts.
//!
//! Network transport, file I/O and clock reading live outside this crate;
//! the functions here work on plain values (task state, timestamps as
//! integers, strings) and say in their contracts exactly how each request,
//! completion report and lease expiry changes the task store.

pub mod apps;
pub mod coordinator;
pub mod text;
pub mod util;
pub mod worker;
