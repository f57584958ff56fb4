//! Queue primitives for work-stealing schedulers and producer/consumer
//! pipelines, together with a sorted-vector map.
//!
//! Every queue is a state type whose operations take the state by exclusive
//! borrow and are specified against the sequence of queued values, and a
//! cloneable handle whose clones share one state behind a lock.

pub mod atomics;
pub mod bench;
pub mod chase_lev_deque;
pub mod flatmap;
pub mod judy;
pub mod model;
pub mod mpmc_bounded_queue;
pub mod ring;
pub mod spsc_lifo;
pub mod sync;
pub mod total_ord;
pub mod tsigas_zhang_queue;
pub mod work_queue;
