//! Timer bookkeeping and wake-up decisions of an async reactor.
//!
//! - `timer_set`: timers ordered by deadline and id, with the operations of an ordered map.
//! - `op_queue`: timer operations and the bounded queue that holds them.
//! - `reactor`: applying queued operations, firing due timers, and the delay until the next.
//! - `io_event`: the flag that decides when an I/O event must be signalled.
//! - `async_handle`: ownership of a registered I/O handle.

pub mod async_handle;
pub mod io_event;
pub mod op_queue;
pub mod reactor;
pub mod timer_set;
