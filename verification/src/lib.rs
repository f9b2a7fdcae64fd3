//! A small single-threaded async runtime, written as verified state machines.
//!
//! Each module holds the decisions of one part of the runtime: the bounded
//! channel, the timer queues, the task cells and their schedulers, and the
//! readiness logic of the socket futures.  Wakers are named by plain `u64`
//! identifiers and time is counted in ticks (`u64`), so that every decision is
//! a function from plain values to plain values; the surrounding executor
//! performs the wake-ups and the I/O.
use vstd::prelude::*;

pub mod channel;
pub mod sleep;
pub mod task;
pub mod runtime;
pub mod io;
pub mod timer;

verus! {

/// The outcome of one poll: a value, or "not yet".
pub enum Poll<T> {
    Ready(T),
    Pending,
}

} // verus!
