//! Building blocks for distributed and concurrent programs: logical clocks
//! that order events by causality, and Peterson's lock for two threads.

pub mod order;
pub mod sync;
