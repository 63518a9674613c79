//! Mutual exclusion from shared flags.

pub mod peterson;
