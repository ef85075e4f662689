//! A visit-counting name tracker.
//!
//! The registry records, for each distinct name, how many times it has been
//! seen and when it was last seen, and serves three operations: record a
//! visit and report the prior state, list the top records by last-seen time
//! or by visit count, and clear every record.

pub mod model;
pub mod registry;
