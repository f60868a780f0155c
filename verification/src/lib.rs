//! A fixed-capacity reservoir sample over an unbounded stream of
//! `(step, payload)` records, with deferred commits into a separately
//! readable view.

pub mod control;
pub mod laws;
pub mod merge;
pub mod reservoir;

