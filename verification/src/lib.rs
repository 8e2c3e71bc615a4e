//! A personal time-tracking log interpreter.
//!
//! The library reads an append-only, tab-delimited event log (clock-in/out,
//! task switches, renames, pauses) and reconstructs, per work day, a registry
//! of named tasks with accumulated durations plus the set of contiguous
//! on-the-clock intervals.

pub mod text;
pub mod timestamp;
pub mod timelog;
pub mod taskregistry;
pub mod fileread;
pub mod report;
