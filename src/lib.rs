//! Reconstruction and aggregation of a personal time-tracking log.
//!
//! The log is an append-only list of tab-separated `Start` / `End` lines.
//! This crate parses and formats those lines, rebuilds activity intervals
//! from the tail of the log, splits intervals at local midnight, collapses
//! them into daily totals and merges them into attendance ranges.

pub mod timestamp;
pub mod entry;
pub mod interval;
pub mod reconstruct;
pub mod groupings;
pub mod activity_range;
pub mod cli;
pub mod config;
pub mod format_string;
pub mod printable;
pub mod trackable;
pub mod session;
pub mod duration_text;
