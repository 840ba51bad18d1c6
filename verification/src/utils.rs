//! Small helpers.

pub mod bitmasks;
