//! Command-line helpers.

pub mod arg;
