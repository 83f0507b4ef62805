//! Small, stateless text and number utilities with machine-checked contracts:
//! a fixed-width progress bar written into a caller's buffer, rounding of
//! single-precision numbers to whole values, and a substring filter.

pub mod binary32;
pub mod encoding;
pub mod filter;
pub mod progress;
pub mod rounding;
pub mod search;
