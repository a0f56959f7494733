//! Scanner pair processing: the verified core.
//!
//! Two A3 scans (an outer and an inner sheet) are paired by the six-digit
//! counter in their file names, split into four A4 halves, put into reading
//! order, and named after the student application number read from page 1.

pub mod error;
pub mod config;
pub mod text;
pub mod utils;
pub mod image;
pub mod threshold;
pub mod ocr;
pub mod processor;
pub mod records;
pub mod pairing;
