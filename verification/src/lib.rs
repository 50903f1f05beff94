//! Statistics over a time-indexed numeric series, with a canonical
//! fixed-point encoding and a tamper-evident commitment over the raw input.
//!
//! Values are carried as fixed-point integers scaled by `10^18`, so every
//! operator is exact integer arithmetic and bit-for-bit reproducible.
//! Floating-point data enters only as IEEE-754 bit patterns, which are
//! decoded to fixed-point by verified integer code.

pub mod commitment;
pub mod errors;
pub mod fixed;
pub mod records;
pub mod series;
pub mod wide;
