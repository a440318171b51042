//! Textual forms of what the compiler holds.
pub mod lextest;
pub mod pretty;
pub mod round_trip;
