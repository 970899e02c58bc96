//! Operators that belong to the circuit itself.

pub mod inspect;

pub use inspect::Inspect;
