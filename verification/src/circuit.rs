//! The circuit: the operators that run at each clock tick.

pub mod operator;
pub mod operator_traits;
pub mod runtime;
pub mod schedule;
