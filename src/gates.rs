//! Constraint gates.
pub mod arithmetic;
