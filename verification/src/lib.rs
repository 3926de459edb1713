//! # Swifer
//!
//! A garbage collection library: a fixed-capacity region for values of
//! unequal size, and memories built on it that a language runtime can use
//! through one uniform interface.

pub mod heap;
pub mod gc;
