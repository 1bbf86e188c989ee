//! Register contexts and traps.

pub mod context;
pub mod trap;
