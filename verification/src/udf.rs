//! UDF volumes.

pub mod copy;
pub mod descriptor;
pub mod laws;
pub mod open;
pub mod tree;
pub mod walk;
