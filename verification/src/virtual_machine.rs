//! Execution: a machine with a circular tape of 256 byte cells runs a tree
//! of instructions, one step at a time.

pub mod laws;
pub mod machine;
pub mod vm;

pub use machine::{Machine, Session};
pub use vm::{Execution, VirtualMachine};
