//! Boa: 32-bit integers, `add1`, `sub1`, `+`, `-`, `*` and `let`, compiled
//! without run-time checks.

pub mod ast;
pub mod parse;
pub mod compile;
pub mod program;
pub mod laws;
pub mod machine;
pub mod forms;
