//! Cobra: Boa with booleans, `input`, conditionals, blocks, loops, `break`,
//! `set!`, and tagged values checked at run time.

pub mod ast;
pub mod parse;
pub mod compile;
pub mod program;
pub mod laws;
pub mod machine;
pub mod semantics;
pub mod run;
pub mod operators;
pub mod correct;
pub mod labels;
pub mod jumps;
pub mod forms;
