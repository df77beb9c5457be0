//! A compiler for the Boa and Cobra teaching languages (s-expression syntax,
//! x86-64 assembly output) together with the pure parts of its runtime.

pub mod text;

pub mod sexpr;
pub mod env;
pub mod cobra;
pub mod runtime;
pub mod boa;
pub mod errors;
