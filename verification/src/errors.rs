//! Why a source text does not compile.

use vstd::prelude::*;
use crate::sexpr::ParseError;

verus! {

/// Why the code generator would stop on an expression.
pub enum ScopeFault {
    /// A variable read or set where no binding is in scope.
    Unbound(Seq<char>),
    /// A name bound twice in one `let`.
    DuplicateBinding,
    /// A `break` that is in no `loop`.
    BreakOutsideLoop,
}

/// Why the code generator refuses an expression; each variant's message is the
/// one the command-line driver reports.
#[derive(Debug)]
pub enum CompileError {
    /// `Unbound variable identifier <name>`.
    UnboundVariable(String),
    /// `Duplicate binding`.
    DuplicateBinding,
    /// `break outside of loop`.
    BreakOutsideLoop,
}

/// The scope fault that a compile error reports.
pub open spec fn fault_view(err: CompileError) -> ScopeFault {
    match err {
        CompileError::UnboundVariable(x) => ScopeFault::Unbound(x@),
        CompileError::DuplicateBinding => ScopeFault::DuplicateBinding,
        CompileError::BreakOutsideLoop => ScopeFault::BreakOutsideLoop,
    }
}

/// Why a source text does not compile.
#[derive(Debug)]
pub enum SnekError {
    /// The text is not an s-expression; the error of `sexp::parse`.
    Sexp(Box<sexp::Error>),
    /// The s-expression is not an expression of the language.
    Parse(ParseError),
    /// The expression reads or sets an unbound variable, binds a name twice in
    /// one `let`, or breaks outside a loop.
    Scope(CompileError),
    /// The program needs more labels or stack slots than the code generator's
    /// 32-bit counters and offsets can number.
    TooLarge,
}

/// A [`SnekError`] with the outside error left out.
pub enum ProgramFault {
    Sexp,
    Parse(ParseError),
    Scope(ScopeFault),
    TooLarge,
}

/// The fault that an error of the library reports, as a value of the model.
pub open spec fn error_view(err: SnekError) -> ProgramFault {
    match err {
        SnekError::Sexp(_) => ProgramFault::Sexp,
        SnekError::Parse(k) => ProgramFault::Parse(k),
        SnekError::Scope(c) => ProgramFault::Scope(fault_view(c)),
        SnekError::TooLarge => ProgramFault::TooLarge,
    }
}

} // verus!
