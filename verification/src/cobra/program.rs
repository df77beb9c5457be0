//! Whole Cobra programs: from source text to an assembly file.

use vstd::prelude::*;
use crate::sexpr::{SExp, SExpV, sexp_parse, parse_sexp};
use crate::env::{env_new, env_slots};
use crate::cobra::parse::{parse_spec, check_syntax, parse_expr};
use crate::errors::{SnekError, ProgramFault, error_view};
use crate::cobra::compile::{
    scope_fault, label_count, slots_fit, compile_spec, check_scopes, count_labels,
    stack_fits, compile_expr,
};

verus! {

/// The stack index of the first slot that the generated code uses.
pub const FIRST_SLOT: i32 = 2;

/// The assembly file around the code of the program's expression.
pub open spec fn program_text(code: Seq<char>) -> Seq<char> {
    "section .text\nextern _snek_error\nglobal our_code_starts_here\nour_code_starts_here:\n  push rbp\n  mov rbp, rsp\n  sub rsp, 800\n  "@
        + code + "\n  mov rsp, rbp\n  pop rbp\n  ret\n"@
}

/// What a tree compiles to: the assembly file, or why there is none. The
/// expression is read first; then it is compiled from stack slot
/// [`FIRST_SLOT`], with no variables and no loop around it, with labels
/// numbered from 0.
pub open spec fn program_spec(t: SExpV) -> Result<Seq<char>, ProgramFault> {
    match parse_spec(t) {
        Err(k) => Err(ProgramFault::Parse(k)),
        Ok(e) => match scope_fault(e, Set::empty(), false) {
            Some(f) => Err(ProgramFault::Scope(f)),
            None => if label_count(e) <= i32::MAX && slots_fit(e, FIRST_SLOT as int) {
                Ok(program_text(compile_spec(e, FIRST_SLOT as int, Map::empty(), 0, None).0))
            } else {
                Err(ProgramFault::TooLarge)
            },
        },
    }
}

/// Compiles a tree into an assembly file.
pub fn compile_tree(t: &SExp) -> (r: Result<String, SnekError>)
    ensures
        r is Ok <==> program_spec(t@) is Ok,
        r matches Ok(s) ==> (program_spec(t@) matches Ok(p) && p == s@),
        r is Err ==> program_spec(t@) is Err && program_spec(t@)->Err_0 == error_view(r->Err_0),
{
    if let Err(k) = check_syntax(t) {
        return Err(SnekError::Parse(k));
    }
    let expr = parse_expr(t);
    let env = env_new();
    proof {
        assert(env_slots(env).dom() =~= Set::empty());
        assert(env_slots(env) =~= Map::empty());
    }
    if let Err(c) = check_scopes(&expr, &env, false) {
        return Err(SnekError::Scope(c));
    }
    let labels = count_labels(&expr);
    if labels > i32::MAX as u64 || !stack_fits(&expr, FIRST_SLOT) {
        return Err(SnekError::TooLarge);
    }
    let mut counter: i32 = 0;
    let code = compile_expr(&expr, FIRST_SLOT, &env, &mut counter, None);
    let mut out = "section .text\nextern _snek_error\nglobal our_code_starts_here\nour_code_starts_here:\n  push rbp\n  mov rbp, rsp\n  sub rsp, 800\n  ".to_owned();
    out.append(code.as_str());
    out.append("\n  mov rsp, rbp\n  pop rbp\n  ret\n");
    Ok(out)
}

/// Compiles a Cobra source text into an assembly file.
pub fn compile_program(text: &str) -> (r: Result<String, SnekError>)
    ensures
        r matches Err(SnekError::Sexp(_)) <==> sexp_parse(text@) is None,
        r matches Ok(s) ==> (sexp_parse(text@) matches Some(t) && program_spec(t) matches Ok(p) && p == s@),
        (r is Err && !(r matches Err(SnekError::Sexp(_)))) ==> (sexp_parse(text@) matches Some(t) && program_spec(t) is Err
            && program_spec(t)->Err_0 == error_view(r->Err_0)),
{
    match parse_sexp(text) {
        Ok(t) => compile_tree(&t),
        Err(e) => Err(SnekError::Sexp(e)),
    }
}

} // verus!
