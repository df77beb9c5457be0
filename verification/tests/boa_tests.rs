use snek::boa::ast::{Expr, Op1};
use snek::boa::compile::{compile_to_instrs, stack_offset};
use snek::boa::parse::is_reserved;
use snek::boa::program::compile_program;
use snek::errors::{CompileError, SnekError};
use snek::sexpr::ParseError;

fn code_of(src: &str) -> String {
    let full = compile_program(src).expect("compiles");
    let prefix = "section .text\nglobal our_code_starts_here\nour_code_starts_here:\n  ";
    let suffix = "\n  ret\n";
    assert!(full.starts_with(prefix));
    assert!(full.ends_with(suffix));
    full[prefix.len()..full.len() - suffix.len()].to_string()
}

#[test]
fn boa_numbers_are_untagged() {
    assert_eq!(
        compile_program("37").unwrap(),
        "section .text\nglobal our_code_starts_here\nour_code_starts_here:\n  mov rax, 37\n  ret\n"
    );
    assert_eq!(code_of("-5"), "mov rax, -5");
}

#[test]
fn boa_arithmetic() {
    assert_eq!(code_of("(add1 (sub1 4))"), "mov rax, 4\nsub rax, 1\nadd rax, 1");
    assert_eq!(code_of("(+ 1 2)"), "mov rax, 1\nmov [rsp - 16], rax\nmov rax, 2\nadd rax, [rsp - 16]");
    assert_eq!(
        code_of("(- 7 2)"),
        "mov rax, 7\nmov [rsp - 16], rax\nmov rax, 2\nmov rbx, [rsp - 16]\nsub rbx, rax\nmov rax, rbx"
    );
    assert_eq!(code_of("(* 3 4)"), "mov rax, 3\nmov [rsp - 16], rax\nmov rax, 4\nimul rax, [rsp - 16]");
}

#[test]
fn boa_let() {
    assert_eq!(
        code_of("(let ((x 5) (y (+ x 1))) (add1 y))"),
        "mov rax, 5\nmov [rsp - 16], rax\nmov rax, [rsp - 16]\nmov [rsp - 24], rax\nmov rax, 1\nadd rax, [rsp - 24]\nmov [rsp - 24], rax\nmov rax, [rsp - 24]\nadd rax, 1"
    );
}

#[test]
fn boa_errors() {
    assert!(matches!(compile_program("x"), Err(SnekError::Scope(CompileError::UnboundVariable(ref n))) if n == "x"));
    assert!(matches!(compile_program("(let ((a 1) (a 2)) a)"), Err(SnekError::Scope(CompileError::DuplicateBinding))));
    assert!(matches!(compile_program("(let ((let 1)) 2)"), Err(SnekError::Parse(ParseError::Invalid))));
    assert!(matches!(compile_program("true"), Err(SnekError::Scope(CompileError::UnboundVariable(_)))));
    assert!(matches!(compile_program("(negate 1)"), Err(SnekError::Parse(ParseError::Invalid))));
    assert!(matches!(compile_program("3000000000"), Err(SnekError::Parse(ParseError::IntOutOfRange))));
    assert!(matches!(compile_program("(+ 1"), Err(SnekError::Sexp(_))));
    assert!(matches!(compile_program("add1"), Err(SnekError::Parse(ParseError::Invalid))));
}

#[test]
fn boa_reserved_and_offsets() {
    assert!(is_reserved("let"));
    assert!(is_reserved("sub1"));
    assert!(!is_reserved("negate"));
    assert_eq!(stack_offset(3), 24);
}

#[test]
fn boa_compile_with_environment() {
    let mut env = im::HashMap::new();
    env.insert("z".to_string(), 8);
    let e = Expr::UnOp(Op1::Add1, Box::new(Expr::Id("z".to_string())));
    assert_eq!(compile_to_instrs(&e, 2, &env), "mov rax, [rsp - 8]\nadd rax, 1");
}
