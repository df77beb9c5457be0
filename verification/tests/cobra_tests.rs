use snek::cobra::ast::{BinOp, Expr, UnOp};
use snek::cobra::compile::{compile_expr, count_labels, new_label, stack_fits, stack_offset, SI_MAX, SI_MIN};
use snek::cobra::parse::{check_syntax, is_reserved, parse_expr};
use snek::cobra::program::compile_program;
use snek::errors::{CompileError, SnekError};
use snek::sexpr::{ParseError, SExp};

fn code_of(src: &str) -> String {
    let full = compile_program(src).expect("compiles");
    let prefix = "section .text\nextern _snek_error\nglobal our_code_starts_here\nour_code_starts_here:\n  push rbp\n  mov rbp, rsp\n  sub rsp, 800\n  ";
    let suffix = "\n  mov rsp, rbp\n  pop rbp\n  ret\n";
    assert!(full.starts_with(prefix));
    assert!(full.ends_with(suffix));
    full[prefix.len()..full.len() - suffix.len()].to_string()
}

#[test]
fn number_is_tagged() {
    assert_eq!(
        compile_program("5").unwrap(),
        "section .text\nextern _snek_error\nglobal our_code_starts_here\nour_code_starts_here:\n  push rbp\n  mov rbp, rsp\n  sub rsp, 800\n  mov rax, 10\n  mov rsp, rbp\n  pop rbp\n  ret\n"
    );
    assert_eq!(code_of("0"), "mov rax, 0");
    assert_eq!(code_of("-3"), "mov rax, -6");
}

#[test]
fn booleans_and_input() {
    assert_eq!(code_of("true"), "mov rax, 3");
    assert_eq!(code_of("false"), "mov rax, 1");
    assert_eq!(code_of("input"), "mov rax, rdi");
}

#[test]
fn add1_checks_type_and_overflow() {
    assert_eq!(
        code_of("(add1 5)"),
        "mov rax, 10\ntest rax, 1\njz num_ok_0\nmov rdi, 1\ncall _snek_error\nnum_ok_0:\nadd rax, 2\njno overflow_ok_1\nmov rdi, 2\ncall _snek_error\noverflow_ok_1:"
    );
    assert_eq!(
        code_of("(negate 1)"),
        "mov rax, 2\ntest rax, 1\njz num_ok_0\nmov rdi, 1\ncall _snek_error\nnum_ok_0:\nneg rax\njno overflow_ok_1\nmov rdi, 2\ncall _snek_error\noverflow_ok_1:"
    );
}

#[test]
fn let_and_plus() {
    assert_eq!(
        code_of("(let ((x 5)) (+ x 1))"),
        "mov rax, 10\nmov [rbp - 16], rax\nmov rax, [rbp - 16]\nmov [rbp - 24], rax\nmov rax, 2\ntest rax, 1\njz num_ok_0\nmov rdi, 1\ncall _snek_error\nnum_ok_0:\nmov rbx, [rbp - 24]\ntest rbx, 1\njz num_ok_1\nmov rdi, 1\ncall _snek_error\nnum_ok_1:\nadd rax, rbx\njno overflow_ok_2\nmov rdi, 2\ncall _snek_error\noverflow_ok_2:"
    );
}

#[test]
fn times_untags_one_operand() {
    assert_eq!(
        code_of("(* 2 3)"),
        "mov rax, 4\nmov [rbp - 16], rax\nmov rax, 6\ntest rax, 1\njz num_ok_0\nmov rdi, 1\ncall _snek_error\nnum_ok_0:\nsar rax, 1\nmov rbx, [rbp - 16]\ntest rbx, 1\njz num_ok_1\nmov rdi, 1\ncall _snek_error\nnum_ok_1:\nimul rax, rbx\njno overflow_ok_2\nmov rdi, 2\ncall _snek_error\noverflow_ok_2:"
    );
}

#[test]
fn comparison_and_equality() {
    assert_eq!(
        code_of("(< 1 2)"),
        "mov rax, 2\nmov [rbp - 16], rax\nmov rax, 4\ntest rax, 1\njz num_ok_0\nmov rdi, 1\ncall _snek_error\nnum_ok_0:\nmov rbx, [rbp - 16]\ntest rbx, 1\njz num_ok_1\nmov rdi, 1\ncall _snek_error\nnum_ok_1:\ncmp rbx, rax\njl bool_true_2\nmov rax, 1\njmp bool_done_3\nbool_true_2:\nmov rax, 3\nbool_done_3:"
    );
    assert_eq!(
        code_of("(= 1 2)"),
        "mov rax, 2\nmov [rbp - 16], rax\nmov rax, 4\nmov rbx, [rbp - 16]\nmov rcx, rbx\nxor rcx, rax\ntest rcx, 1\njz eq_type_ok_0\nmov rdi, 1\ncall _snek_error\neq_type_ok_0:\ncmp rbx, rax\nje bool_true_1\nmov rax, 1\njmp bool_done_2\nbool_true_1:\nmov rax, 3\nbool_done_2:"
    );
}

#[test]
fn type_predicates() {
    assert_eq!(
        code_of("(isnum 5)"),
        "mov rax, 10\ntest rax, 1\njz isnum_true_0\nmov rax, 1\njmp isnum_done_1\nisnum_true_0:\nmov rax, 3\nisnum_done_1:"
    );
    assert_eq!(
        code_of("(isbool 5)"),
        "mov rax, 10\ntest rax, 1\njnz isbool_true_0\nmov rax, 1\njmp isbool_done_1\nisbool_true_0:\nmov rax, 3\nisbool_done_1:"
    );
}

#[test]
fn if_block_loop_break_set() {
    assert_eq!(
        code_of("(if true 1 2)"),
        "mov rax, 3\ncmp rax, 1\nje if_else_0\nmov rax, 2\njmp if_done_1\nif_else_0:\nmov rax, 4\nif_done_1:"
    );
    assert_eq!(code_of("(block 1 2)"), "mov rax, 2\nmov rax, 4");
    assert_eq!(
        code_of("(loop (break 1))"),
        "loop_start_0:\nmov rax, 2\njmp loop_end_1\njmp loop_start_0\nloop_end_1:"
    );
    assert_eq!(
        code_of("(let ((x 1)) (set! x 2))"),
        "mov rax, 2\nmov [rbp - 16], rax\nmov rax, 4\nmov [rbp - 16], rax"
    );
}

#[test]
fn later_bindings_see_earlier_ones() {
    assert_eq!(
        code_of("(let ((x 1) (y x)) y)"),
        "mov rax, 2\nmov [rbp - 16], rax\nmov rax, [rbp - 16]\nmov [rbp - 24], rax\nmov rax, [rbp - 24]"
    );
}

#[test]
fn scope_errors() {
    assert!(matches!(compile_program("y"), Err(SnekError::Scope(CompileError::UnboundVariable(ref n))) if n == "y"));
    assert!(matches!(compile_program("(set! z 1)"), Err(SnekError::Scope(CompileError::UnboundVariable(ref n))) if n == "z"));
    assert!(matches!(
        compile_program("(let ((x 1) (x 2)) x)"),
        Err(SnekError::Scope(CompileError::DuplicateBinding))
    ));
    assert!(matches!(compile_program("(break 1)"), Err(SnekError::Scope(CompileError::BreakOutsideLoop))));
    // the first fault in code order wins
    assert!(matches!(compile_program("(+ a (break 1))"), Err(SnekError::Scope(CompileError::UnboundVariable(_)))));
    // a let's scope ends with its body
    assert!(matches!(compile_program("(block (let ((x 1)) x) x)"), Err(SnekError::Scope(CompileError::UnboundVariable(_)))));
}

#[test]
fn syntax_errors() {
    assert!(matches!(compile_program("(add1)"), Err(SnekError::Parse(ParseError::Invalid))));
    assert!(matches!(compile_program("1.5"), Err(SnekError::Parse(ParseError::Invalid))));
    assert!(matches!(compile_program("(let () 1)"), Err(SnekError::Parse(ParseError::Invalid))));
    assert!(matches!(compile_program("(let ((add1 1)) 2)"), Err(SnekError::Parse(ParseError::Invalid))));
    assert!(matches!(compile_program("(block)"), Err(SnekError::Parse(ParseError::Invalid))));
    assert!(matches!(compile_program("let"), Err(SnekError::Parse(ParseError::Invalid))));
    assert!(matches!(compile_program("(set! if 1)"), Err(SnekError::Parse(ParseError::Invalid))));
    assert!(matches!(compile_program("4294967296"), Err(SnekError::Parse(ParseError::IntOutOfRange))));
    assert!(matches!(compile_program("(+ 1 (foo bar))"), Err(SnekError::Parse(ParseError::Invalid))));
    // the first error depth first wins
    assert!(matches!(compile_program("(+ 9999999999 (add1))"), Err(SnekError::Parse(ParseError::IntOutOfRange))));
}

#[test]
fn sexp_errors() {
    assert!(matches!(compile_program("(aaaa"), Err(SnekError::Sexp(_))));
    assert!(matches!(compile_program("1 2"), Err(SnekError::Sexp(_))));
}

#[test]
fn reserved_words() {
    assert!(is_reserved("set!"));
    assert!(is_reserved("isbool"));
    assert!(!is_reserved("x"));
    assert!(!is_reserved("lett"));
}

#[test]
fn labels_and_offsets() {
    let mut counter = 0;
    assert_eq!(new_label(&mut counter, "loop_end"), "loop_end_0");
    assert_eq!(new_label(&mut counter, "loop_end"), "loop_end_1");
    assert_eq!(counter, 2);
    assert_eq!(stack_offset(2), 16);
    assert_eq!(stack_offset(-1), -8);
}

#[test]
fn parse_and_compile_by_parts() {
    let tree = SExp::List(vec![
        SExp::Str("sub1".to_string()),
        SExp::List(vec![SExp::Str("+".to_string()), SExp::Int(1), SExp::Str("x".to_string())]),
    ]);
    assert!(check_syntax(&tree).is_ok());
    let e = parse_expr(&tree);
    assert!(matches!(e, Expr::UnOp(UnOp::Sub1, ref a) if matches!(**a, Expr::BinOp(BinOp::Plus, _, _))));
    let mut env = im::HashMap::new();
    env.insert("x".to_string(), 40);
    let mut counter = 7;
    let code = compile_expr(&e, 5, &env, &mut counter, None);
    assert_eq!(counter, 12);
    assert_eq!(
        code,
        "mov rax, 2\nmov [rbp - 40], rax\nmov rax, [rbp - 40]\ntest rax, 1\njz num_ok_7\nmov rdi, 1\ncall _snek_error\nnum_ok_7:\nmov rbx, [rbp - 40]\ntest rbx, 1\njz num_ok_8\nmov rdi, 1\ncall _snek_error\nnum_ok_8:\nadd rax, rbx\njno overflow_ok_9\nmov rdi, 2\ncall _snek_error\noverflow_ok_9:\ntest rax, 1\njz num_ok_10\nmov rdi, 1\ncall _snek_error\nnum_ok_10:\nsub rax, 2\njno overflow_ok_11\nmov rdi, 2\ncall _snek_error\noverflow_ok_11:"
    );
    let loop_body = compile_expr(&Expr::Break(Box::new(Expr::Bool(false))), 2, &env, &mut counter, Some("done_3"));
    assert_eq!(loop_body, "mov rax, 1\njmp done_3");
}

#[test]
fn label_count_matches_counter() {
    let src = SExp::List(vec![
        SExp::Str("loop".to_string()),
        SExp::List(vec![
            SExp::Str("if".to_string()),
            SExp::List(vec![SExp::Str("<".to_string()), SExp::Int(1), SExp::Int(2)]),
            SExp::List(vec![SExp::Str("break".to_string()), SExp::Str("true".to_string())]),
            SExp::List(vec![SExp::Str("isbool".to_string()), SExp::Int(3)]),
        ]),
    ]);
    let e = parse_expr(&src);
    let mut counter = 100;
    let env = im::HashMap::new();
    let _ = compile_expr(&e, 2, &env, &mut counter, None);
    assert_eq!(count_labels(&e), 10);
    assert_eq!(counter, 110);
}

#[test]
fn stack_fits_bounds() {
    let plus = Expr::BinOp(BinOp::Plus, Box::new(Expr::Number(1)), Box::new(Expr::Number(2)));
    assert!(stack_fits(&plus, SI_MAX));
    assert!(!stack_fits(&plus, SI_MAX + 1));
    assert!(stack_fits(&plus, SI_MIN));
    assert!(!stack_fits(&plus, SI_MIN - 1));
    assert!(stack_fits(&Expr::Number(1), i32::MIN));
    let nested = Expr::BinOp(BinOp::Plus, Box::new(Expr::Number(1)), Box::new(plus));
    assert!(!stack_fits(&nested, SI_MAX));
    let mut counter = 0;
    let env = im::HashMap::new();
    let plus = Expr::BinOp(BinOp::Minus, Box::new(Expr::Number(1)), Box::new(Expr::Number(2)));
    let code = compile_expr(&plus, SI_MAX, &env, &mut counter, None);
    assert!(code.contains("mov [rbp - 2147483640], rax"));
}
