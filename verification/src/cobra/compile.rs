//! Cobra's code generator: from [`Expr`] to x86-64 assembly text.
//!
//! Values are tagged: a number `n` is held as `2 * n` (lowest bit 0), `false`
//! as 1 and `true` as 3 (lowest bit 1). Arithmetic and comparisons check the
//! tags of their operands and call `_snek_error` with code 1 on a mismatch;
//! arithmetic calls it with code 2 on overflow.

use vstd::prelude::*;
use vstd::string::*;
use crate::text::{decimal, push_decimal};
use crate::errors::{ScopeFault, CompileError, fault_view};
use crate::env::{env_slots, env_get, env_insert, env_clone};
use crate::cobra::ast::{UnOp, BinOp, Expr, ExprV, expr_view, binds_view, exprs_view, lemma_binds_view, lemma_exprs_view};

verus! {

/// The run-time value of `true`.
pub const TRUE_VAL: i64 = 3;

/// The run-time value of `false`.
pub const FALSE_VAL: i64 = 1;

/// The run-time value of the number `n`: `n` shifted left by one bit.
pub open spec fn tag_number(n: int) -> int {
    2 * n
}

/// The run-time value of a boolean.
pub open spec fn tag_bool(b: bool) -> int {
    if b { TRUE_VAL as int } else { FALSE_VAL as int }
}

/// The label that [`new_label`] makes from a prefix and a counter value.
pub open spec fn label(prefix: Seq<char>, n: int) -> Seq<char> {
    prefix + "_"@ + decimal(n)
}

/// The byte offset below `rbp` of stack slot `si`.
pub open spec fn slot_offset(si: int) -> int {
    si * 8
}

/// The text of [`compile_check_num_rax`] at counter `c`.
pub open spec fn check_num_rax_text(c: int) -> Seq<char> {
    let ok = label("num_ok"@, c);
    "test rax, 1\njz "@ + ok + "\nmov rdi, 1\ncall _snek_error\n"@ + ok + ":"@
}

/// The text of [`compile_check_num_rbx`] at counter `c`.
pub open spec fn check_num_rbx_text(c: int) -> Seq<char> {
    let ok = label("num_ok"@, c);
    "test rbx, 1\njz "@ + ok + "\nmov rdi, 1\ncall _snek_error\n"@ + ok + ":"@
}

/// The text of [`compile_overflow_guard`] at counter `c`.
pub open spec fn overflow_guard_text(c: int) -> Seq<char> {
    let ok = label("overflow_ok"@, c);
    "jno "@ + ok + "\nmov rdi, 2\ncall _snek_error\n"@ + ok + ":"@
}

/// The text of [`compile_bool_result_from_jump`] at counter `c`: `rax` is set
/// to `true` where the jump is taken and to `false` otherwise.
pub open spec fn bool_from_jump_text(jump: Seq<char>, c: int) -> Seq<char> {
    let t = label("bool_true"@, c);
    let d = label("bool_done"@, c + 1);
    jump + " "@ + t + "\nmov rax, "@ + decimal(FALSE_VAL as int) + "\njmp "@ + d + "\n"@ + t
        + ":\nmov rax, "@ + decimal(TRUE_VAL as int) + "\n"@ + d + ":"@
}

/// The text that tests the tag of `rax` into a boolean, at counter `c`.
pub open spec fn tag_test_text(prefix_true: Seq<char>, prefix_done: Seq<char>, jump: Seq<char>, c: int) -> Seq<char> {
    let t = label(prefix_true, c);
    let d = label(prefix_done, c + 1);
    "\ntest rax, 1\n"@ + jump + " "@ + t + "\nmov rax, "@ + decimal(FALSE_VAL as int) + "\njmp "@
        + d + "\n"@ + t + ":\nmov rax, "@ + decimal(TRUE_VAL as int) + "\n"@ + d + ":"@
}

/// How many labels a unary operator adds after its operand.
pub open spec fn unop_labels(op: UnOp) -> int {
    2
}

/// The code of a unary operator applied to operand code `sub`, whose labels
/// start at counter `c`.
pub open spec fn unop_text(op: UnOp, sub: Seq<char>, c: int) -> Seq<char> {
    match op {
        UnOp::Add1 => sub + "\n"@ + check_num_rax_text(c) + "\nadd rax, 2\n"@ + overflow_guard_text(c + 1),
        UnOp::Sub1 => sub + "\n"@ + check_num_rax_text(c) + "\nsub rax, 2\n"@ + overflow_guard_text(c + 1),
        UnOp::Negate => sub + "\n"@ + check_num_rax_text(c) + "\nneg rax\n"@ + overflow_guard_text(c + 1),
        UnOp::IsNum => sub + tag_test_text("isnum_true"@, "isnum_done"@, "jz"@, c),
        UnOp::IsBool => sub + tag_test_text("isbool_true"@, "isbool_done"@, "jnz"@, c),
    }
}

/// How many labels a binary operator adds after its operands.
pub open spec fn binop_labels(op: BinOp) -> int {
    match op {
        BinOp::Plus | BinOp::Minus | BinOp::Times | BinOp::Equal => 3,
        _ => 4,
    }
}

/// The jump that a comparison sets its result by.
pub open spec fn comparison_jump(op: BinOp) -> Seq<char> {
    match op {
        BinOp::Less => "jl"@,
        BinOp::Greater => "jg"@,
        BinOp::LessEqual => "jle"@,
        BinOp::GreaterEqual => "jge"@,
        _ => "je"@,
    }
}

/// The code of a binary operator: the left operand's code `lc`, its value
/// saved at offset `off`, the right operand's code `rc`, then the operation,
/// whose labels start at counter `c`.
pub open spec fn binop_text(op: BinOp, lc: Seq<char>, rc: Seq<char>, off: int, c: int) -> Seq<char> {
    let slot = "[rbp - "@ + decimal(off) + "]"@;
    let head = lc + "\nmov "@ + slot + ", rax\n"@ + rc;
    match op {
        BinOp::Plus => head + "\n"@ + check_num_rax_text(c) + "\nmov rbx, "@ + slot + "\n"@
            + check_num_rbx_text(c + 1) + "\nadd rax, rbx\n"@ + overflow_guard_text(c + 2),
        BinOp::Minus => head + "\n"@ + check_num_rax_text(c) + "\nmov rbx, "@ + slot + "\n"@
            + check_num_rbx_text(c + 1) + "\nsub rbx, rax\nmov rax, rbx\n"@ + overflow_guard_text(c + 2),
        BinOp::Times => head + "\n"@ + check_num_rax_text(c) + "\nsar rax, 1\nmov rbx, "@ + slot
            + "\n"@ + check_num_rbx_text(c + 1) + "\nimul rax, rbx\n"@ + overflow_guard_text(c + 2),
        BinOp::Equal => {
            let ok = label("eq_type_ok"@, c);
            head + "\nmov rbx, "@ + slot + "\nmov rcx, rbx\nxor rcx, rax\ntest rcx, 1\njz "@ + ok
                + "\nmov rdi, 1\ncall _snek_error\n"@ + ok + ":\ncmp rbx, rax\n"@
                + bool_from_jump_text("je"@, c + 1)
        },
        _ => head + "\n"@ + check_num_rax_text(c) + "\nmov rbx, "@ + slot + "\n"@
            + check_num_rbx_text(c + 1) + "\ncmp rbx, rax\n"@ + bool_from_jump_text(comparison_jump(op), c + 2),
    }
}

/// What the code generator has made after the first bindings of a `let`.
pub struct LetState {
    pub code: Seq<char>,
    pub env: Map<Seq<char>, i32>,
    pub si: int,
    pub counter: int,
}

/// The code of an expression at stack index `si` in environment `env`, with
/// labels numbered from counter `c` and `break` jumping to `brk`; and the
/// counter afterwards.
pub open spec fn compile_spec(e: ExprV, si: int, env: Map<Seq<char>, i32>, c: int, brk: Option<Seq<char>>) -> (Seq<char>, int)
    decreases e, 0int,
{
    match e {
        ExprV::Number(n) => ("mov rax, "@ + decimal(tag_number(n as int)), c),
        ExprV::Bool(b) => ("mov rax, "@ + decimal(tag_bool(b)), c),
        ExprV::Input => ("mov rax, rdi"@, c),
        ExprV::Id(x) => ("mov rax, [rbp - "@ + decimal(env[x] as int) + "]"@, c),
        ExprV::UnOp(op, a) => {
            let (sub, c1) = compile_spec(*a, si, env, c, brk);
            (unop_text(op, sub, c1), c1 + unop_labels(op))
        },
        ExprV::BinOp(op, l, r) => {
            let (lc, c1) = compile_spec(*l, si, env, c, brk);
            let (rc, c2) = compile_spec(*r, si + 1, env, c1, brk);
            (binop_text(op, lc, rc, slot_offset(si), c2), c2 + binop_labels(op))
        },
        ExprV::Let(bs, body) => {
            let st = let_spec(bs, bs.len() as int, si, env, c, brk);
            let (bc, c2) = compile_spec(*body, st.si, st.env, st.counter, brk);
            (if bs.len() == 0 { bc } else { st.code + "\n"@ + bc }, c2)
        },
        ExprV::If(cond, thn, els) => {
            let else_l = label("if_else"@, c);
            let done_l = label("if_done"@, c + 1);
            let (cc, c1) = compile_spec(*cond, si, env, c + 2, brk);
            let (tc, c2) = compile_spec(*thn, si, env, c1, brk);
            let (ec, c3) = compile_spec(*els, si, env, c2, brk);
            (cc + "\ncmp rax, "@ + decimal(FALSE_VAL as int) + "\nje "@ + else_l + "\n"@ + tc
                + "\njmp "@ + done_l + "\n"@ + else_l + ":\n"@ + ec + "\n"@ + done_l + ":"@, c3)
        },
        ExprV::Block(es) => block_spec(es, es.len() as int, si, env, c, brk),
        ExprV::Loop(body) => {
            let start_l = label("loop_start"@, c);
            let end_l = label("loop_end"@, c + 1);
            let (bc, c1) = compile_spec(*body, si, env, c + 2, Some(end_l));
            (start_l + ":\n"@ + bc + "\njmp "@ + start_l + "\n"@ + end_l + ":"@, c1)
        },
        ExprV::Break(a) => {
            let (ac, c1) = compile_spec(*a, si, env, c, brk);
            (ac + "\njmp "@ + brk->0, c1)
        },
        ExprV::SetVar(x, a) => {
            let (ac, c1) = compile_spec(*a, si, env, c, brk);
            (ac + "\nmov [rbp - "@ + decimal(env[x] as int) + "], rax"@, c1)
        },
    }
}

/// The first `i` bindings of a `let`: each is compiled in the environment
/// that binds the ones before it, and its value stored in the next slot.
pub open spec fn let_spec(bs: Seq<(Seq<char>, ExprV)>, i: int, si: int, env: Map<Seq<char>, i32>, c: int, brk: Option<Seq<char>>) -> LetState
    decreases bs, i,
{
    if i <= 0 || i > bs.len() {
        LetState { code: Seq::empty(), env: env, si: si, counter: c }
    } else {
        let prev = let_spec(bs, i - 1, si, env, c, brk);
        let (ec, c1) = compile_spec(bs[i - 1].1, prev.si, prev.env, prev.counter, brk);
        let off = slot_offset(prev.si);
        LetState {
            code: (if i == 1 { Seq::empty() } else { prev.code + "\n"@ }) + ec + "\nmov [rbp - "@
                + decimal(off) + "], rax"@,
            env: prev.env.insert(bs[i - 1].0, off as i32),
            si: prev.si + 1,
            counter: c1,
        }
    }
}

/// The first `i` expressions of a block, their codes joined by newlines.
pub open spec fn block_spec(es: Seq<ExprV>, i: int, si: int, env: Map<Seq<char>, i32>, c: int, brk: Option<Seq<char>>) -> (Seq<char>, int)
    decreases es, i,
{
    if i <= 0 || i > es.len() {
        (Seq::empty(), c)
    } else {
        let (prev, c1) = block_spec(es, i - 1, si, env, c, brk);
        let (part, c2) = compile_spec(es[i - 1], si, env, c1, brk);
        (if i == 1 { part } else { prev + "\n"@ + part }, c2)
    }
}


/// How many labels the code of an expression uses.
pub open spec fn label_count(e: ExprV) -> nat
    decreases e, 0int,
{
    match e {
        ExprV::Number(_) | ExprV::Bool(_) | ExprV::Input | ExprV::Id(_) => 0,
        ExprV::UnOp(op, a) => label_count(*a) + 2,
        ExprV::BinOp(op, l, r) => label_count(*l) + label_count(*r) + binop_labels(op) as nat,
        ExprV::Let(bs, body) => binds_labels(bs, bs.len() as int) + label_count(*body),
        ExprV::If(c, t, f) => 2 + label_count(*c) + label_count(*t) + label_count(*f),
        ExprV::Block(es) => seq_labels(es, es.len() as int),
        ExprV::Loop(a) => 2 + label_count(*a),
        ExprV::Break(a) => label_count(*a),
        ExprV::SetVar(_, a) => label_count(*a),
    }
}

/// How many labels the first `i` bindings of a `let` use.
pub open spec fn binds_labels(bs: Seq<(Seq<char>, ExprV)>, i: int) -> nat
    decreases bs, i,
{
    if i <= 0 || i > bs.len() {
        0
    } else {
        binds_labels(bs, i - 1) + label_count(bs[i - 1].1)
    }
}

/// How many labels the first `i` expressions of a block use.
pub open spec fn seq_labels(es: Seq<ExprV>, i: int) -> nat
    decreases es, i,
{
    if i <= 0 || i > es.len() {
        0
    } else {
        seq_labels(es, i - 1) + label_count(es[i - 1])
    }
}


/// Whether every stack index that the code generator computes for an
/// expression at stack index `si`, and every byte offset that it computes
/// from one, fits in an `i32`.
pub open spec fn slots_fit(e: ExprV, si: int) -> bool
    decreases e, 0int,
{
    match e {
        ExprV::Number(_) | ExprV::Bool(_) | ExprV::Input | ExprV::Id(_) => true,
        ExprV::UnOp(_, a) => slots_fit(*a, si),
        ExprV::BinOp(_, l, r) => SI_MIN <= si <= SI_MAX && slots_fit(*l, si) && slots_fit(*r, si + 1),
        ExprV::Let(bs, body) => binds_fit(bs, bs.len() as int, si) && slots_fit(*body, si + bs.len()),
        ExprV::If(c, t, f) => slots_fit(*c, si) && slots_fit(*t, si) && slots_fit(*f, si),
        ExprV::Block(es) => seq_fit(es, es.len() as int, si),
        ExprV::Loop(a) => slots_fit(*a, si),
        ExprV::Break(a) => slots_fit(*a, si),
        ExprV::SetVar(_, a) => slots_fit(*a, si),
    }
}

/// Whether the first `i` bindings of a `let` at stack index `si` fit: binding
/// `k` is compiled at, and stored in, slot `si + k`.
pub open spec fn binds_fit(bs: Seq<(Seq<char>, ExprV)>, i: int, si: int) -> bool
    decreases bs, i,
{
    if i <= 0 || i > bs.len() {
        true
    } else {
        binds_fit(bs, i - 1, si) && SI_MIN <= si + i - 1 <= SI_MAX && slots_fit(bs[i - 1].1, si + i - 1)
    }
}

/// Whether the first `i` expressions of a block at stack index `si` fit.
pub open spec fn seq_fit(es: Seq<ExprV>, i: int, si: int) -> bool
    decreases es, i,
{
    if i <= 0 || i > es.len() {
        true
    } else {
        seq_fit(es, i - 1, si) && slots_fit(es[i - 1], si)
    }
}

/// The names that a list of bindings binds.
pub open spec fn names_of(bs: Seq<(Seq<char>, ExprV)>) -> Set<Seq<char>> {
    Set::new(|x: Seq<char>| exists|k: int| #![trigger bs[k]] 0 <= k < bs.len() && bs[k].0 == x)
}

/// The first fault that the code generator meets in an expression, in the
/// order in which it generates code, where the names `bound` are in scope
/// and a `break` is allowed exactly when `in_loop`; `None` when there is none.
pub open spec fn scope_fault(e: ExprV, bound: Set<Seq<char>>, in_loop: bool) -> Option<ScopeFault>
    decreases e, 0int,
{
    match e {
        ExprV::Number(_) | ExprV::Bool(_) | ExprV::Input => None,
        ExprV::Id(x) => if bound.contains(x) { None } else { Some(ScopeFault::Unbound(x)) },
        ExprV::UnOp(_, a) => scope_fault(*a, bound, in_loop),
        ExprV::BinOp(_, l, r) => {
            let f = scope_fault(*l, bound, in_loop);
            if f is Some { f } else { scope_fault(*r, bound, in_loop) }
        },
        ExprV::Let(bs, body) => {
            let f = binds_fault(bs, bs.len() as int, bound, in_loop);
            if f is Some { f } else { scope_fault(*body, bound + names_of(bs), in_loop) }
        },
        ExprV::If(c, t, el) => {
            let f = scope_fault(*c, bound, in_loop);
            if f is Some {
                f
            } else {
                let g = scope_fault(*t, bound, in_loop);
                if g is Some { g } else { scope_fault(*el, bound, in_loop) }
            }
        },
        ExprV::Block(es) => seq_fault(es, es.len() as int, bound, in_loop),
        ExprV::Loop(a) => scope_fault(*a, bound, true),
        ExprV::Break(a) => if !in_loop {
            Some(ScopeFault::BreakOutsideLoop)
        } else {
            scope_fault(*a, bound, in_loop)
        },
        ExprV::SetVar(x, a) => if !bound.contains(x) {
            Some(ScopeFault::Unbound(x))
        } else {
            scope_fault(*a, bound, in_loop)
        },
    }
}

/// The first fault in the first `i` bindings of a `let`.
pub open spec fn binds_fault(bs: Seq<(Seq<char>, ExprV)>, i: int, bound: Set<Seq<char>>, in_loop: bool) -> Option<ScopeFault>
    decreases bs, i,
{
    if i <= 0 || i > bs.len() {
        None
    } else {
        let f = binds_fault(bs, i - 1, bound, in_loop);
        if f is Some {
            f
        } else if names_of(bs.take(i - 1)).contains(bs[i - 1].0) {
            Some(ScopeFault::DuplicateBinding)
        } else {
            scope_fault(bs[i - 1].1, bound + names_of(bs.take(i - 1)), in_loop)
        }
    }
}

/// The first fault in the first `i` expressions of a block.
pub open spec fn seq_fault(es: Seq<ExprV>, i: int, bound: Set<Seq<char>>, in_loop: bool) -> Option<ScopeFault>
    decreases es, i,
{
    if i <= 0 || i > es.len() {
        None
    } else {
        let f = seq_fault(es, i - 1, bound, in_loop);
        if f is Some { f } else { scope_fault(es[i - 1], bound, in_loop) }
    }
}


/// The lowest stack index whose offset fits in an `i32`.
pub const SI_MIN: i32 = -268435456;

/// The highest stack index whose offset fits in an `i32`.
pub const SI_MAX: i32 = 268435455;

/// A `break` target as characters.
pub open spec fn target_view(t: Option<&str>) -> Option<Seq<char>> {
    match t {
        Some(s) => Some(s@),
        None => None,
    }
}

/// A fresh label `prefix_n`, where `n` is the counter, which is then advanced.
pub fn new_label(counter: &mut i32, prefix: &str) -> (l: String)
    requires
        *old(counter) < i32::MAX,
    ensures
        l@ == label(prefix@, *old(counter) as int),
        *final(counter) == *old(counter) + 1,
{
    let mut l = prefix.to_owned();
    l.append("_");
    push_decimal(&mut l, *counter as i64);
    *counter += 1;
    l
}

/// The byte offset below `rbp` of stack slot `si`.
pub fn stack_offset(si: i32) -> (off: i32)
    requires
        SI_MIN <= si <= SI_MAX,
    ensures
        off == slot_offset(si as int),
{
    si * 8
}

/// Code that calls `_snek_error` with code 1 unless `rax` holds a number.
pub fn compile_check_num_rax(counter: &mut i32) -> (code: String)
    requires
        *old(counter) < i32::MAX,
    ensures
        code@ == check_num_rax_text(*old(counter) as int),
        *final(counter) == *old(counter) + 1,
{
    let ok = new_label(counter, "num_ok");
    let mut s = "test rax, 1\njz ".to_owned();
    s.append(ok.as_str());
    s.append("\nmov rdi, 1\ncall _snek_error\n");
    s.append(ok.as_str());
    s.append(":");
    s
}

/// Code that calls `_snek_error` with code 1 unless `rbx` holds a number.
pub fn compile_check_num_rbx(counter: &mut i32) -> (code: String)
    requires
        *old(counter) < i32::MAX,
    ensures
        code@ == check_num_rbx_text(*old(counter) as int),
        *final(counter) == *old(counter) + 1,
{
    let ok = new_label(counter, "num_ok");
    let mut s = "test rbx, 1\njz ".to_owned();
    s.append(ok.as_str());
    s.append("\nmov rdi, 1\ncall _snek_error\n");
    s.append(ok.as_str());
    s.append(":");
    s
}

/// Code that calls `_snek_error` with code 2 if the last operation overflowed.
pub fn compile_overflow_guard(counter: &mut i32) -> (code: String)
    requires
        *old(counter) < i32::MAX,
    ensures
        code@ == overflow_guard_text(*old(counter) as int),
        *final(counter) == *old(counter) + 1,
{
    let ok = new_label(counter, "overflow_ok");
    let mut s = "jno ".to_owned();
    s.append(ok.as_str());
    s.append("\nmov rdi, 2\ncall _snek_error\n");
    s.append(ok.as_str());
    s.append(":");
    s
}

/// Code that sets `rax` to `true` where `jump` is taken and to `false`
/// otherwise.
pub fn compile_bool_result_from_jump(jump: &str, counter: &mut i32) -> (code: String)
    requires
        *old(counter) < i32::MAX - 1,
    ensures
        code@ == bool_from_jump_text(jump@, *old(counter) as int),
        *final(counter) == *old(counter) + 2,
{
    let true_label = new_label(counter, "bool_true");
    let done_label = new_label(counter, "bool_done");
    let mut s = jump.to_owned();
    s.append(" ");
    s.append(true_label.as_str());
    s.append("\nmov rax, ");
    push_decimal(&mut s, FALSE_VAL);
    s.append("\njmp ");
    s.append(done_label.as_str());
    s.append("\n");
    s.append(true_label.as_str());
    s.append(":\nmov rax, ");
    push_decimal(&mut s, TRUE_VAL);
    s.append("\n");
    s.append(done_label.as_str());
    s.append(":");
    s
}

fn tag_test(prefix_true: &str, prefix_done: &str, jump: &str, counter: &mut i32) -> (code: String)
    requires
        *old(counter) < i32::MAX - 1,
    ensures
        code@ == tag_test_text(prefix_true@, prefix_done@, jump@, *old(counter) as int),
        *final(counter) == *old(counter) + 2,
{
    let true_label = new_label(counter, prefix_true);
    let done_label = new_label(counter, prefix_done);
    let mut s = "\ntest rax, 1\n".to_owned();
    s.append(jump);
    s.append(" ");
    s.append(true_label.as_str());
    s.append("\nmov rax, ");
    push_decimal(&mut s, FALSE_VAL);
    s.append("\njmp ");
    s.append(done_label.as_str());
    s.append("\n");
    s.append(true_label.as_str());
    s.append(":\nmov rax, ");
    push_decimal(&mut s, TRUE_VAL);
    s.append("\n");
    s.append(done_label.as_str());
    s.append(":");
    s
}

fn finish_unop(op: UnOp, sub: String, counter: &mut i32) -> (code: String)
    requires
        *old(counter) < i32::MAX - 1,
    ensures
        code@ == unop_text(op, sub@, *old(counter) as int),
        *final(counter) == *old(counter) + unop_labels(op),
{
    let mut s = sub;
    match op {
        UnOp::IsNum => {
            let t = tag_test("isnum_true", "isnum_done", "jz", counter);
            s.append(t.as_str());
        },
        UnOp::IsBool => {
            let t = tag_test("isbool_true", "isbool_done", "jnz", counter);
            s.append(t.as_str());
        },
        _ => {
            let check = compile_check_num_rax(counter);
            let ovf = compile_overflow_guard(counter);
            s.append("\n");
            s.append(check.as_str());
            match op {
                UnOp::Add1 => s.append("\nadd rax, 2\n"),
                UnOp::Sub1 => s.append("\nsub rax, 2\n"),
                _ => s.append("\nneg rax\n"),
            }
            s.append(ovf.as_str());
        },
    }
    s
}

fn finish_binop(op: BinOp, lc: String, rc: String, offset: i32, counter: &mut i32) -> (code: String)
    requires
        *old(counter) + binop_labels(op) <= i32::MAX,
    ensures
        code@ == binop_text(op, lc@, rc@, offset as int, *old(counter) as int),
        *final(counter) == *old(counter) + binop_labels(op),
{
    let mut slot = "[rbp - ".to_owned();
    push_decimal(&mut slot, offset as i64);
    slot.append("]");
    let mut s = lc;
    s.append("\nmov ");
    s.append(slot.as_str());
    s.append(", rax\n");
    s.append(rc.as_str());
    match op {
        BinOp::Equal => {
            let ok = new_label(counter, "eq_type_ok");
            let b = compile_bool_result_from_jump("je", counter);
            s.append("\nmov rbx, ");
            s.append(slot.as_str());
            s.append("\nmov rcx, rbx\nxor rcx, rax\ntest rcx, 1\njz ");
            s.append(ok.as_str());
            s.append("\nmov rdi, 1\ncall _snek_error\n");
            s.append(ok.as_str());
            s.append(":\ncmp rbx, rax\n");
            s.append(b.as_str());
        },
        BinOp::Plus | BinOp::Minus | BinOp::Times => {
            let check_right = compile_check_num_rax(counter);
            let check_left = compile_check_num_rbx(counter);
            let ovf = compile_overflow_guard(counter);
            s.append("\n");
            s.append(check_right.as_str());
            match op {
                BinOp::Times => s.append("\nsar rax, 1\nmov rbx, "),
                _ => s.append("\nmov rbx, "),
            }
            s.append(slot.as_str());
            s.append("\n");
            s.append(check_left.as_str());
            match op {
                BinOp::Plus => s.append("\nadd rax, rbx\n"),
                BinOp::Minus => s.append("\nsub rbx, rax\nmov rax, rbx\n"),
                _ => s.append("\nimul rax, rbx\n"),
            }
            s.append(ovf.as_str());
        },
        _ => {
            let check_right = compile_check_num_rax(counter);
            let check_left = compile_check_num_rbx(counter);
            let jump = match op {
                BinOp::Less => "jl",
                BinOp::Greater => "jg",
                BinOp::LessEqual => "jle",
                _ => "jge",
            };
            let b = compile_bool_result_from_jump(jump, counter);
            s.append("\n");
            s.append(check_right.as_str());
            s.append("\nmov rbx, ");
            s.append(slot.as_str());
            s.append("\n");
            s.append(check_left.as_str());
            s.append("\ncmp rbx, rax\n");
            s.append(b.as_str());
        },
    }
    s
}


/// The names of one more binding are the names before it and its own.
pub proof fn lemma_names_step(bs: Seq<(Seq<char>, ExprV)>, i: int)
    requires
        0 <= i < bs.len(),
    ensures
        names_of(bs.take(i + 1)) == names_of(bs.take(i)).insert(bs[i].0),
{
    assert(names_of(bs.take(i + 1)) =~= names_of(bs.take(i)).insert(bs[i].0)) by {
        assert forall|x: Seq<char>| names_of(bs.take(i + 1)).contains(x) implies names_of(bs.take(i)).insert(bs[i].0).contains(x) by {
            let k = choose|k: int| #![trigger bs.take(i + 1)[k]] 0 <= k < i + 1 && bs.take(i + 1)[k].0 == x;
            if k < i {
                assert(bs.take(i)[k].0 == x);
            }
        }
        assert forall|x: Seq<char>| names_of(bs.take(i)).insert(bs[i].0).contains(x) implies names_of(bs.take(i + 1)).contains(x) by {
            if x == bs[i].0 {
                assert(bs.take(i + 1)[i].0 == x);
            } else {
                let k = choose|k: int| #![trigger bs.take(i)[k]] 0 <= k < i && bs.take(i)[k].0 == x;
                assert(bs.take(i + 1)[k].0 == x);
            }
        }
    }
}

/// The label count of a prefix of a `let`'s bindings is bounded by that of a
/// longer prefix, and the longer prefix fits and is free of faults only where
/// the shorter one is.
pub proof fn lemma_binds_mono(bs: Seq<(Seq<char>, ExprV)>, i: int, j: int, si: int, bound: Set<Seq<char>>, in_loop: bool)
    requires
        0 <= i <= j <= bs.len(),
    ensures
        binds_labels(bs, i) <= binds_labels(bs, j),
        binds_fit(bs, j, si) ==> binds_fit(bs, i, si),
        binds_fault(bs, j, bound, in_loop) is None ==> binds_fault(bs, i, bound, in_loop) is None,
    decreases j,
{
    if i < j {
        lemma_binds_mono(bs, i, j - 1, si, bound, in_loop);
    }
}

/// The label count of a prefix of a block is bounded by that of a longer
/// prefix, and the longer prefix fits and is free of faults only where the
/// shorter one is.
pub proof fn lemma_seq_mono(es: Seq<ExprV>, i: int, j: int, si: int, bound: Set<Seq<char>>, in_loop: bool)
    requires
        0 <= i <= j <= es.len(),
    ensures
        seq_labels(es, i) <= seq_labels(es, j),
        seq_fit(es, j, si) ==> seq_fit(es, i, si),
        seq_fault(es, j, bound, in_loop) is None ==> seq_fault(es, i, bound, in_loop) is None,
    decreases j,
{
    if i < j {
        lemma_seq_mono(es, i, j - 1, si, bound, in_loop);
    }
}

/// The code of an expression at stack index `si`, where `env` gives the
/// stack offsets of the variables in scope, `counter` numbers the labels, and
/// `break_target` is the label that `break` jumps to.
pub fn compile_expr(
    e: &Expr,
    si: i32,
    env: &im::HashMap<String, i32>,
    counter: &mut i32,
    break_target: Option<&str>,
) -> (code: String)
    requires
        scope_fault(e@, env_slots(*env).dom(), break_target is Some) is None,
        *old(counter) + label_count(e@) <= i32::MAX,
        slots_fit(e@, si as int),
    ensures
        code@ == compile_spec(e@, si as int, env_slots(*env), *old(counter) as int, target_view(break_target)).0,
        *final(counter) == compile_spec(e@, si as int, env_slots(*env), *old(counter) as int, target_view(break_target)).1,
        *final(counter) == *old(counter) + label_count(e@),
    decreases e, 1int,
{
    match e {
        Expr::Number(n) => {
            let mut s = "mov rax, ".to_owned();
            push_decimal(&mut s, (*n as i64) * 2);
            s
        },
        Expr::Bool(b) => {
            let mut s = "mov rax, ".to_owned();
            if *b {
                push_decimal(&mut s, TRUE_VAL);
            } else {
                push_decimal(&mut s, FALSE_VAL);
            }
            s
        },
        Expr::Input => "mov rax, rdi".to_owned(),
        Expr::Id(name) => match env_get(env, name) {
            Some(offset) => {
                let mut s = "mov rax, [rbp - ".to_owned();
                push_decimal(&mut s, offset as i64);
                s.append("]");
                s
            },
            None => {
                proof { assert(false); }
                String::new()
            },
        },
        Expr::UnOp(op, a) => {
            let sub = compile_expr(a, si, env, counter, break_target);
            finish_unop(*op, sub, counter)
        },
        Expr::BinOp(op, left, right) => {
            let left_code = compile_expr(left, si, env, counter, break_target);
            let right_code = compile_expr(right, si + 1, env, counter, break_target);
            let offset = stack_offset(si);
            finish_binop(*op, left_code, right_code, offset, counter)
        },
        Expr::Let(_, _) => compile_let(e, si, env, counter, break_target),
        Expr::If(cond, thn, els) => {
            let else_label = new_label(counter, "if_else");
            let done_label = new_label(counter, "if_done");
            let cond_code = compile_expr(cond, si, env, counter, break_target);
            let thn_code = compile_expr(thn, si, env, counter, break_target);
            let els_code = compile_expr(els, si, env, counter, break_target);
            let mut s = cond_code;
            s.append("\ncmp rax, ");
            push_decimal(&mut s, FALSE_VAL);
            s.append("\nje ");
            s.append(else_label.as_str());
            s.append("\n");
            s.append(thn_code.as_str());
            s.append("\njmp ");
            s.append(done_label.as_str());
            s.append("\n");
            s.append(else_label.as_str());
            s.append(":\n");
            s.append(els_code.as_str());
            s.append("\n");
            s.append(done_label.as_str());
            s.append(":");
            s
        },
        Expr::Block(_) => compile_block(e, si, env, counter, break_target),
        Expr::Loop(body) => {
            let start_label = new_label(counter, "loop_start");
            let end_label = new_label(counter, "loop_end");
            let body_code = compile_expr(body, si, env, counter, Some(end_label.as_str()));
            let mut s = start_label.clone();
            s.append(":\n");
            s.append(body_code.as_str());
            s.append("\njmp ");
            s.append(start_label.as_str());
            s.append("\n");
            s.append(end_label.as_str());
            s.append(":");
            s
        },
        Expr::Break(a) => match break_target {
            Some(target) => {
                let mut s = compile_expr(a, si, env, counter, break_target);
                s.append("\njmp ");
                s.append(target);
                s
            },
            None => {
                proof { assert(false); }
                String::new()
            },
        },
        Expr::SetVar(name, a) => match env_get(env, name) {
            Some(offset) => {
                let mut s = compile_expr(a, si, env, counter, break_target);
                s.append("\nmov [rbp - ");
                push_decimal(&mut s, offset as i64);
                s.append("], rax");
                s
            },
            None => {
                proof { assert(false); }
                String::new()
            },
        },
    }
}

fn compile_let(
    e: &Expr,
    si: i32,
    env: &im::HashMap<String, i32>,
    counter: &mut i32,
    break_target: Option<&str>,
) -> (code: String)
    requires
        e is Let,
        scope_fault(e@, env_slots(*env).dom(), break_target is Some) is None,
        *old(counter) + label_count(e@) <= i32::MAX,
        slots_fit(e@, si as int),
    ensures
        code@ == compile_spec(e@, si as int, env_slots(*env), *old(counter) as int, target_view(break_target)).0,
        *final(counter) == compile_spec(e@, si as int, env_slots(*env), *old(counter) as int, target_view(break_target)).1,
        *final(counter) == *old(counter) + label_count(e@),
    decreases e, 0int,
{
    let (binds, body) = match e {
        Expr::Let(binds, body) => (binds, body),
        _ => {
            proof { assert(false); }
            return String::new();
        },
    };
    let ghost bvs = binds_view(binds@);
    let ghost brk = target_view(break_target);
    let ghost bound = env_slots(*env).dom();
    let ghost c0 = *old(counter) as int;
    proof {
        lemma_binds_view(binds@);
    }
    let n = binds.len();
    let mut instrs = String::new();
    let mut new_env = env_clone(env);
    let mut cur_si = si;
    let mut i: usize = 0;
    while i < n
        invariant
            n == binds.len(),
            bvs == binds_view(binds@),
            bvs.len() == n,
            forall|k: int| 0 <= k < n ==> #[trigger] bvs[k] == (binds@[k].0@, expr_view(binds@[k].1)),
            e@ == ExprV::Let(bvs, Box::new(body@)),
            *e == Expr::Let(*binds, *body),
            i <= n,
            cur_si == si + i,
            slots_fit(e@, si as int),
            c0 + label_count(e@) <= i32::MAX,
            brk == target_view(break_target),
            bound == env_slots(*env).dom(),
            binds_fault(bvs, n as int, bound, break_target is Some) is None,
            instrs@ == let_spec(bvs, i as int, si as int, env_slots(*env), c0, brk).code,
            env_slots(new_env) == let_spec(bvs, i as int, si as int, env_slots(*env), c0, brk).env,
            cur_si == let_spec(bvs, i as int, si as int, env_slots(*env), c0, brk).si,
            *counter == let_spec(bvs, i as int, si as int, env_slots(*env), c0, brk).counter,
            *counter == c0 + binds_labels(bvs, i as int),
            env_slots(new_env).dom() == bound + names_of(bvs.take(i as int)),
        decreases n - i,
    {
        proof {
            lemma_binds_mono(bvs, i + 1, n as int, si as int, bound, break_target is Some);
            assert(bvs.take(i + 1).take(i as int) =~= bvs.take(i as int));
            lemma_names_step(bvs, i as int);
            assert(decreases_to!(*e => e->Let_0));
            assert(decreases_to!(*binds => binds@[i as int]));
            assert(decreases_to!(binds@[i as int] => binds@[i as int].1));
        }
        let name = &binds[i].0;
        let ex = &binds[i].1;
        let expr_code = compile_expr(ex, cur_si, &new_env, counter, break_target);
        let offset = stack_offset(cur_si);
        if i > 0 {
            instrs.append("\n");
        }
        instrs.append(expr_code.as_str());
        instrs.append("\nmov [rbp - ");
        push_decimal(&mut instrs, offset as i64);
        instrs.append("], rax");
        env_insert(&mut new_env, name.clone(), offset);
        cur_si += 1;
        i += 1;
    }
    proof {
        assert(bvs.take(n as int) =~= bvs);
    }
    let body_code = compile_expr(body, cur_si, &new_env, counter, break_target);
    if n == 0 {
        body_code
    } else {
        instrs.append("\n");
        instrs.append(body_code.as_str());
        instrs
    }
}

fn compile_block(
    e: &Expr,
    si: i32,
    env: &im::HashMap<String, i32>,
    counter: &mut i32,
    break_target: Option<&str>,
) -> (code: String)
    requires
        e is Block,
        scope_fault(e@, env_slots(*env).dom(), break_target is Some) is None,
        *old(counter) + label_count(e@) <= i32::MAX,
        slots_fit(e@, si as int),
    ensures
        code@ == compile_spec(e@, si as int, env_slots(*env), *old(counter) as int, target_view(break_target)).0,
        *final(counter) == compile_spec(e@, si as int, env_slots(*env), *old(counter) as int, target_view(break_target)).1,
        *final(counter) == *old(counter) + label_count(e@),
    decreases e, 0int,
{
    let es = match e {
        Expr::Block(es) => es,
        _ => {
            proof { assert(false); }
            return String::new();
        },
    };
    let ghost evs = exprs_view(es@);
    let ghost brk = target_view(break_target);
    let ghost bound = env_slots(*env).dom();
    let ghost c0 = *old(counter) as int;
    proof {
        lemma_exprs_view(es@);
    }
    let n = es.len();
    let mut code = String::new();
    let mut i: usize = 0;
    while i < n
        invariant
            n == es.len(),
            evs == exprs_view(es@),
            evs.len() == n,
            forall|k: int| 0 <= k < n ==> #[trigger] evs[k] == expr_view(es@[k]),
            e@ == ExprV::Block(evs),
            *e == Expr::Block(*es),
            i <= n,
            slots_fit(e@, si as int),
            c0 + label_count(e@) <= i32::MAX,
            brk == target_view(break_target),
            bound == env_slots(*env).dom(),
            seq_fault(evs, n as int, bound, break_target is Some) is None,
            code@ == block_spec(evs, i as int, si as int, env_slots(*env), c0, brk).0,
            *counter == block_spec(evs, i as int, si as int, env_slots(*env), c0, brk).1,
            *counter == c0 + seq_labels(evs, i as int),
        decreases n - i,
    {
        proof {
            lemma_seq_mono(evs, i + 1, n as int, si as int, bound, break_target is Some);
            assert(decreases_to!(*e => e->Block_0));
            assert(decreases_to!(*es => es@[i as int]));
        }
        let part = compile_expr(&es[i], si, env, counter, break_target);
        if i > 0 {
            code.append("\n");
        }
        code.append(part.as_str());
        i += 1;
    }
    code
}


proof fn lemma_binds_fault_stays(bs: Seq<(Seq<char>, ExprV)>, i: int, j: int, bound: Set<Seq<char>>, in_loop: bool)
    requires
        0 <= i <= j <= bs.len(),
        binds_fault(bs, i, bound, in_loop) is Some,
    ensures
        binds_fault(bs, j, bound, in_loop) == binds_fault(bs, i, bound, in_loop),
    decreases j,
{
    if i < j {
        lemma_binds_fault_stays(bs, i, j - 1, bound, in_loop);
    }
}

proof fn lemma_seq_fault_stays(es: Seq<ExprV>, i: int, j: int, bound: Set<Seq<char>>, in_loop: bool)
    requires
        0 <= i <= j <= es.len(),
        seq_fault(es, i, bound, in_loop) is Some,
    ensures
        seq_fault(es, j, bound, in_loop) == seq_fault(es, i, bound, in_loop),
    decreases j,
{
    if i < j {
        lemma_seq_fault_stays(es, i, j - 1, bound, in_loop);
    }
}

fn has_name(names: &Vec<String>, name: &String) -> (r: bool)
    ensures
        r == exists|k: int| 0 <= k < names.len() && (#[trigger] names@[k])@ == name@,
{
    let mut k: usize = 0;
    while k < names.len()
        invariant
            k <= names.len(),
            forall|j: int| 0 <= j < k ==> (#[trigger] names@[j])@ != name@,
        decreases names.len() - k,
    {
        if names[k] == *name {
            return true;
        }
        k += 1;
    }
    false
}

/// Finds the first reason, in the order in which [`compile_expr`] generates
/// code, why it would stop on `e` in environment `env`, where `in_loop` says
/// whether a `break` target is given.
pub fn check_scopes(e: &Expr, env: &im::HashMap<String, i32>, in_loop: bool) -> (r: Result<(), CompileError>)
    ensures
        r is Ok <==> scope_fault(e@, env_slots(*env).dom(), in_loop) is None,
        r is Err ==> scope_fault(e@, env_slots(*env).dom(), in_loop) == Some(fault_view(r->Err_0)),
    decreases e, 1int,
{
    match e {
        Expr::Number(_) | Expr::Bool(_) | Expr::Input => Ok(()),
        Expr::Id(name) => match env_get(env, name) {
            Some(_) => Ok(()),
            None => Err(CompileError::UnboundVariable(name.clone())),
        },
        Expr::UnOp(_, a) => check_scopes(a, env, in_loop),
        Expr::BinOp(_, l, r) => {
            let f = check_scopes(l, env, in_loop);
            if f.is_err() {
                return f;
            }
            check_scopes(r, env, in_loop)
        },
        Expr::Let(_, _) => check_let_scopes(e, env, in_loop),
        Expr::If(c, t, f) => {
            let a = check_scopes(c, env, in_loop);
            if a.is_err() {
                return a;
            }
            let b = check_scopes(t, env, in_loop);
            if b.is_err() {
                return b;
            }
            check_scopes(f, env, in_loop)
        },
        Expr::Block(_) => check_block_scopes(e, env, in_loop),
        Expr::Loop(a) => check_scopes(a, env, true),
        Expr::Break(a) => if !in_loop {
            Err(CompileError::BreakOutsideLoop)
        } else {
            check_scopes(a, env, in_loop)
        },
        Expr::SetVar(name, a) => match env_get(env, name) {
            Some(_) => check_scopes(a, env, in_loop),
            None => Err(CompileError::UnboundVariable(name.clone())),
        },
    }
}

fn check_let_scopes(e: &Expr, env: &im::HashMap<String, i32>, in_loop: bool) -> (r: Result<(), CompileError>)
    requires
        e is Let,
    ensures
        r is Ok <==> scope_fault(e@, env_slots(*env).dom(), in_loop) is None,
        r is Err ==> scope_fault(e@, env_slots(*env).dom(), in_loop) == Some(fault_view(r->Err_0)),
    decreases e, 0int,
{
    let (binds, body) = match e {
        Expr::Let(binds, body) => (binds, body),
        _ => {
            proof { assert(false); }
            return Ok(());
        },
    };
    let ghost bvs = binds_view(binds@);
    let ghost bound = env_slots(*env).dom();
    proof {
        lemma_binds_view(binds@);
    }
    let n = binds.len();
    let mut names: Vec<String> = Vec::new();
    let mut new_env = env_clone(env);
    let mut i: usize = 0;
    while i < n
        invariant
            n == binds.len(),
            bvs == binds_view(binds@),
            bvs.len() == n,
            forall|k: int| 0 <= k < n ==> #[trigger] bvs[k] == (binds@[k].0@, expr_view(binds@[k].1)),
            e@ == ExprV::Let(bvs, Box::new(body@)),
            *e == Expr::Let(*binds, *body),
            i <= n,
            bound == env_slots(*env).dom(),
            binds_fault(bvs, i as int, bound, in_loop) is None,
            names.len() == i,
            forall|k: int| 0 <= k < i ==> (#[trigger] names@[k])@ == bvs[k].0,
            env_slots(new_env).dom() == bound + names_of(bvs.take(i as int)),
        decreases n - i,
    {
        let ghost prefix = names_of(bvs.take(i as int));
        proof {
            assert(bvs.take(i + 1).take(i as int) =~= bvs.take(i as int));
            lemma_names_step(bvs, i as int);
            assert(decreases_to!(*e => e->Let_0));
            assert(decreases_to!(*binds => binds@[i as int]));
            assert(decreases_to!(binds@[i as int] => binds@[i as int].1));
        }
        let name = &binds[i].0;
        let ex = &binds[i].1;
        if has_name(&names, name) {
            proof {
                let k = choose|k: int| 0 <= k < names.len() && (#[trigger] names@[k])@ == name@;
                assert(bvs.take(i as int)[k].0 == bvs[i as int].0);
                assert(prefix.contains(bvs[i as int].0));
                lemma_binds_fault_stays(bvs, i + 1, n as int, bound, in_loop);
            }
            return Err(CompileError::DuplicateBinding);
        }
        proof {
            assert(!prefix.contains(bvs[i as int].0)) by {
                if prefix.contains(bvs[i as int].0) {
                    let k = choose|k: int| #![trigger bvs.take(i as int)[k]] 0 <= k < i && bvs.take(i as int)[k].0 == bvs[i as int].0;
                    assert(names@[k]@ == name@);
                }
            }
        }
        let r = check_scopes(ex, &new_env, in_loop);
        if r.is_err() {
            proof {
                lemma_binds_fault_stays(bvs, i + 1, n as int, bound, in_loop);
            }
            return r;
        }
        names.push(name.clone());
        env_insert(&mut new_env, name.clone(), 0);
        i += 1;
    }
    proof {
        assert(bvs.take(n as int) =~= bvs);
    }
    check_scopes(body, &new_env, in_loop)
}

fn check_block_scopes(e: &Expr, env: &im::HashMap<String, i32>, in_loop: bool) -> (r: Result<(), CompileError>)
    requires
        e is Block,
    ensures
        r is Ok <==> scope_fault(e@, env_slots(*env).dom(), in_loop) is None,
        r is Err ==> scope_fault(e@, env_slots(*env).dom(), in_loop) == Some(fault_view(r->Err_0)),
    decreases e, 0int,
{
    let es = match e {
        Expr::Block(es) => es,
        _ => {
            proof { assert(false); }
            return Ok(());
        },
    };
    let ghost evs = exprs_view(es@);
    let ghost bound = env_slots(*env).dom();
    proof {
        lemma_exprs_view(es@);
    }
    let n = es.len();
    let mut i: usize = 0;
    while i < n
        invariant
            n == es.len(),
            evs == exprs_view(es@),
            evs.len() == n,
            forall|k: int| 0 <= k < n ==> #[trigger] evs[k] == expr_view(es@[k]),
            e@ == ExprV::Block(evs),
            *e == Expr::Block(*es),
            i <= n,
            bound == env_slots(*env).dom(),
            seq_fault(evs, i as int, bound, in_loop) is None,
        decreases n - i,
    {
        proof {
            assert(decreases_to!(*e => e->Block_0));
            assert(decreases_to!(*es => es@[i as int]));
        }
        let r = check_scopes(&es[i], env, in_loop);
        if r.is_err() {
            proof {
                lemma_seq_fault_stays(evs, i + 1, n as int, bound, in_loop);
            }
            return r;
        }
        i += 1;
    }
    Ok(())
}


/// The bound at which [`count_labels`] stops counting.
pub const COUNT_CAP: u64 = 4294967296;

/// A label count, held at [`COUNT_CAP`] once it passes it.
pub open spec fn capped(x: nat) -> nat {
    if x <= COUNT_CAP { x } else { COUNT_CAP as nat }
}

fn add_capped(a: u64, b: u64) -> (r: u64)
    requires
        a <= COUNT_CAP,
        b <= COUNT_CAP,
    ensures
        r == capped((a + b) as nat),
{
    if a + b <= COUNT_CAP { a + b } else { COUNT_CAP }
}

/// The number of labels the code of `e` uses, counted up to [`COUNT_CAP`].
pub fn count_labels(e: &Expr) -> (r: u64)
    ensures
        r == capped(label_count(e@)),
    decreases e,
{
    match e {
        Expr::Number(_) | Expr::Bool(_) | Expr::Input | Expr::Id(_) => 0,
        Expr::UnOp(_, a) => add_capped(count_labels(a), 2),
        Expr::BinOp(op, l, r) => {
            let k: u64 = match op {
                BinOp::Plus | BinOp::Minus | BinOp::Times | BinOp::Equal => 3,
                _ => 4,
            };
            add_capped(add_capped(count_labels(l), count_labels(r)), k)
        },
        Expr::Let(binds, body) => {
            let ghost bvs = binds_view(binds@);
            proof { lemma_binds_view(binds@); }
            let mut total: u64 = 0;
            let mut i: usize = 0;
            while i < binds.len()
                invariant
                    i <= binds.len(),
                    bvs == binds_view(binds@),
                    bvs.len() == binds.len(),
                    forall|k: int| 0 <= k < binds.len() ==> #[trigger] bvs[k] == (binds@[k].0@, expr_view(binds@[k].1)),
                    *e == Expr::Let(*binds, *body),
                    total == capped(binds_labels(bvs, i as int)),
                decreases binds.len() - i,
            {
                proof {
                    assert(decreases_to!(*e => e->Let_0));
                    assert(decreases_to!(*binds => binds@[i as int]));
                    assert(decreases_to!(binds@[i as int] => binds@[i as int].1));
                }
                total = add_capped(total, count_labels(&binds[i].1));
                i += 1;
            }
            add_capped(total, count_labels(body))
        },
        Expr::If(c, t, f) => add_capped(add_capped(add_capped(count_labels(c), count_labels(t)), count_labels(f)), 2),
        Expr::Block(es) => {
            let ghost evs = exprs_view(es@);
            proof { lemma_exprs_view(es@); }
            let mut total: u64 = 0;
            let mut i: usize = 0;
            while i < es.len()
                invariant
                    i <= es.len(),
                    evs == exprs_view(es@),
                    evs.len() == es.len(),
                    forall|k: int| 0 <= k < es.len() ==> #[trigger] evs[k] == expr_view(es@[k]),
                    *e == Expr::Block(*es),
                    total == capped(seq_labels(evs, i as int)),
                decreases es.len() - i,
            {
                proof {
                    assert(decreases_to!(*e => e->Block_0));
                    assert(decreases_to!(*es => es@[i as int]));
                }
                total = add_capped(total, count_labels(&es[i]));
                i += 1;
            }
            total
        },
        Expr::Loop(a) => add_capped(count_labels(a), 2),
        Expr::Break(a) => count_labels(a),
        Expr::SetVar(_, a) => count_labels(a),
    }
}

/// Whether every stack index and offset that the code generator computes for
/// `e` at stack index `si` fits in an `i32`.
pub fn stack_fits(e: &Expr, si: i32) -> (r: bool)
    ensures
        r == slots_fit(e@, si as int),
    decreases e,
{
    match e {
        Expr::Number(_) | Expr::Bool(_) | Expr::Input | Expr::Id(_) => true,
        Expr::UnOp(_, a) => stack_fits(a, si),
        Expr::BinOp(_, l, r) => SI_MIN <= si && si <= SI_MAX && stack_fits(l, si) && stack_fits(r, si + 1),
        Expr::Let(binds, body) => {
            let ghost bvs = binds_view(binds@);
            proof { lemma_binds_view(binds@); }
            let n = binds.len();
            let mut i: usize = 0;
            while i < n
                invariant
                    n == binds.len(),
                    i <= n,
                    bvs == binds_view(binds@),
                    bvs.len() == n,
                    forall|k: int| 0 <= k < n ==> #[trigger] bvs[k] == (binds@[k].0@, expr_view(binds@[k].1)),
                    *e == Expr::Let(*binds, *body),
                    binds_fit(bvs, i as int, si as int),
                    i > 0 ==> si + i - 1 <= SI_MAX,
                decreases n - i,
            {
                proof {
                    assert(decreases_to!(*e => e->Let_0));
                    assert(decreases_to!(*binds => binds@[i as int]));
                    assert(decreases_to!(binds@[i as int] => binds@[i as int].1));
                    lemma_binds_mono(bvs, i + 1, n as int, si as int, Set::empty(), false);
                }
                let idx: i128 = si as i128 + i as i128;
                if idx < SI_MIN as i128 || idx > SI_MAX as i128 {
                    return false;
                }
                if !stack_fits(&binds[i].1, idx as i32) {
                    return false;
                }
                i += 1;
            }
            let body_si: i128 = si as i128 + n as i128;
            proof {
                assert(n == 0 ==> body_si == si);
            }
            stack_fits(body, body_si as i32)
        },
        Expr::If(c, t, f) => stack_fits(c, si) && stack_fits(t, si) && stack_fits(f, si),
        Expr::Block(es) => {
            let ghost evs = exprs_view(es@);
            proof { lemma_exprs_view(es@); }
            let n = es.len();
            let mut i: usize = 0;
            while i < n
                invariant
                    n == es.len(),
                    i <= n,
                    evs == exprs_view(es@),
                    evs.len() == n,
                    forall|k: int| 0 <= k < n ==> #[trigger] evs[k] == expr_view(es@[k]),
                    *e == Expr::Block(*es),
                    seq_fit(evs, i as int, si as int),
                decreases n - i,
            {
                proof {
                    assert(decreases_to!(*e => e->Block_0));
                    assert(decreases_to!(*es => es@[i as int]));
                    lemma_seq_mono(evs, i + 1, n as int, si as int, Set::empty(), false);
                }
                if !stack_fits(&es[i], si) {
                    return false;
                }
                i += 1;
            }
            true
        },
        Expr::Loop(a) => stack_fits(a, si),
        Expr::Break(a) => stack_fits(a, si),
        Expr::SetVar(_, a) => stack_fits(a, si),
    }
}

} // verus!
