//! What the instructions of Cobra's operators compute, on the run-time
//! values of their operands.

use vstd::prelude::*;
use crate::cobra::ast::{UnOp, BinOp};
use crate::cobra::machine::{Instr, Jump, check_instrs, overflow_instrs, choose_bool_instrs, unop_instrs, binop_instrs, comparison_kind};
use crate::cobra::compile::label;
use crate::cobra::semantics::{Value, Outcome, rep, fits, unop_value, binop_value};
use crate::cobra::run::{
    Machine, in_i64, step, steps, placed, same_data, labels_distinct, lemma_steps_add, lemma_placed_split,
    lemma_placed_at, lemma_label_pos, lemma_run_check, lemma_run_overflow, lemma_run_choose,
};

verus! {

/// Whether two states hold the same slots and `rdi`, and neither has stopped
/// with an error.
pub open spec fn same_store(m1: Machine, m2: Machine) -> bool {
    &&& m2.rdi == m1.rdi
    &&& m2.mem == m1.mem
    &&& m1.fault is None
    &&& m2.fault is None
}

/// Whether `m2` is how the instructions of length `len` that start in state
/// `m` end for outcome `o`: past them with the value in `rax` and the slots
/// and `rdi` unchanged, or stopped with the error's code.
pub open spec fn finished(m: Machine, m2: Machine, len: int, o: Outcome) -> bool {
    match o {
        Outcome::Done(w) => m2.pc == m.pc + len && m2.rax == rep(w) && same_store(m, m2),
        Outcome::Fault(k) => m2.fault == Some(k as i64),
        Outcome::Broke(_) => false,
    }
}

/// The lowest bit of a value's run-time form tells a number from a boolean,
/// and a number held in 64 bits fits.
pub proof fn lemma_tag_bit(x: i64, v: Value)
    requires
        x == rep(v),
    ensures
        (x & 1 == 0) == (v is Num),
        v matches Value::Num(n) ==> fits(n),
{
    match v {
        Value::Num(n) => {
            let y: i64 = n as i64;
            assert(y == n);
            assert(x & 1 == 0) by (bit_vector)
                requires
                    x == 2 * y,
            ;
        },
        Value::Bool(b) => {
            assert(x & 1 == 1) by (bit_vector)
                requires
                    x == 3 || x == 1,
            ;
        },
    }
}

/// Shifting a number's run-time form right by one bit gives the number.
pub proof fn lemma_untag(x: i64, n: int)
    requires
        x == 2 * n,
    ensures
        x >> 1 == n,
{
    let y: i64 = n as i64;
    assert(y == n);
    assert(x >> 1 == y) by (bit_vector)
        requires
            x == 2 * y,
    ;
}

/// The lowest bit of an exclusive or tells whether the lowest bits agree.
proof fn lemma_xor_bit(a: i64, b: i64)
    ensures
        ((a ^ b) & 1 == 0) == ((a & 1 == 0) == (b & 1 == 0)),
{
    assert(((a ^ b) & 1 == 0) == ((a & 1 == 0) == (b & 1 == 0))) by (bit_vector);
}

proof fn lemma_one_step(p: Seq<Instr>, m: Machine)
    ensures
        steps(p, m, 1) == step(p, m),
{
    reveal_with_fuel(steps, 2);
}

/// An arithmetic unary operator on a number's run-time form.
#[verifier::spinoff_prover]
#[verifier::rlimit(40)]
proof fn lemma_run_arith_unop(p: Seq<Instr>, m: Machine, op: UnOp, c: int, v: Value) -> (n: nat)
    requires
        op == UnOp::Add1 || op == UnOp::Sub1 || op == UnOp::Negate,
        placed(p, unop_instrs(op, c), m.pc),
        labels_distinct(p),
        m.fault is None,
        m.rax == rep(v),
    ensures
        finished(m, steps(p, m, n), unop_instrs(op, c).len() as int, unop_value(op, v)),
{
    let q = m.pc;
    let ch = check_instrs(Instr::TestRaxOne, c);
    let mid = match op {
        UnOp::Add1 => Instr::AddRaxTwo,
        UnOp::Sub1 => Instr::SubRaxTwo,
        _ => Instr::NegRax,
    };
    let ov = overflow_instrs(c + 1);
    assert(unop_instrs(op, c) == ch + seq![mid] + ov);
    lemma_placed_split(p, ch + seq![mid], ov, q);
    lemma_placed_split(p, ch, seq![mid], q);
    lemma_tag_bit(m.rax, v);
    lemma_run_check(p, m, Instr::TestRaxOne, c);
    match v {
        Value::Bool(_) => {
            4
        },
        Value::Num(k) => {
            let m1 = steps(p, m, 3);
            lemma_placed_at(p, seq![mid], q + 5, 0);
            lemma_one_step(p, m1);
            let m2 = step(p, m1);
            let r: int = match op {
                UnOp::Add1 => 2 * (k + 1),
                UnOp::Sub1 => 2 * (k - 1),
                _ => 2 * (-k),
            };
            assert(m2.pc == q + 6 && m2.of == !in_i64(r) && m2.fault is None);
            assert(m2.rbx == m.rbx && m2.rcx == m.rcx && m2.rdi == m.rdi && m2.mem == m.mem);
            lemma_run_overflow(p, m2, c + 1);
            lemma_steps_add(p, m, 3, 1);
            if m2.of {
                lemma_steps_add(p, m, 4, 3);
                7
            } else {
                lemma_steps_add(p, m, 4, 2);
                assert(m2.rax == r);
                6
            }
        },
    }
}

/// `isnum` and `isbool` on a value's run-time form.
#[verifier::spinoff_prover]
proof fn lemma_run_tag_unop(p: Seq<Instr>, m: Machine, op: UnOp, c: int, v: Value) -> (n: nat)
    requires
        op == UnOp::IsNum || op == UnOp::IsBool,
        placed(p, unop_instrs(op, c), m.pc),
        labels_distinct(p),
        m.fault is None,
        m.rax == rep(v),
    ensures
        finished(m, steps(p, m, n), unop_instrs(op, c).len() as int, unop_value(op, v)),
{
    let q = m.pc;
    let (pt, pd, j) = if op == UnOp::IsNum {
        ("isnum_true"@, "isnum_done"@, Jump::Jz)
    } else {
        ("isbool_true"@, "isbool_done"@, Jump::Jnz)
    };
    let ch = choose_bool_instrs(pt, pd, j, c);
    assert(unop_instrs(op, c) == seq![Instr::TestRaxOne] + ch);
    lemma_placed_split(p, seq![Instr::TestRaxOne], ch, q);
    lemma_placed_at(p, seq![Instr::TestRaxOne], q, 0);
    lemma_tag_bit(m.rax, v);
    lemma_one_step(p, m);
    let m1 = step(p, m);
    lemma_run_choose(p, m1, pt, pd, j, c);
    lemma_steps_add(p, m, 1, 4);
    5
}

/// A unary operator's instructions compute [`unop_value`] of the operand.
pub proof fn lemma_run_unop(p: Seq<Instr>, m: Machine, op: UnOp, c: int, v: Value) -> (n: nat)
    requires
        placed(p, unop_instrs(op, c), m.pc),
        labels_distinct(p),
        m.fault is None,
        m.rax == rep(v),
    ensures
        finished(m, steps(p, m, n), unop_instrs(op, c).len() as int, unop_value(op, v)),
{
    if op == UnOp::IsNum || op == UnOp::IsBool {
        lemma_run_tag_unop(p, m, op, c, v)
    } else {
        lemma_run_arith_unop(p, m, op, c, v)
    }
}

/// The two tag checks of an arithmetic or ordering operator, around the load
/// of the left operand into `rbx`.
pub open spec fn operand_checks(off: int, c: int) -> Seq<Instr> {
    check_instrs(Instr::TestRaxOne, c) + seq![Instr::MovRbxSlot(off)] + check_instrs(Instr::TestRbxOne, c + 1)
}

/// Whether both values are numbers.
pub open spec fn both_numbers(v1: Value, v2: Value) -> bool {
    v1 is Num && v2 is Num
}

#[verifier::spinoff_prover]
#[verifier::rlimit(40)]
proof fn lemma_run_checks(p: Seq<Instr>, m: Machine, off: int, c: int, v1: Value, v2: Value)
    requires
        placed(p, operand_checks(off, c), m.pc),
        labels_distinct(p),
        m.fault is None,
        m.rax == rep(v2),
        (m.mem)(off) == rep(v1),
    ensures
        both_numbers(v1, v2) ==> steps(p, m, 7).pc == m.pc + 11 && same_data(
            Machine { rbx: (m.mem)(off), ..m },
            steps(p, m, 7),
        ),
        !(v2 is Num) ==> steps(p, m, 4).fault == Some(1i64),
        v2 is Num && !(v1 is Num) ==> steps(p, m, 8).fault == Some(1i64),
{
    let q = m.pc;
    let c1 = check_instrs(Instr::TestRaxOne, c);
    let c2 = check_instrs(Instr::TestRbxOne, c + 1);
    let ld = seq![Instr::MovRbxSlot(off)];
    lemma_placed_split(p, c1 + ld, c2, q);
    lemma_placed_split(p, c1, ld, q);
    lemma_tag_bit(m.rax, v2);
    lemma_run_check(p, m, Instr::TestRaxOne, c);
    if v2 is Num {
        let m1 = steps(p, m, 3);
        lemma_placed_at(p, ld, q + 5, 0);
        lemma_one_step(p, m1);
        let m2 = step(p, m1);
        assert(m2.rbx == (m.mem)(off) && m2.pc == q + 6);
        lemma_tag_bit(m2.rbx, v1);
        lemma_run_check(p, m2, Instr::TestRbxOne, c + 1);
        lemma_steps_add(p, m, 3, 1);
        lemma_steps_add(p, m, 4, 3);
        lemma_steps_add(p, m, 4, 4);
    }
}

/// Addition and subtraction of two numbers' run-time forms.
#[verifier::spinoff_prover]
#[verifier::rlimit(60)]
proof fn lemma_run_add_sub(p: Seq<Instr>, m: Machine, op: BinOp, off: int, c: int, v1: Value, v2: Value) -> (n: nat)
    requires
        op == BinOp::Plus || op == BinOp::Minus,
        placed(p, binop_instrs(op, off, c), m.pc),
        labels_distinct(p),
        m.fault is None,
        m.rax == rep(v2),
        (m.mem)(off) == rep(v1),
    ensures
        finished(m, steps(p, m, n), binop_instrs(op, off, c).len() as int, binop_value(op, v1, v2)),
{
    let q = m.pc;
    let chk = operand_checks(off, c);
    let mids = if op == BinOp::Plus { seq![Instr::AddRaxRbx] } else { seq![Instr::SubRbxRax, Instr::MovRaxRbx] };
    let ov = overflow_instrs(c + 2);
    assert(binop_instrs(op, off, c) == chk + mids + ov);
    lemma_placed_split(p, chk + mids, ov, q);
    lemma_placed_split(p, chk, mids, q);
    lemma_run_checks(p, m, off, c, v1, v2);
    lemma_tag_bit(m.rax, v2);
    lemma_tag_bit((m.mem)(off), v1);
    if !(v2 is Num) {
        4
    } else if !(v1 is Num) {
        8
    } else {
        let a = v1->Num_0;
        let b = v2->Num_0;
        let m1 = steps(p, m, 7);
        lemma_placed_at(p, mids, q + 11, 0);
        lemma_one_step(p, m1);
        let m2 = step(p, m1);
        if op == BinOp::Plus {
            assert(m2.pc == q + 12 && m2.of == !in_i64(2 * (a + b)) && m2.fault is None);
            assert(!m2.of ==> m2.rax == 2 * (a + b));
            lemma_run_overflow(p, m2, c + 2);
            lemma_steps_add(p, m, 7, 1);
            if m2.of {
                lemma_steps_add(p, m, 8, 3);
                11
            } else {
                lemma_steps_add(p, m, 8, 2);
                10
            }
        } else {
            lemma_placed_at(p, mids, q + 11, 1);
            lemma_one_step(p, m2);
            let m3 = step(p, m2);
            assert(m3.pc == q + 13 && m3.of == !in_i64(2 * (a - b)) && m3.fault is None);
            assert(!m3.of ==> m3.rax == 2 * (a - b));
            lemma_run_overflow(p, m3, c + 2);
            lemma_steps_add(p, m, 7, 1);
            lemma_steps_add(p, m, 8, 1);
            if m3.of {
                lemma_steps_add(p, m, 9, 3);
                12
            } else {
                lemma_steps_add(p, m, 9, 2);
                11
            }
        }
    }
}

/// Multiplication of two numbers' run-time forms.
#[verifier::spinoff_prover]
#[verifier::rlimit(60)]
proof fn lemma_run_times(p: Seq<Instr>, m: Machine, off: int, c: int, v1: Value, v2: Value) -> (n: nat)
    requires
        placed(p, binop_instrs(BinOp::Times, off, c), m.pc),
        labels_distinct(p),
        m.fault is None,
        m.rax == rep(v2),
        (m.mem)(off) == rep(v1),
    ensures
        finished(m, steps(p, m, n), binop_instrs(BinOp::Times, off, c).len() as int, binop_value(BinOp::Times, v1, v2)),
{
    let q = m.pc;
    let c1 = check_instrs(Instr::TestRaxOne, c);
    let m1s = seq![Instr::SarRaxOne, Instr::MovRbxSlot(off)];
    let c2 = check_instrs(Instr::TestRbxOne, c + 1);
    let mul = seq![Instr::ImulRaxRbx];
    let ov = overflow_instrs(c + 2);
    assert(binop_instrs(BinOp::Times, off, c) == c1 + m1s + c2 + mul + ov);
    lemma_placed_split(p, c1 + m1s + c2 + mul, ov, q);
    lemma_placed_split(p, c1 + m1s + c2, mul, q);
    lemma_placed_split(p, c1 + m1s, c2, q);
    lemma_placed_split(p, c1, m1s, q);
    lemma_tag_bit(m.rax, v2);
    lemma_tag_bit((m.mem)(off), v1);
    lemma_run_check(p, m, Instr::TestRaxOne, c);
    if !(v2 is Num) {
        4
    } else {
        let b = v2->Num_0;
        let s1 = steps(p, m, 3);
        lemma_placed_at(p, m1s, q + 5, 0);
        lemma_placed_at(p, m1s, q + 5, 1);
        lemma_one_step(p, s1);
        let s2 = step(p, s1);
        lemma_untag(m.rax, b);
        assert(s2.rax == b);
        lemma_one_step(p, s2);
        let s3 = step(p, s2);
        assert(s3.pc == q + 7 && s3.rbx == (m.mem)(off) && s3.rax == b && s3.fault is None);
        lemma_run_check(p, s3, Instr::TestRbxOne, c + 1);
        lemma_steps_add(p, m, 3, 1);
        lemma_steps_add(p, m, 4, 1);
        if !(v1 is Num) {
            lemma_steps_add(p, m, 5, 4);
            9
        } else {
            let a = v1->Num_0;
            let s4 = steps(p, s3, 3);
            lemma_steps_add(p, m, 5, 3);
            lemma_placed_at(p, mul, q + 12, 0);
            lemma_one_step(p, s4);
            let s5 = step(p, s4);
            assert(b * (2 * a) == 2 * (a * b)) by (nonlinear_arith);
            assert(s5.pc == q + 13 && s5.of == !in_i64(2 * (a * b)) && s5.fault is None);
            assert(!s5.of ==> s5.rax == 2 * (a * b));
            lemma_run_overflow(p, s5, c + 2);
            lemma_steps_add(p, m, 8, 1);
            if s5.of {
                lemma_steps_add(p, m, 9, 3);
                12
            } else {
                lemma_steps_add(p, m, 9, 2);
                11
            }
        }
    }
}

/// An ordering of two numbers' run-time forms.
#[verifier::spinoff_prover]
#[verifier::rlimit(60)]
proof fn lemma_run_order(p: Seq<Instr>, m: Machine, op: BinOp, off: int, c: int, v1: Value, v2: Value) -> (n: nat)
    requires
        op == BinOp::Less || op == BinOp::Greater || op == BinOp::LessEqual || op == BinOp::GreaterEqual,
        placed(p, binop_instrs(op, off, c), m.pc),
        labels_distinct(p),
        m.fault is None,
        m.rax == rep(v2),
        (m.mem)(off) == rep(v1),
    ensures
        finished(m, steps(p, m, n), binop_instrs(op, off, c).len() as int, binop_value(op, v1, v2)),
{
    let q = m.pc;
    let chk = operand_checks(off, c);
    let compare_line = seq![Instr::CmpRbxRax];
    let j = comparison_kind(op);
    let ch = choose_bool_instrs("bool_true"@, "bool_done"@, j, c + 2);
    assert(binop_instrs(op, off, c) == chk + compare_line + ch);
    lemma_placed_split(p, chk + compare_line, ch, q);
    lemma_placed_split(p, chk, compare_line, q);
    lemma_run_checks(p, m, off, c, v1, v2);
    lemma_tag_bit(m.rax, v2);
    lemma_tag_bit((m.mem)(off), v1);
    if !(v2 is Num) {
        4
    } else if !(v1 is Num) {
        8
    } else {
        let a = v1->Num_0;
        let b = v2->Num_0;
        let m1 = steps(p, m, 7);
        lemma_placed_at(p, compare_line, q + 11, 0);
        lemma_one_step(p, m1);
        let m2 = step(p, m1);
        assert(m2.pc == q + 12 && m2.zf == (a == b) && m2.lt == (a < b) && m2.fault is None);
        lemma_run_choose(p, m2, "bool_true"@, "bool_done"@, j, c + 2);
        lemma_steps_add(p, m, 7, 1);
        lemma_steps_add(p, m, 8, 4);
        12
    }
}

/// Equality of two values' run-time forms.
#[verifier::spinoff_prover]
#[verifier::rlimit(60)]
proof fn lemma_run_equal(p: Seq<Instr>, m: Machine, off: int, c: int, v1: Value, v2: Value) -> (n: nat)
    requires
        placed(p, binop_instrs(BinOp::Equal, off, c), m.pc),
        labels_distinct(p),
        m.fault is None,
        m.rax == rep(v2),
        (m.mem)(off) == rep(v1),
    ensures
        finished(m, steps(p, m, n), binop_instrs(BinOp::Equal, off, c).len() as int, binop_value(BinOp::Equal, v1, v2)),
{
    let q = m.pc;
    let ok = label("eq_type_ok"@, c);
    let first = seq![
        Instr::MovRbxSlot(off),
        Instr::MovRcxRbx,
        Instr::XorRcxRax,
        Instr::TestRcxOne,
        Instr::Jump(Jump::Jz, ok),
        Instr::MovRdiImm(1),
        Instr::CallError,
        Instr::Label(ok),
        Instr::CmpRbxRax,
    ];
    let ch = choose_bool_instrs("bool_true"@, "bool_done"@, Jump::Je, c + 1);
    assert(binop_instrs(BinOp::Equal, off, c) == first + ch);
    lemma_placed_split(p, first, ch, q);
    lemma_placed_at(p, first, q, 0);
    lemma_placed_at(p, first, q, 1);
    lemma_placed_at(p, first, q, 2);
    lemma_placed_at(p, first, q, 3);
    lemma_placed_at(p, first, q, 4);
    lemma_placed_at(p, first, q, 5);
    lemma_placed_at(p, first, q, 6);
    lemma_placed_at(p, first, q, 7);
    lemma_placed_at(p, first, q, 8);
    lemma_label_pos(p, q + 7, ok);
    let x1 = (m.mem)(off);
    lemma_tag_bit(m.rax, v2);
    lemma_tag_bit(x1, v1);
    lemma_xor_bit(x1, m.rax);
    reveal_with_fuel(steps, 8);
    let s1 = step(p, m);
    let s2 = step(p, s1);
    let s3 = step(p, s2);
    let s4 = step(p, s3);
    let s5 = step(p, s4);
    let s6 = step(p, s5);
    let s7 = step(p, s6);
    assert(s3.rcx == x1 ^ m.rax);
    assert(s4.zf == ((v1 is Num) == (v2 is Num)));
    assert(steps(p, m, 7) == s7);
    if (v1 is Num) == (v2 is Num) {
        assert(s7.pc == q + 9 && s7.zf == (x1 == m.rax) && s7.fault is None && same_store(m, s7));
        assert((x1 == m.rax) == (v1 == v2));
        lemma_run_choose(p, s7, "bool_true"@, "bool_done"@, Jump::Je, c + 1);
        lemma_steps_add(p, m, 7, 4);
        11
    } else {
        7
    }
}

/// A binary operator's instructions compute [`binop_value`] of the left
/// operand, saved at offset `off`, and the right operand, in `rax`.
pub proof fn lemma_run_binop(p: Seq<Instr>, m: Machine, op: BinOp, off: int, c: int, v1: Value, v2: Value) -> (n: nat)
    requires
        placed(p, binop_instrs(op, off, c), m.pc),
        labels_distinct(p),
        m.fault is None,
        m.rax == rep(v2),
        (m.mem)(off) == rep(v1),
    ensures
        finished(m, steps(p, m, n), binop_instrs(op, off, c).len() as int, binop_value(op, v1, v2)),
{
    match op {
        BinOp::Plus => lemma_run_add_sub(p, m, op, off, c, v1, v2),
        BinOp::Minus => lemma_run_add_sub(p, m, op, off, c, v1, v2),
        BinOp::Times => lemma_run_times(p, m, off, c, v1, v2),
        BinOp::Equal => lemma_run_equal(p, m, off, c, v1, v2),
        _ => lemma_run_order(p, m, op, off, c, v1, v2),
    }
}

} // verus!
