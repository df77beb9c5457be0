//! A model of the processor that runs Cobra's instructions: registers, the
//! flags that the jumps read, the stack slots, and the jumps to labels.

use vstd::prelude::*;
use crate::cobra::machine::{Instr, Jump, check_instrs, overflow_instrs, choose_bool_instrs};
use crate::cobra::compile::{TRUE_VAL, FALSE_VAL, tag_bool};

verus! {

/// The state of the processor while Cobra's code runs. A slot is named by its
/// byte offset below `rbp`. `zf`, `lt` and `of` are the flags as the jumps
/// read them: equal (or zero), signed less than, and signed overflow.
/// `fault` is the code with which the runtime's error routine was called.
pub struct Machine {
    pub pc: int,
    pub rax: i64,
    pub rbx: i64,
    pub rcx: i64,
    pub rdi: i64,
    pub zf: bool,
    pub lt: bool,
    pub of: bool,
    pub mem: spec_fn(int) -> i64,
    pub fault: Option<i64>,
}

/// Whether an integer fits in 64 signed bits.
pub open spec fn in_i64(r: int) -> bool {
    i64::MIN <= r <= i64::MAX
}

/// Where label `l` stands in the program `p`.
pub open spec fn label_pos(p: Seq<Instr>, l: Seq<char>) -> int {
    choose|k: int| 0 <= k < p.len() && p[k] == Instr::Label(l)
}

/// Whether program `p` defines label `l`.
pub open spec fn has_label(p: Seq<Instr>, l: Seq<char>) -> bool {
    exists|k: int| 0 <= k < p.len() && p[k] == Instr::Label(l)
}

/// Whether no label is defined twice in `p`.
pub open spec fn labels_distinct(p: Seq<Instr>) -> bool {
    forall|i: int, j: int|
        0 <= i < p.len() && 0 <= j < p.len() && #[trigger] p[i] == #[trigger] p[j] && p[i] is Label ==> i == j
}

/// Whether a jump is taken in state `m`.
pub open spec fn taken(j: Jump, m: Machine) -> bool {
    match j {
        Jump::Jmp => true,
        Jump::Jz => m.zf,
        Jump::Je => m.zf,
        Jump::Jnz => !m.zf,
        Jump::Jno => !m.of,
        Jump::Jl => m.lt,
        Jump::Jg => !m.lt && !m.zf,
        Jump::Jle => m.lt || m.zf,
        Jump::Jge => !m.lt,
    }
}

/// The flags after an addition, subtraction, negation or multiplication whose
/// exact result is `r`: a zero result (wrapped to 64 bits), a negative exact
/// result (the sign flag differing from the overflow flag), and an overflow.
/// After a multiplication the processor defines the overflow flag alone; the
/// others are given the values they would have after an addition.
pub open spec fn arith_flags(m: Machine, r: int) -> Machine {
    Machine { zf: r as i64 == 0, lt: r < 0, of: !in_i64(r), ..m }
}

/// The state after a `test` of `x` with 1: the zero flag tells a clear lowest
/// bit; the sign and overflow flags are cleared.
pub open spec fn test_flags(m: Machine, x: i64) -> Machine {
    Machine { zf: x & 1 == 0, lt: false, of: false, ..m }
}

/// The state after a comparison of `a` with `b`.
pub open spec fn compare_flags(m: Machine, a: int, b: int) -> Machine {
    Machine { zf: a == b, lt: a < b, of: !in_i64(a - b), ..m }
}

/// What instruction `i` of program `p` does in state `m`.
pub open spec fn exec(p: Seq<Instr>, i: Instr, m: Machine) -> Machine {
    let n = Machine { pc: m.pc + 1, ..m };
    match i {
        Instr::Blank => n,
        Instr::Label(_) => n,
        Instr::Jump(j, l) => if taken(j, m) { Machine { pc: label_pos(p, l), ..m } } else { n },
        Instr::MovRaxImm(k) => Machine { rax: k as i64, ..n },
        Instr::MovRaxRdi => Machine { rax: m.rdi, ..n },
        Instr::MovRaxSlot(k) => Machine { rax: (m.mem)(k), ..n },
        Instr::MovSlotRax(k) => Machine { mem: |j: int| if j == k { m.rax } else { (m.mem)(j) }, ..n },
        Instr::MovRbxSlot(k) => Machine { rbx: (m.mem)(k), ..n },
        Instr::MovRaxRbx => Machine { rax: m.rbx, ..n },
        Instr::MovRcxRbx => Machine { rcx: m.rbx, ..n },
        Instr::MovRdiImm(k) => Machine { rdi: k as i64, ..n },
        Instr::TestRaxOne => test_flags(n, m.rax),
        Instr::TestRbxOne => test_flags(n, m.rbx),
        Instr::TestRcxOne => test_flags(n, m.rcx),
        Instr::XorRcxRax => {
            let r = m.rcx ^ m.rax;
            Machine { rcx: r, zf: r == 0, lt: r < 0, of: false, ..n }
        },
        Instr::AddRaxTwo => arith_flags(Machine { rax: (m.rax + 2) as i64, ..n }, m.rax + 2),
        Instr::SubRaxTwo => arith_flags(Machine { rax: (m.rax - 2) as i64, ..n }, m.rax - 2),
        Instr::NegRax => arith_flags(Machine { rax: (-m.rax) as i64, ..n }, -m.rax),
        Instr::SarRaxOne => {
            let r = m.rax >> 1;
            Machine { rax: r, zf: r == 0, lt: r < 0, of: false, ..n }
        },
        Instr::AddRaxRbx => arith_flags(Machine { rax: (m.rax + m.rbx) as i64, ..n }, m.rax + m.rbx),
        Instr::SubRbxRax => arith_flags(Machine { rbx: (m.rbx - m.rax) as i64, ..n }, m.rbx - m.rax),
        Instr::ImulRaxRbx => arith_flags(Machine { rax: (m.rax * m.rbx) as i64, ..n }, m.rax * m.rbx),
        Instr::CmpRbxRax => compare_flags(n, m.rbx as int, m.rax as int),
        Instr::CmpRaxImm(k) => compare_flags(n, m.rax as int, k),
        Instr::CallError => Machine { fault: Some(m.rdi), ..m },
    }
}

/// One step: the instruction at `pc` runs, unless the program has stopped,
/// by an error or by running past its last instruction.
pub open spec fn step(p: Seq<Instr>, m: Machine) -> Machine {
    if m.fault is None && 0 <= m.pc < p.len() {
        exec(p, p[m.pc], m)
    } else {
        m
    }
}

/// The state after `n` steps.
pub open spec fn steps(p: Seq<Instr>, m: Machine, n: nat) -> Machine
    decreases n,
{
    if n == 0 {
        m
    } else {
        steps(p, step(p, m), (n - 1) as nat)
    }
}

/// Whether the instructions `f` stand in program `p` from position `q` on.
pub open spec fn placed(p: Seq<Instr>, f: Seq<Instr>, q: int) -> bool {
    &&& 0 <= q
    &&& q + f.len() <= p.len()
    &&& forall|k: int| 0 <= k < f.len() ==> p[q + k] == #[trigger] f[k]
}

/// Whether two states hold the same registers, rdi and slots, and neither has
/// stopped with an error (the flags may differ).
pub open spec fn same_data(m1: Machine, m2: Machine) -> bool {
    &&& m2.rax == m1.rax
    &&& m2.rbx == m1.rbx
    &&& m2.rcx == m1.rcx
    &&& m2.rdi == m1.rdi
    &&& m2.mem == m1.mem
    &&& m1.fault is None
    &&& m2.fault is None
}

/// Running `a` steps and then `b` steps is running `a + b` steps.
pub proof fn lemma_steps_add(p: Seq<Instr>, m: Machine, a: nat, b: nat)
    ensures
        steps(p, m, a + b) == steps(p, steps(p, m, a), b),
    decreases a,
{
    if a > 0 {
        lemma_steps_add(p, step(p, m), (a - 1) as nat, b);
        assert((a + b - 1) as nat == ((a - 1) as nat + b) as nat);
    }
}

/// A program stopped by an error stays stopped.
pub proof fn lemma_steps_fault(p: Seq<Instr>, m: Machine, n: nat)
    requires
        m.fault is Some,
    ensures
        steps(p, m, n) == m,
    decreases n,
{
    if n > 0 {
        lemma_steps_fault(p, step(p, m), (n - 1) as nat);
    }
}

/// Instructions placed one after the other are each placed.
pub proof fn lemma_placed_split(p: Seq<Instr>, a: Seq<Instr>, b: Seq<Instr>, q: int)
    requires
        placed(p, a + b, q),
    ensures
        placed(p, a, q),
        placed(p, b, q + a.len()),
{
    assert forall|k: int| 0 <= k < a.len() implies p[q + k] == #[trigger] a[k] by {
        assert((a + b)[k] == a[k]);
    }
    assert forall|k: int| 0 <= k < b.len() implies p[q + a.len() + k] == #[trigger] b[k] by {
        assert((a + b)[a.len() + k] == b[k]);
    }
}

/// Where labels are distinct, a label stands where it is defined.
pub proof fn lemma_label_pos(p: Seq<Instr>, k: int, l: Seq<char>)
    requires
        labels_distinct(p),
        0 <= k < p.len(),
        p[k] == Instr::Label(l),
    ensures
        label_pos(p, l) == k,
        has_label(p, l),
{
    let j = label_pos(p, l);
    assert(0 <= j < p.len() && p[j] == Instr::Label(l));
}

/// The instruction at position `k` of placed instructions.
pub proof fn lemma_placed_at(p: Seq<Instr>, f: Seq<Instr>, q: int, k: int)
    requires
        placed(p, f, q),
        0 <= k < f.len(),
    ensures
        p[q + k] == f[k],
        0 <= q + k < p.len(),
{
}

/// A tag test: where the tested register's lowest bit is clear, control gets
/// past the lines in three steps with the data unchanged; otherwise the error
/// routine is called with code 1 after four.
pub proof fn lemma_run_check(p: Seq<Instr>, m: Machine, t: Instr, c: int)
    requires
        t == Instr::TestRaxOne || t == Instr::TestRbxOne,
        placed(p, check_instrs(t, c), m.pc),
        labels_distinct(p),
        m.fault is None,
    ensures
        ({
            let x = if t == Instr::TestRaxOne { m.rax } else { m.rbx };
            &&& x & 1 == 0 ==> steps(p, m, 3).pc == m.pc + 5 && same_data(m, steps(p, m, 3))
            &&& x & 1 != 0 ==> steps(p, m, 4).fault == Some(1i64)
        }),
{
    let f = check_instrs(t, c);
    let q = m.pc;
    let ok = crate::cobra::compile::label("num_ok"@, c);
    lemma_placed_at(p, f, q, 0);
    lemma_placed_at(p, f, q, 1);
    lemma_placed_at(p, f, q, 2);
    lemma_placed_at(p, f, q, 3);
    lemma_placed_at(p, f, q, 4);
    lemma_label_pos(p, q + 4, ok);
    reveal_with_fuel(steps, 5);
    let m1 = step(p, m);
    let m2 = step(p, m1);
    let m3 = step(p, m2);
    let m4 = step(p, m3);
    assert(steps(p, m, 3) == m3);
    assert(steps(p, m, 4) == m4);
}

/// An overflow guard: without overflow, control passes it in two steps with
/// the data unchanged; with one, the error routine is called with code 2.
pub proof fn lemma_run_overflow(p: Seq<Instr>, m: Machine, c: int)
    requires
        placed(p, overflow_instrs(c), m.pc),
        labels_distinct(p),
        m.fault is None,
    ensures
        !m.of ==> steps(p, m, 2).pc == m.pc + 4 && same_data(m, steps(p, m, 2)),
        m.of ==> steps(p, m, 3).fault == Some(2i64),
{
    let f = overflow_instrs(c);
    let q = m.pc;
    let ok = crate::cobra::compile::label("overflow_ok"@, c);
    lemma_placed_at(p, f, q, 0);
    lemma_placed_at(p, f, q, 1);
    lemma_placed_at(p, f, q, 2);
    lemma_placed_at(p, f, q, 3);
    lemma_label_pos(p, q + 3, ok);
    reveal_with_fuel(steps, 4);
    let m1 = step(p, m);
    let m2 = step(p, m1);
    let m3 = step(p, m2);
    assert(steps(p, m, 2) == m2);
    assert(steps(p, m, 3) == m3);
}

/// Setting `rax` to a boolean by a jump: after four steps control is past the
/// lines, `rax` holds `true` exactly where the jump is taken, and the other
/// data are unchanged.
pub proof fn lemma_run_choose(p: Seq<Instr>, m: Machine, pt: Seq<char>, pd: Seq<char>, j: Jump, c: int)
    requires
        placed(p, choose_bool_instrs(pt, pd, j, c), m.pc),
        labels_distinct(p),
        m.fault is None,
    ensures
        steps(p, m, 4).pc == m.pc + 6,
        steps(p, m, 4).rax == tag_bool(taken(j, m)),
        same_data(Machine { rax: steps(p, m, 4).rax, ..m }, steps(p, m, 4)),
{
    let f = choose_bool_instrs(pt, pd, j, c);
    let q = m.pc;
    let t = crate::cobra::compile::label(pt, c);
    let d = crate::cobra::compile::label(pd, c + 1);
    lemma_placed_at(p, f, q, 0);
    lemma_placed_at(p, f, q, 1);
    lemma_placed_at(p, f, q, 2);
    lemma_placed_at(p, f, q, 3);
    lemma_placed_at(p, f, q, 4);
    lemma_placed_at(p, f, q, 5);
    lemma_label_pos(p, q + 3, t);
    lemma_label_pos(p, q + 5, d);
    reveal_with_fuel(steps, 5);
    let m1 = step(p, m);
    let m2 = step(p, m1);
    let m3 = step(p, m2);
    let m4 = step(p, m3);
    assert(steps(p, m, 4) == m4);
    assert(TRUE_VAL as i64 == 3 && FALSE_VAL as i64 == 1);
}

} // verus!
