//! What Boa's generated code means: the instructions its text spells, and a
//! model of the machine state they change.

use vstd::prelude::*;
use crate::text::decimal;
use crate::cobra::compile::slot_offset;
use crate::boa::ast::{Op1, Op2, ExprV};
use crate::cobra::compile::{SI_MIN, SI_MAX};
use crate::sexpr::SExpV;
use crate::boa::parse::parse_spec;
use crate::boa::program::{program_spec, program_text, FIRST_SLOT};
use crate::boa::compile::{
    slot_text, compile_spec, let_spec, scope_fault, binds_fault, names_of, slots_fit, binds_fit,
    lemma_binds_mono, lemma_names_step,
};

verus! {

/// The instructions that Boa's code generator emits. A slot is given by its
/// byte offset below `rsp`.
pub enum Instr {
    MovRaxImm(int),
    MovRaxSlot(int),
    MovSlotRax(int),
    AddRaxOne,
    SubRaxOne,
    AddRaxSlot(int),
    MovRbxSlot(int),
    SubRbxRax,
    MovRaxRbx,
    ImulRaxSlot(int),
}

/// The assembly line of an instruction.
pub open spec fn render_instr(i: Instr) -> Seq<char> {
    match i {
        Instr::MovRaxImm(n) => "mov rax, "@ + decimal(n),
        Instr::MovRaxSlot(k) => "mov rax, "@ + slot_text(k),
        Instr::MovSlotRax(k) => "mov "@ + slot_text(k) + ", rax"@,
        Instr::AddRaxOne => "add rax, 1"@,
        Instr::SubRaxOne => "sub rax, 1"@,
        Instr::AddRaxSlot(k) => "add rax, "@ + slot_text(k),
        Instr::MovRbxSlot(k) => "mov rbx, "@ + slot_text(k),
        Instr::SubRbxRax => "sub rbx, rax"@,
        Instr::MovRaxRbx => "mov rax, rbx"@,
        Instr::ImulRaxSlot(k) => "imul rax, "@ + slot_text(k),
    }
}

/// The lines of a list of instructions, joined by newlines.
pub open spec fn render_code(is: Seq<Instr>) -> Seq<char>
    decreases is.len(),
{
    if is.len() == 0 {
        Seq::empty()
    } else if is.len() == 1 {
        render_instr(is[0])
    } else {
        render_code(is.drop_last()) + "\n"@ + render_instr(is.last())
    }
}

/// The environment after the first `i` bindings of a `let` at stack index
/// `si`: binding `k` lives in slot `si + k`.
pub open spec fn let_env(bs: Seq<(Seq<char>, ExprV)>, i: int, si: int, env: Map<Seq<char>, i32>) -> Map<Seq<char>, i32>
    decreases i,
{
    if i <= 0 || i > bs.len() {
        env
    } else {
        let_env(bs, i - 1, si, env).insert(bs[i - 1].0, slot_offset(si + i - 1) as i32)
    }
}

/// The instructions of an expression at stack index `si` in environment
/// `env`.
pub open spec fn instrs_spec(e: ExprV, si: int, env: Map<Seq<char>, i32>) -> Seq<Instr>
    decreases e, 0int,
{
    match e {
        ExprV::Number(n) => seq![Instr::MovRaxImm(n as int)],
        ExprV::Id(x) => seq![Instr::MovRaxSlot(env[x] as int)],
        ExprV::UnOp(op, a) => instrs_spec(*a, si, env).push(
            match op {
                Op1::Add1 => Instr::AddRaxOne,
                Op1::Sub1 => Instr::SubRaxOne,
            },
        ),
        ExprV::BinOp(op, l, r) => {
            let off = slot_offset(si);
            instrs_spec(*l, si, env) + seq![Instr::MovSlotRax(off)] + instrs_spec(*r, si + 1, env)
                + op2_instrs(op, off)
        },
        ExprV::Let(bs, body) => let_instrs(bs, bs.len() as int, si, env) + instrs_spec(
            *body,
            si + bs.len(),
            let_env(bs, bs.len() as int, si, env),
        ),
    }
}

/// The instructions of the first `i` bindings of a `let`: each binding's
/// code, then the store of its value into its slot.
pub open spec fn let_instrs(bs: Seq<(Seq<char>, ExprV)>, i: int, si: int, env: Map<Seq<char>, i32>) -> Seq<Instr>
    decreases bs, i,
{
    if i <= 0 || i > bs.len() {
        Seq::empty()
    } else {
        let before = let_env(bs, i - 1, si, env);
        let_instrs(bs, i - 1, si, env) + instrs_spec(bs[i - 1].1, si + i - 1, before) + seq![
            Instr::MovSlotRax(slot_offset(si + i - 1)),
        ]
    }
}

/// Joining two non-empty lists of lines joins their texts with a newline.
pub proof fn lemma_render_append(a: Seq<Instr>, b: Seq<Instr>)
    requires
        a.len() > 0,
        b.len() > 0,
    ensures
        render_code(a + b) == render_code(a) + "\n"@ + render_code(b),
    decreases b.len(),
{
    if b.len() == 1 {
        assert((a + b).drop_last() =~= a);
        assert((a + b).last() == b[0]);
    } else {
        lemma_render_append(a, b.drop_last());
        assert((a + b).drop_last() =~= a + b.drop_last());
        assert((a + b).last() == b.last());
        assert(render_code(a + b) =~= render_code(a) + "\n"@ + render_code(b));
    }
}

proof fn lemma_render_one(i: Instr)
    ensures
        render_code(seq![i]) == render_instr(i),
{
}

/// The instructions that follow the operands of a binary operator whose
/// left operand is saved at offset `off`.
pub open spec fn op2_instrs(op: Op2, off: int) -> Seq<Instr> {
    match op {
        Op2::Plus => seq![Instr::AddRaxSlot(off)],
        Op2::Minus => seq![Instr::MovRbxSlot(off), Instr::SubRbxRax, Instr::MovRaxRbx],
        Op2::Times => seq![Instr::ImulRaxSlot(off)],
    }
}

proof fn lemma_op2_tail(op: Op2, off: int)
    ensures
        op2_instrs(op, off).len() > 0,
        op == Op2::Plus ==> render_code(op2_instrs(op, off)) == "add rax, "@ + slot_text(off),
        op == Op2::Times ==> render_code(op2_instrs(op, off)) == "imul rax, "@ + slot_text(off),
        op == Op2::Minus ==> render_code(op2_instrs(op, off)) == "mov rbx, "@ + slot_text(off)
            + "\n"@ + "sub rbx, rax"@ + "\n"@ + "mov rax, rbx"@,
{
    if op == Op2::Minus {
        let t = op2_instrs(op, off);
        let t1 = seq![Instr::MovRbxSlot(off), Instr::SubRbxRax];
        assert(t1.drop_last() =~= seq![Instr::MovRbxSlot(off)]);
        assert(t.drop_last() =~= t1);
        assert(t1.len() == 2 && t1.last() == Instr::SubRbxRax);
        assert(t.len() == 3 && t.last() == Instr::MovRaxRbx);
        lemma_render_one(Instr::MovRbxSlot(off));
        assert(render_code(t1) == render_instr(Instr::MovRbxSlot(off)) + "\n"@ + render_instr(Instr::SubRbxRax));
        assert(render_code(t) =~= render_code(t1) + "\n"@ + render_instr(Instr::MovRaxRbx));
    }
}

#[verifier::spinoff_prover]
#[verifier::rlimit(40)]
proof fn lemma_binop_text(op: Op2, il: Seq<Instr>, ir: Seq<Instr>, off: int)
    requires
        il.len() > 0,
        ir.len() > 0,
    ensures
        crate::boa::compile::op2_text(op, render_code(il), render_code(ir), off) == render_code(
            il + seq![Instr::MovSlotRax(off)] + ir + op2_instrs(op, off),
        ),
{
    reveal_strlit("\n");
    reveal_strlit("\nmov ");
    reveal_strlit("mov ");
    reveal_strlit(", rax\n");
    reveal_strlit(", rax");
    reveal_strlit("\nadd rax, ");
    reveal_strlit("\nmov rbx, ");
    reveal_strlit("\nsub rbx, rax\nmov rax, rbx");
    reveal_strlit("sub rbx, rax");
    reveal_strlit("mov rax, rbx");
    reveal_strlit("\nimul rax, ");
    reveal_strlit("add rax, ");
    reveal_strlit("mov rbx, ");
    reveal_strlit("imul rax, ");
    let st = seq![Instr::MovSlotRax(off)];
    let tail = op2_instrs(op, off);
    lemma_op2_tail(op, off);
    lemma_render_append(il, st);
    lemma_render_append(il + st, ir);
    lemma_render_append(il + st + ir, tail);
    assert(crate::boa::compile::op2_text(op, render_code(il), render_code(ir), off) =~= render_code(
        il + st + ir + tail,
    ));
}

proof fn lemma_unop_text(op: Op1, ia: Seq<Instr>)
    requires
        ia.len() > 0,
    ensures
        render_code(ia) + (match op {
            Op1::Add1 => "\nadd rax, 1"@,
            Op1::Sub1 => "\nsub rax, 1"@,
        }) == render_code(ia.push(
            match op {
                Op1::Add1 => Instr::AddRaxOne,
                Op1::Sub1 => Instr::SubRaxOne,
            },
        )),
{
    reveal_strlit("\n");
    reveal_strlit("\nadd rax, 1");
    reveal_strlit("add rax, 1");
    reveal_strlit("\nsub rax, 1");
    reveal_strlit("sub rax, 1");
    let last = match op {
        Op1::Add1 => Instr::AddRaxOne,
        Op1::Sub1 => Instr::SubRaxOne,
    };
    assert(ia.push(last).drop_last() =~= ia);
    assert(ia.push(last).last() == last);
    assert(render_code(ia) + (match op {
        Op1::Add1 => "\nadd rax, 1"@,
        Op1::Sub1 => "\nsub rax, 1"@,
    }) =~= render_code(ia.push(last)));
}

/// The text that the code generator emits for an expression is the text of a
/// non-empty list of instructions, [`instrs_spec`].
pub proof fn law_code_is_instrs(e: ExprV, si: int, env: Map<Seq<char>, i32>)
    ensures
        compile_spec(e, si, env) == render_code(instrs_spec(e, si, env)),
        instrs_spec(e, si, env).len() > 0,
    decreases e, 0int,
{
    match e {
        ExprV::Number(n) => {
            lemma_render_one(Instr::MovRaxImm(n as int));
        },
        ExprV::Id(x) => {
            lemma_render_one(Instr::MovRaxSlot(env[x] as int));
        },
        ExprV::UnOp(op, a) => {
            law_code_is_instrs(*a, si, env);
            lemma_unop_text(op, instrs_spec(*a, si, env));
        },
        ExprV::BinOp(op, l, r) => {
            law_code_is_instrs(*l, si, env);
            law_code_is_instrs(*r, si + 1, env);
            lemma_binop_text(op, instrs_spec(*l, si, env), instrs_spec(*r, si + 1, env), slot_offset(si));
            assert(instrs_spec(e, si, env) == instrs_spec(*l, si, env) + seq![Instr::MovSlotRax(slot_offset(si))]
                + instrs_spec(*r, si + 1, env) + op2_instrs(op, slot_offset(si)));
        },
        ExprV::Let(bs, body) => {
            let n = bs.len() as int;
            lemma_let_code(bs, n, si, env);
            let benv = let_env(bs, n, si, env);
            law_code_is_instrs(*body, si + n, benv);
            if n == 0 {
                assert(let_instrs(bs, 0, si, env) + instrs_spec(*body, si, benv) =~= instrs_spec(*body, si, benv));
            } else {
                reveal_strlit("\n");
                lemma_render_append(let_instrs(bs, n, si, env), instrs_spec(*body, si + n, benv));
            }
        },
    }
}

proof fn lemma_let_code(bs: Seq<(Seq<char>, ExprV)>, i: int, si: int, env: Map<Seq<char>, i32>)
    requires
        0 <= i <= bs.len(),
    ensures
        let_spec(bs, i, si, env).env == let_env(bs, i, si, env),
        let_spec(bs, i, si, env).si == si + i,
        i > 0 ==> let_instrs(bs, i, si, env).len() > 0,
        i > 0 ==> let_spec(bs, i, si, env).code == render_code(let_instrs(bs, i, si, env)),
    decreases bs, i,
{
    reveal_strlit("\n");
    reveal_strlit("\nmov ");
    reveal_strlit("mov ");
    if i > 0 {
        lemma_let_code(bs, i - 1, si, env);
        let before = let_env(bs, i - 1, si, env);
        let ie = instrs_spec(bs[i - 1].1, si + i - 1, before);
        law_code_is_instrs(bs[i - 1].1, si + i - 1, before);
        let st = seq![Instr::MovSlotRax(slot_offset(si + i - 1))];
        lemma_render_append(ie, st);
        if i == 1 {
            assert(let_instrs(bs, 0, si, env) + ie + st =~= ie + st);
            assert(let_spec(bs, i, si, env).code =~= render_code(let_instrs(bs, i, si, env)));
        } else {
            let prev = let_instrs(bs, i - 1, si, env);
            lemma_render_append(prev, ie + st);
            assert(prev + ie + st =~= prev + (ie + st));
            assert(let_spec(bs, i, si, env).code =~= render_code(let_instrs(bs, i, si, env)));
        }
    }
}


/// The registers and the stack slots that Boa's code uses. A slot is named by
/// its byte offset below `rsp`.
pub struct Machine {
    pub rax: i64,
    pub rbx: i64,
    pub mem: spec_fn(int) -> i64,
}

/// What one instruction does to the machine (64-bit arithmetic wraps).
pub open spec fn step(m: Machine, i: Instr) -> Machine {
    match i {
        Instr::MovRaxImm(n) => Machine { rax: n as i64, ..m },
        Instr::MovRaxSlot(k) => Machine { rax: (m.mem)(k), ..m },
        Instr::MovSlotRax(k) => Machine {
            mem: |j: int| if j == k { m.rax } else { (m.mem)(j) },
            ..m
        },
        Instr::AddRaxOne => Machine { rax: (m.rax + 1) as i64, ..m },
        Instr::SubRaxOne => Machine { rax: (m.rax - 1) as i64, ..m },
        Instr::AddRaxSlot(k) => Machine { rax: (m.rax + (m.mem)(k)) as i64, ..m },
        Instr::MovRbxSlot(k) => Machine { rbx: (m.mem)(k), ..m },
        Instr::SubRbxRax => Machine { rbx: (m.rbx - m.rax) as i64, ..m },
        Instr::MovRaxRbx => Machine { rax: m.rbx, ..m },
        Instr::ImulRaxSlot(k) => Machine { rax: (m.rax * (m.mem)(k)) as i64, ..m },
    }
}

/// What a list of instructions does to the machine, run in order.
pub open spec fn run(m: Machine, is: Seq<Instr>) -> Machine
    decreases is.len(),
{
    if is.len() == 0 {
        m
    } else {
        step(run(m, is.drop_last()), is.last())
    }
}

/// The value of a Boa expression where each variable has the value `vars`
/// gives it, in the 64-bit wrapping arithmetic of the machine.
pub open spec fn eval(e: ExprV, vars: Map<Seq<char>, i64>) -> i64
    decreases e, 0int,
{
    match e {
        ExprV::Number(n) => n as i64,
        ExprV::Id(x) => vars[x],
        ExprV::UnOp(Op1::Add1, a) => (eval(*a, vars) + 1) as i64,
        ExprV::UnOp(Op1::Sub1, a) => (eval(*a, vars) - 1) as i64,
        ExprV::BinOp(Op2::Plus, l, r) => (eval(*l, vars) + eval(*r, vars)) as i64,
        ExprV::BinOp(Op2::Minus, l, r) => (eval(*l, vars) - eval(*r, vars)) as i64,
        ExprV::BinOp(Op2::Times, l, r) => (eval(*l, vars) * eval(*r, vars)) as i64,
        ExprV::Let(bs, body) => eval(*body, let_vars(bs, bs.len() as int, vars)),
    }
}

/// The values after the first `i` bindings of a `let`: each binding's value
/// is taken with the bindings before it in scope.
pub open spec fn let_vars(bs: Seq<(Seq<char>, ExprV)>, i: int, vars: Map<Seq<char>, i64>) -> Map<Seq<char>, i64>
    decreases bs, i,
{
    if i <= 0 || i > bs.len() {
        vars
    } else {
        let before = let_vars(bs, i - 1, vars);
        before.insert(bs[i - 1].0, eval(bs[i - 1].1, before))
    }
}

/// Whether the slot of each variable of `env` holds its value in `vars`.
pub open spec fn holds_vars(m: Machine, env: Map<Seq<char>, i32>, vars: Map<Seq<char>, i64>) -> bool {
    forall|x: Seq<char>| #[trigger] env.dom().contains(x) ==> (m.mem)(env[x] as int) == vars[x]
}

/// Whether every variable of `env` lives in a slot below stack index `si`.
pub open spec fn vars_below(env: Map<Seq<char>, i32>, si: int) -> bool {
    forall|x: Seq<char>| #[trigger] env.dom().contains(x) ==> env[x] < slot_offset(si)
}

/// Whether two machines hold the same values in all slots below offset `bound`.
pub open spec fn same_below(m1: Machine, m2: Machine, bound: int) -> bool {
    forall|k: int| k < bound ==> #[trigger] (m1.mem)(k) == (m2.mem)(k)
}

/// Running two lists of instructions one after the other is running them
/// joined.
pub proof fn lemma_run_append(m: Machine, a: Seq<Instr>, b: Seq<Instr>)
    ensures
        run(m, a + b) == run(run(m, a), b),
    decreases b.len(),
{
    if b.len() == 0 {
        assert(a + b =~= a);
    } else {
        lemma_run_append(m, a, b.drop_last());
        assert((a + b).drop_last() =~= a + b.drop_last());
        assert((a + b).last() == b.last());
    }
}

proof fn lemma_run_one(m: Machine, i: Instr)
    ensures
        run(m, seq![i]) == step(m, i),
{
    assert(seq![i].drop_last() =~= Seq::<Instr>::empty());
    assert(seq![i].len() == 1);
    assert(seq![i].last() == i);
    assert(run(m, Seq::<Instr>::empty()) == m);
}

proof fn lemma_op2_run(op: Op2, off: int, m: Machine)
    ensures
        run(m, op2_instrs(op, off)).mem == m.mem,
        run(m, op2_instrs(op, off)).rax == match op {
            Op2::Plus => (m.rax + (m.mem)(off)) as i64,
            Op2::Minus => ((m.mem)(off) - m.rax) as i64,
            Op2::Times => (m.rax * (m.mem)(off)) as i64,
        },
{
    let t = op2_instrs(op, off);
    match op {
        Op2::Plus => {
            lemma_run_one(m, Instr::AddRaxSlot(off));
            assert(t == seq![Instr::AddRaxSlot(off)]);
            assert(step(m, Instr::AddRaxSlot(off)).mem == m.mem);
        },
        Op2::Minus => {
            let t1 = seq![Instr::MovRbxSlot(off), Instr::SubRbxRax];
            assert(t.drop_last() =~= t1);
            assert(t1.drop_last() =~= seq![Instr::MovRbxSlot(off)]);
            assert(t.len() == 3 && t.last() == Instr::MovRaxRbx);
            assert(t1.len() == 2 && t1.last() == Instr::SubRbxRax);
            lemma_run_one(m, Instr::MovRbxSlot(off));
            let a = step(m, Instr::MovRbxSlot(off));
            let b = step(a, Instr::SubRbxRax);
            assert(run(m, t1) == b);
            assert(run(m, t) == step(b, Instr::MovRaxRbx));
        },
        Op2::Times => {
            lemma_run_one(m, Instr::ImulRaxSlot(off));
        },
    }
}

/// The code of an expression computes its value: run on a machine whose
/// stack slots hold the values of the variables in scope (all below the
/// expression's stack index), its instructions leave the expression's value
/// in `rax` and change no slot below that stack index.
pub proof fn law_code_computes(e: ExprV, si: int, env: Map<Seq<char>, i32>, vars: Map<Seq<char>, i64>, m: Machine)
    requires
        scope_fault(e, env.dom()) is None,
        slots_fit(e, si),
        vars_below(env, si),
        holds_vars(m, env, vars),
    ensures
        run(m, instrs_spec(e, si, env)).rax == eval(e, vars),
        same_below(run(m, instrs_spec(e, si, env)), m, slot_offset(si)),
    decreases e, 0int,
{
    match e {
        ExprV::Number(n) => {
            lemma_run_one(m, Instr::MovRaxImm(n as int));
        },
        ExprV::Id(x) => {
            lemma_run_one(m, Instr::MovRaxSlot(env[x] as int));
        },
        ExprV::UnOp(op, a) => {
            law_code_computes(*a, si, env, vars, m);
            let ia = instrs_spec(*a, si, env);
            let last = match op {
                Op1::Add1 => Instr::AddRaxOne,
                Op1::Sub1 => Instr::SubRaxOne,
            };
            assert(ia.push(last).drop_last() =~= ia);
        },
        ExprV::BinOp(op, l, r) => {
            let off = slot_offset(si);
            let il = instrs_spec(*l, si, env);
            let ir = instrs_spec(*r, si + 1, env);
            let st = seq![Instr::MovSlotRax(off)];
            law_code_computes(*l, si, env, vars, m);
            let m1 = run(m, il);
            let m2 = step(m1, Instr::MovSlotRax(off));
            assert(holds_vars(m2, env, vars)) by {
                assert forall|x: Seq<char>| #[trigger] env.dom().contains(x) implies (m2.mem)(env[x] as int) == vars[x] by {
                    assert((m1.mem)(env[x] as int) == (m.mem)(env[x] as int));
                }
            }
            assert(vars_below(env, si + 1)) by {
                assert forall|x: Seq<char>| #[trigger] env.dom().contains(x) implies env[x] < slot_offset(si + 1) by {}
            }
            law_code_computes(*r, si + 1, env, vars, m2);
            let m3 = run(m2, ir);
            assert((m3.mem)(off) == eval(*l, vars));
            lemma_run_one(m1, Instr::MovSlotRax(off));
            lemma_run_append(m, il, st);
            lemma_run_append(m, il + st, ir);
            lemma_run_append(m, il + st + ir, op2_instrs(op, off));
            assert(run(m, il + st + ir) == m3);
            let t = op2_instrs(op, off);
            let m4 = run(m3, t);
            lemma_op2_run(op, off, m3);
            if op == Op2::Times {
                assert(m3.rax * (m3.mem)(off) == eval(*l, vars) * eval(*r, vars)) by (nonlinear_arith)
                    requires
                        m3.rax == eval(*r, vars),
                        (m3.mem)(off) == eval(*l, vars),
                ;
            }
            assert(instrs_spec(e, si, env) == il + st + ir + t);
            assert(same_below(m4, m, off)) by {
                assert forall|k: int| k < off implies #[trigger] (m4.mem)(k) == (m.mem)(k) by {
                    assert((m3.mem)(k) == (m2.mem)(k));
                    assert((m1.mem)(k) == (m.mem)(k));
                }
            }
        },
        ExprV::Let(bs, body) => {
            let n = bs.len() as int;
            lemma_let_run(bs, n, si, env, vars, m);
            let mb = run(m, let_instrs(bs, n, si, env));
            let benv = let_env(bs, n, si, env);
            let bvars = let_vars(bs, n, vars);
            assert(bs.take(n) =~= bs);
            law_code_computes(*body, si + n, benv, bvars, mb);
            lemma_run_append(m, let_instrs(bs, n, si, env), instrs_spec(*body, si + n, benv));
            let mf = run(mb, instrs_spec(*body, si + n, benv));
            assert(same_below(mf, m, slot_offset(si))) by {
                assert forall|k: int| k < slot_offset(si) implies #[trigger] (mf.mem)(k) == (m.mem)(k) by {
                    assert((mf.mem)(k) == (mb.mem)(k));
                }
            }
        },
    }
}

proof fn lemma_let_run(bs: Seq<(Seq<char>, ExprV)>, i: int, si: int, env: Map<Seq<char>, i32>, vars: Map<Seq<char>, i64>, m: Machine)
    requires
        0 <= i <= bs.len(),
        binds_fault(bs, bs.len() as int, env.dom()) is None,
        binds_fit(bs, bs.len() as int, si),
        vars_below(env, si),
        holds_vars(m, env, vars),
    ensures
        let_env(bs, i, si, env).dom() == env.dom() + names_of(bs.take(i)),
        vars_below(let_env(bs, i, si, env), si + i),
        holds_vars(run(m, let_instrs(bs, i, si, env)), let_env(bs, i, si, env), let_vars(bs, i, vars)),
        same_below(run(m, let_instrs(bs, i, si, env)), m, slot_offset(si)),
    decreases bs, i,
{
    if i == 0 {
        assert(bs.take(0) =~= Seq::<(Seq<char>, ExprV)>::empty());
        assert(names_of(bs.take(0)) =~= Set::<Seq<char>>::empty());
        assert(env.dom() + names_of(bs.take(0)) =~= env.dom());
        assert(vars_below(env, si + 0)) by {
            assert forall|x: Seq<char>| #[trigger] env.dom().contains(x) implies env[x] < slot_offset(si + 0) by {}
        }
    } else {
        lemma_let_run(bs, i - 1, si, env, vars, m);
        lemma_binds_mono(bs, i, bs.len() as int, si, env.dom());
        lemma_names_step(bs, i - 1);
        let k = i - 1;
        let envk = let_env(bs, k, si, env);
        let varsk = let_vars(bs, k, vars);
        let mk = run(m, let_instrs(bs, k, si, env));
        let off = slot_offset(si + k);
        assert(off as i32 == off);
        assert(binds_fault(bs, i - 1, env.dom()) is None);
        assert(bs.take(i).take(k) =~= bs.take(k));
        law_code_computes(bs[k].1, si + k, envk, varsk, mk);
        let ie = instrs_spec(bs[k].1, si + k, envk);
        let st = seq![Instr::MovSlotRax(off)];
        let m1 = run(mk, ie);
        let m2 = step(m1, Instr::MovSlotRax(off));
        lemma_run_one(m1, Instr::MovSlotRax(off));
        lemma_run_append(m, let_instrs(bs, k, si, env), ie);
        lemma_run_append(m, let_instrs(bs, k, si, env) + ie, st);
        assert(let_instrs(bs, i, si, env) == let_instrs(bs, k, si, env) + ie + st);
        assert(run(m, let_instrs(bs, i, si, env)) == m2);
        let envi = let_env(bs, i, si, env);
        let varsi = let_vars(bs, i, vars);
        assert(envi.dom() =~= env.dom() + names_of(bs.take(i)));
        assert(vars_below(envi, si + i)) by {
            assert forall|x: Seq<char>| #[trigger] envi.dom().contains(x) implies envi[x] < slot_offset(si + i) by {
                if x != bs[k].0 {
                    assert(envk.dom().contains(x));
                }
            }
        }
        assert(holds_vars(m2, envi, varsi)) by {
            assert forall|x: Seq<char>| #[trigger] envi.dom().contains(x) implies (m2.mem)(envi[x] as int) == varsi[x] by {
                if x != bs[k].0 {
                    assert(envk.dom().contains(x));
                    assert((m1.mem)(envk[x] as int) == (mk.mem)(envk[x] as int));
                }
            }
        }
        assert(same_below(m2, m, slot_offset(si))) by {
            assert forall|j: int| j < slot_offset(si) implies #[trigger] (m2.mem)(j) == (m.mem)(j) by {
                assert((m1.mem)(j) == (mk.mem)(j));
            }
        }
    }
}


/// An environment with no variables.
pub open spec fn no_slots() -> Map<Seq<char>, i32> {
    Map::empty()
}

/// No variable values.
pub open spec fn no_values() -> Map<Seq<char>, i64> {
    Map::empty()
}

/// A compiled Boa program computes its expression: where a tree compiles, the
/// assembly file holds the text of the expression's instructions, and running
/// them on any machine leaves the expression's value in `rax`.
pub proof fn law_program_computes(t: SExpV, m: Machine)
    requires
        program_spec(t) is Ok,
    ensures
        parse_spec(t) is Ok,
        program_spec(t)->Ok_0 == program_text(render_code(instrs_spec(parse_spec(t)->Ok_0, FIRST_SLOT as int, no_slots()))),
        run(m, instrs_spec(parse_spec(t)->Ok_0, FIRST_SLOT as int, no_slots())).rax == eval(parse_spec(t)->Ok_0, no_values()),
{
    let e = parse_spec(t)->Ok_0;
    law_code_is_instrs(e, FIRST_SLOT as int, no_slots());
    assert(no_slots().dom() =~= Set::<Seq<char>>::empty());
    assert(vars_below(no_slots(), FIRST_SLOT as int));
    assert(holds_vars(m, no_slots(), no_values()));
    law_code_computes(e, FIRST_SLOT as int, no_slots(), no_values(), m);
}

} // verus!
