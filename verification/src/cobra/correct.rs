//! The code that Cobra's compiler generates for an expression computes what
//! the expression means.

use vstd::prelude::*;
use crate::cobra::ast::{UnOp, BinOp, ExprV};
use crate::cobra::compile::{
    slot_offset, label, compile_spec, let_spec, block_spec, scope_fault, binds_fault, seq_fault, slots_fit, binds_fit,
    seq_fit, names_of, lemma_binds_mono, lemma_seq_mono, FALSE_VAL, SI_MIN, SI_MAX,
};
use crate::cobra::machine::{
    Instr, Jump, lines, instrs_spec, let_instrs, block_instrs, unop_instrs, binop_instrs, render_code, law_code_is_instrs,
};
use crate::cobra::semantics::{Value, Outcome, Stack, rep, shown, law_fault_codes, last_idx, assign, eval, eval_binds, eval_block};
use crate::cobra::run::{
    Machine, step, steps, placed, labels_distinct, has_label, label_pos, lemma_steps_add, lemma_placed_split, lemma_placed_at, lemma_label_pos,
};
use crate::cobra::operators::{lemma_run_unop, lemma_run_binop, lemma_tag_bit, lemma_untag};
use crate::runtime::{value_text_spec, error_message_spec};
use crate::cobra::laws::{let_env, law_let_slots};
use crate::cobra::labels::law_code_labels;
use crate::cobra::jumps::{jumps_resolved, law_jump_targets};
use crate::cobra::program::{FIRST_SLOT, program_text, program_spec};
use crate::cobra::parse::parse_spec;
use crate::sexpr::SExpV;

verus! {

/// Whether the variables `st` live in the slots `locs` as `env` says: the
/// slots lie below stack index `si` in increasing order, `env` binds exactly
/// the names in `st`, each to the slot of its last occurrence.
pub open spec fn layout(env: Map<Seq<char>, i32>, st: Stack, locs: Seq<int>, si: int) -> bool {
    &&& locs.len() == st.len()
    &&& forall|j: int| 0 <= j < locs.len() ==> #[trigger] locs[j] < slot_offset(si)
    &&& forall|i: int, j: int| 0 <= i < j < locs.len() ==> #[trigger] locs[i] < #[trigger] locs[j]
    &&& forall|x: Seq<char>|
        #![trigger env.dom().contains(x)]
        #![trigger last_idx(st, x)]
        env.dom().contains(x) <==> 0 <= last_idx(st, x)
    &&& forall|x: Seq<char>| #[trigger] env.dom().contains(x) ==> env[x] as int == locs[last_idx(st, x)]
}

/// Whether each variable's slot holds its value's run-time form.
pub open spec fn stored(m: Machine, st: Stack, locs: Seq<int>) -> bool {
    forall|j: int| #![trigger st[j]] #![trigger locs[j]] 0 <= j < st.len() ==> (m.mem)(locs[j]) == rep(st[j].1)
}

/// Whether two lists of variables have the same names in the same order.
pub open spec fn same_names(a: Stack, b: Stack) -> bool {
    &&& a.len() == b.len()
    &&& forall|j: int| 0 <= j < a.len() ==> (#[trigger] a[j]).0 == b[j].0
}

/// Whether every slot below stack index `si` that holds no variable keeps its
/// value from `m` to `m2`.
pub open spec fn frame(m: Machine, m2: Machine, locs: Seq<int>, si: int) -> bool {
    forall|k: int| k < slot_offset(si) && !locs.contains(k) ==> #[trigger] (m2.mem)(k) == (m.mem)(k)
}

/// What the code of `e` may assume when it starts in state `m`: the
/// expression is well scoped and its slots fit, the variables `st` live and
/// are held in the slots `locs` as `env` says, `rdi` holds the input, the
/// code stands in program `p` at `pc`, `p` defines no label twice, and the
/// `break` target, if any, is defined.
pub open spec fn ready(e: ExprV, si: int, env: Map<Seq<char>, i32>, c: int, brk: Option<Seq<char>>, st: Stack, locs: Seq<int>, inp: Value, p: Seq<Instr>, m: Machine) -> bool {
    &&& scope_fault(e, env.dom(), brk is Some) is None
    &&& slots_fit(e, si)
    &&& layout(env, st, locs, si)
    &&& stored(m, st, locs)
    &&& m.rdi == rep(inp)
    &&& m.fault is None
    &&& placed(p, instrs_spec(e, si, env, c, brk), m.pc)
    &&& labels_distinct(p)
    &&& (brk is Some ==> has_label(p, brk->0))
}

/// Whether the variables after a run are the ones before it with new values,
/// held in the same slots, with no other slot below `si` changed, and `rdi`
/// kept.
pub open spec fn kept(m: Machine, m2: Machine, st: Stack, st2: Stack, locs: Seq<int>, si: int) -> bool {
    &&& same_names(st, st2)
    &&& stored(m2, st2, locs)
    &&& frame(m, m2, locs, si)
    &&& m2.rdi == m.rdi
    &&& m2.fault is None
}

/// Whether code of length `len` that started in state `m` has run to `m2`
/// as outcome `o` demands: past its end with the value in `rax`, at the
/// `break` target with the value in `rax`, or stopped with the error's code;
/// the variables end as `st2`.
pub open spec fn ran(p: Seq<Instr>, m: Machine, m2: Machine, len: int, o: Outcome, st: Stack, st2: Stack, locs: Seq<int>, si: int, brk: Option<Seq<char>>) -> bool {
    match o {
        Outcome::Done(v) => m2.pc == m.pc + len && m2.rax == rep(v) && kept(m, m2, st, st2, locs, si),
        Outcome::Broke(v) => brk is Some && m2.pc == label_pos(p, brk->0) && m2.rax == rep(v) && kept(
            m,
            m2,
            st,
            st2,
            locs,
            si,
        ),
        Outcome::Fault(k) => m2.fault == Some(k as i64),
    }
}

/// What the law below promises of `n` steps of the code of `e`.
pub open spec fn runs_as_meant(e: ExprV, si: int, env: Map<Seq<char>, i32>, c: int, brk: Option<Seq<char>>, st: Stack, locs: Seq<int>, inp: Value, fuel: nat, p: Seq<Instr>, m: Machine, n: nat) -> bool {
    &&& instrs_spec(e, si, env, c, brk).len() > 0
    &&& ran(p, m, steps(p, m, n), instrs_spec(e, si, env, c, brk).len() as int, eval(e, st, inp, fuel).unwrap().0, st,
        eval(e, st, inp, fuel).unwrap().1, locs, si, brk)
}

/// Facts about the last occurrence of a name.
pub proof fn lemma_last_idx(st: Stack, x: Seq<char>)
    ensures
        -1 <= last_idx(st, x) < st.len(),
        0 <= last_idx(st, x) ==> st[last_idx(st, x)].0 == x,
        forall|j: int| last_idx(st, x) < j < st.len() ==> (#[trigger] st[j]).0 != x,
    decreases st.len(),
{
    if st.len() > 0 && st.last().0 != x {
        lemma_last_idx(st.drop_last(), x);
        assert forall|j: int| last_idx(st, x) < j < st.len() implies (#[trigger] st[j]).0 != x by {
            if j < st.len() - 1 {
                assert(st[j] == st.drop_last()[j]);
            }
        }
    }
}

/// The last occurrence of a name depends on the names alone.
pub proof fn lemma_last_idx_names(a: Stack, b: Stack, x: Seq<char>)
    requires
        same_names(a, b),
    ensures
        last_idx(a, x) == last_idx(b, x),
    decreases a.len(),
{
    if a.len() > 0 {
        assert(a[a.len() - 1].0 == b[b.len() - 1].0);
        assert forall|j: int| 0 <= j < a.drop_last().len() implies (#[trigger] a.drop_last()[j]).0 == b.drop_last()[j].0 by {
            assert(a[j].0 == b[j].0);
        }
        lemma_last_idx_names(a.drop_last(), b.drop_last(), x);
    }
}

/// Pushing a name makes it the last occurrence of that name.
pub proof fn lemma_last_idx_push(st: Stack, y: Seq<char>, v: Value, x: Seq<char>)
    ensures
        last_idx(st.push((y, v)), x) == if x == y { st.len() as int } else { last_idx(st, x) },
{
    assert(st.push((y, v)).drop_last() =~= st);
}

/// A layout depends on the names of the variables alone.
pub proof fn lemma_layout_names(env: Map<Seq<char>, i32>, a: Stack, b: Stack, locs: Seq<int>, si: int)
    requires
        layout(env, a, locs, si),
        same_names(a, b),
    ensures
        layout(env, b, locs, si),
{
    assert forall|x: Seq<char>| #![trigger last_idx(b, x)] last_idx(b, x) == last_idx(a, x) by {
        lemma_last_idx_names(a, b, x);
    }
    assert forall|x: Seq<char>| #[trigger] env.dom().contains(x) <==> 0 <= last_idx(b, x) by {
        lemma_last_idx_names(a, b, x);
    }
}

/// Giving a variable a new value keeps the names, changes that variable's
/// value alone, and keeps the others'.
pub proof fn lemma_assign(st: Stack, x: Seq<char>, v: Value)
    requires
        0 <= last_idx(st, x),
    ensures
        same_names(st, assign(st, x, v)),
        assign(st, x, v)[last_idx(st, x)].1 == v,
        forall|j: int| 0 <= j < st.len() && j != last_idx(st, x) ==> #[trigger] assign(st, x, v)[j] == st[j],
{
    lemma_last_idx(st, x);
}

/// Same names is an equivalence.
pub proof fn lemma_same_names_trans(a: Stack, b: Stack, c: Stack)
    requires
        same_names(a, b),
        same_names(b, c),
    ensures
        same_names(a, c),
{
    assert forall|j: int| 0 <= j < a.len() implies (#[trigger] a[j]).0 == c[j].0 by {
        assert(b[j].0 == c[j].0);
    }
}

/// Runs one after the other keep what each keeps.
pub proof fn lemma_kept_trans(m: Machine, m1: Machine, m2: Machine, st: Stack, st1: Stack, st2: Stack, locs: Seq<int>, si: int)
    requires
        kept(m, m1, st, st1, locs, si),
        kept(m1, m2, st1, st2, locs, si),
    ensures
        kept(m, m2, st, st2, locs, si),
{
    lemma_same_names_trans(st, st1, st2);
    assert forall|k: int| k < slot_offset(si) && !locs.contains(k) implies #[trigger] (m2.mem)(k) == (m.mem)(k) by {
        assert((m2.mem)(k) == (m1.mem)(k));
    }
}

proof fn lemma_one_step(p: Seq<Instr>, m: Machine)
    ensures
        steps(p, m, 1) == step(p, m),
{
    reveal_with_fuel(steps, 2);
}

/// The constants, `input` and variables: one instruction.
#[verifier::spinoff_prover]
proof fn lemma_leaf_runs(e: ExprV, si: int, env: Map<Seq<char>, i32>, c: int, brk: Option<Seq<char>>, st: Stack, locs: Seq<int>, inp: Value, fuel: nat, p: Seq<Instr>, m: Machine) -> (n: nat)
    requires
        e is Number || e is Bool || e is Input || e is Id,
        ready(e, si, env, c, brk, st, locs, inp, p, m),
    ensures
        eval(e, st, inp, fuel) is Some,
        runs_as_meant(e, si, env, c, brk, st, locs, inp, fuel, p, m, n),
{
    let f = instrs_spec(e, si, env, c, brk);
    lemma_placed_at(p, f, m.pc, 0);
    lemma_one_step(p, m);
    let m1 = step(p, m);
    if let ExprV::Id(x) = e {
        lemma_last_idx(st, x);
        assert(m1.rax == (m.mem)(locs[last_idx(st, x)]));
    }
    assert(same_names(st, st));
    1
}

/// Placed lines hold the fragment placed.
proof fn lemma_placed_lines(p: Seq<Instr>, a: Seq<Instr>, q: int)
    requires
        placed(p, lines(a), q),
    ensures
        placed(p, a, q),
{
}

/// A layout below stack index `si` is a layout below any higher one.
proof fn lemma_layout_up(env: Map<Seq<char>, i32>, st: Stack, locs: Seq<int>, si: int, si2: int)
    requires
        layout(env, st, locs, si),
        si <= si2,
    ensures
        layout(env, st, locs, si2),
{
    assert forall|j: int| 0 <= j < locs.len() implies #[trigger] locs[j] < slot_offset(si2) by {
        assert(locs[j] < slot_offset(si));
    }
}

/// The code of an expression does what the expression means. Started in a
/// state that is [`ready`] for it, and where the expression evaluates with
/// the given fuel, its code runs in `n` steps to where the outcome says: past
/// its last instruction with the value in `rax`, at the enclosing loop's end
/// with the value of a `break` in `rax`, or stopped by the error routine with
/// the error's code; the variables it sets are held in their slots, and no
/// other slot below its stack index changes.
pub proof fn law_code_runs(e: ExprV, si: int, env: Map<Seq<char>, i32>, c: int, brk: Option<Seq<char>>, st: Stack, locs: Seq<int>, inp: Value, fuel: nat, p: Seq<Instr>, m: Machine) -> (n: nat)
    requires
        ready(e, si, env, c, brk, st, locs, inp, p, m),
        eval(e, st, inp, fuel) is Some,
    ensures
        runs_as_meant(e, si, env, c, brk, st, locs, inp, fuel, p, m, n),
    decreases fuel, e, 1int,
{
    match e {
        ExprV::UnOp(_, _) => lemma_unop_runs(e, si, env, c, brk, st, locs, inp, fuel, p, m),
        ExprV::BinOp(_, _, _) => lemma_binop_runs(e, si, env, c, brk, st, locs, inp, fuel, p, m),
        ExprV::Let(_, _) => lemma_let_runs(e, si, env, c, brk, st, locs, inp, fuel, p, m),
        ExprV::If(_, _, _) => lemma_if_runs(e, si, env, c, brk, st, locs, inp, fuel, p, m),
        ExprV::Block(_) => lemma_block_expr_runs(e, si, env, c, brk, st, locs, inp, fuel, p, m),
        ExprV::Loop(_) => lemma_loop_runs(e, si, env, c, brk, st, locs, inp, fuel, p, m),
        ExprV::Break(_) => lemma_break_runs(e, si, env, c, brk, st, locs, inp, fuel, p, m),
        ExprV::SetVar(_, _) => lemma_set_runs(e, si, env, c, brk, st, locs, inp, fuel, p, m),
        _ => lemma_leaf_runs(e, si, env, c, brk, st, locs, inp, fuel, p, m),
    }
}

#[verifier::spinoff_prover]
proof fn lemma_unop_runs(e: ExprV, si: int, env: Map<Seq<char>, i32>, c: int, brk: Option<Seq<char>>, st: Stack, locs: Seq<int>, inp: Value, fuel: nat, p: Seq<Instr>, m: Machine) -> (n: nat)
    requires
        e is UnOp,
        ready(e, si, env, c, brk, st, locs, inp, p, m),
        eval(e, st, inp, fuel) is Some,
    ensures
        runs_as_meant(e, si, env, c, brk, st, locs, inp, fuel, p, m, n),
    decreases fuel, e, 0int,
{
    let (op, a) = match e {
        ExprV::UnOp(op, a) => (op, *a),
        _ => (UnOp::Add1, e),
    };
    let q = m.pc;
    let ai = instrs_spec(a, si, env, c, brk);
    let c1 = compile_spec(a, si, env, c, brk).1;
    let ui = unop_instrs(op, c1);
    assert(instrs_spec(e, si, env, c, brk) == lines(ai) + ui);
    lemma_placed_split(p, lines(ai), ui, q);
    lemma_placed_lines(p, ai, q);
    let n1 = law_code_runs(a, si, env, c, brk, st, locs, inp, fuel, p, m);
    let m1 = steps(p, m, n1);
    let (o1, st1) = eval(a, st, inp, fuel).unwrap();
    match o1 {
        Outcome::Done(v) => {
            let n2 = lemma_run_unop(p, m1, op, c1, v);
            lemma_steps_add(p, m, n1, n2);
            n1 + n2
        },
        _ => n1,
    }
}

#[verifier::spinoff_prover]
proof fn lemma_break_runs(e: ExprV, si: int, env: Map<Seq<char>, i32>, c: int, brk: Option<Seq<char>>, st: Stack, locs: Seq<int>, inp: Value, fuel: nat, p: Seq<Instr>, m: Machine) -> (n: nat)
    requires
        e is Break,
        ready(e, si, env, c, brk, st, locs, inp, p, m),
        eval(e, st, inp, fuel) is Some,
    ensures
        runs_as_meant(e, si, env, c, brk, st, locs, inp, fuel, p, m, n),
    decreases fuel, e, 0int,
{
    let a = match e {
        ExprV::Break(a) => *a,
        _ => e,
    };
    let q = m.pc;
    let ai = instrs_spec(a, si, env, c, brk);
    let jmp = seq![Instr::Jump(Jump::Jmp, brk->0)];
    assert(instrs_spec(e, si, env, c, brk) == lines(ai) + jmp);
    lemma_placed_split(p, lines(ai), jmp, q);
    lemma_placed_lines(p, ai, q);
    let n1 = law_code_runs(a, si, env, c, brk, st, locs, inp, fuel, p, m);
    let m1 = steps(p, m, n1);
    let (o1, st1) = eval(a, st, inp, fuel).unwrap();
    match o1 {
        Outcome::Done(v) => {
            lemma_placed_at(p, jmp, q + ai.len(), 0);
            lemma_one_step(p, m1);
            lemma_steps_add(p, m, n1, 1);
            n1 + 1
        },
        _ => n1,
    }
}

#[verifier::spinoff_prover]
proof fn lemma_set_runs(e: ExprV, si: int, env: Map<Seq<char>, i32>, c: int, brk: Option<Seq<char>>, st: Stack, locs: Seq<int>, inp: Value, fuel: nat, p: Seq<Instr>, m: Machine) -> (n: nat)
    requires
        e is SetVar,
        ready(e, si, env, c, brk, st, locs, inp, p, m),
        eval(e, st, inp, fuel) is Some,
    ensures
        runs_as_meant(e, si, env, c, brk, st, locs, inp, fuel, p, m, n),
    decreases fuel, e, 0int,
{
    let (x, a) = match e {
        ExprV::SetVar(x, a) => (x, *a),
        _ => (Seq::empty(), e),
    };
    let q = m.pc;
    let ai = instrs_spec(a, si, env, c, brk);
    let off = env[x] as int;
    let store = seq![Instr::MovSlotRax(off)];
    assert(instrs_spec(e, si, env, c, brk) == lines(ai) + store);
    lemma_placed_split(p, lines(ai), store, q);
    lemma_placed_lines(p, ai, q);
    let n1 = law_code_runs(a, si, env, c, brk, st, locs, inp, fuel, p, m);
    let m1 = steps(p, m, n1);
    let (o1, st1) = eval(a, st, inp, fuel).unwrap();
    match o1 {
        Outcome::Done(v) => {
            lemma_placed_at(p, store, q + ai.len(), 0);
            lemma_one_step(p, m1);
            lemma_steps_add(p, m, n1, 1);
            let m2 = step(p, m1);
            let li = last_idx(st, x);
            lemma_last_idx_names(st, st1, x);
            lemma_last_idx(st1, x);
            lemma_assign(st1, x, v);
            let st2 = assign(st1, x, v);
            assert(off == locs[li]);
            assert(stored(m2, st2, locs)) by {
                assert forall|j: int| 0 <= j < st2.len() implies (m2.mem)(#[trigger] locs[j]) == rep(st2[j].1) by {
                    if j != li {
                        if j < li {
                            assert(locs[j] < locs[li]);
                        } else {
                            assert(locs[li] < locs[j]);
                        }
                        assert(st2[j] == st1[j]);
                    }
                }
            }
            assert(frame(m, m2, locs, si)) by {
                assert forall|k: int| k < slot_offset(si) && !locs.contains(k) implies #[trigger] (m2.mem)(k) == (m.mem)(k) by {
                    if k == off {
                        assert(locs[li] == k);
                    }
                    assert((m1.mem)(k) == (m.mem)(k));
                }
            }
            lemma_same_names_trans(st, st1, st2);
            n1 + 1
        },
        _ => n1,
    }
}

#[verifier::spinoff_prover]
#[verifier::rlimit(60)]
proof fn lemma_binop_runs(e: ExprV, si: int, env: Map<Seq<char>, i32>, c: int, brk: Option<Seq<char>>, st: Stack, locs: Seq<int>, inp: Value, fuel: nat, p: Seq<Instr>, m: Machine) -> (n: nat)
    requires
        e is BinOp,
        ready(e, si, env, c, brk, st, locs, inp, p, m),
        eval(e, st, inp, fuel) is Some,
    ensures
        runs_as_meant(e, si, env, c, brk, st, locs, inp, fuel, p, m, n),
    decreases fuel, e, 0int,
{
    let (op, l, r) = match e {
        ExprV::BinOp(op, l, r) => (op, *l, *r),
        _ => (BinOp::Plus, e, e),
    };
    let q = m.pc;
    let off = slot_offset(si);
    let li = instrs_spec(l, si, env, c, brk);
    let c1 = compile_spec(l, si, env, c, brk).1;
    let ri = instrs_spec(r, si + 1, env, c1, brk);
    let c2 = compile_spec(r, si + 1, env, c1, brk).1;
    let sv = seq![Instr::MovSlotRax(off)];
    let bt = binop_instrs(op, off, c2);
    assert(instrs_spec(e, si, env, c, brk) == lines(li) + sv + lines(ri) + bt);
    lemma_placed_split(p, lines(li) + sv + lines(ri), bt, q);
    lemma_placed_split(p, lines(li) + sv, lines(ri), q);
    lemma_placed_split(p, lines(li), sv, q);
    lemma_placed_lines(p, li, q);
    let n1 = law_code_runs(l, si, env, c, brk, st, locs, inp, fuel, p, m);
    let m1 = steps(p, m, n1);
    let (o1, st1) = eval(l, st, inp, fuel).unwrap();
    match o1 {
        Outcome::Done(v1) => {
            lemma_placed_at(p, sv, q + li.len(), 0);
            lemma_one_step(p, m1);
            lemma_steps_add(p, m, n1, 1);
            let m2 = step(p, m1);
            assert(m2.pc == q + li.len() + 1 && (m2.mem)(off) == rep(v1));
            lemma_layout_names(env, st, st1, locs, si);
            lemma_layout_up(env, st1, locs, si, si + 1);
            assert(stored(m2, st1, locs)) by {
                assert forall|j: int| 0 <= j < st1.len() implies (m2.mem)(#[trigger] locs[j]) == rep(st1[j].1) by {
                    assert(locs[j] < off);
                }
            }
            lemma_placed_lines(p, ri, q + li.len() + 1);
            let n2 = law_code_runs(r, si + 1, env, c1, brk, st1, locs, inp, fuel, p, m2);
            let m3 = steps(p, m2, n2);
            lemma_steps_add(p, m, n1 + 1, n2);
            let (o2, st2) = eval(r, st1, inp, fuel).unwrap();
            if !(o2 is Fault) {
                assert(!locs.contains(off)) by {
                    if locs.contains(off) {
                        let j = choose|j: int| 0 <= j < locs.len() && locs[j] == off;
                        assert(locs[j] < off);
                    }
                }
                assert((m3.mem)(off) == (m2.mem)(off));
                assert(frame(m, m3, locs, si)) by {
                    assert forall|k: int| k < slot_offset(si) && !locs.contains(k) implies #[trigger] (m3.mem)(k) == (m.mem)(k) by {
                        assert((m3.mem)(k) == (m2.mem)(k));
                        assert((m1.mem)(k) == (m.mem)(k));
                    }
                }
                lemma_same_names_trans(st, st1, st2);
            }
            match o2 {
                Outcome::Done(v2) => {
                    let n3 = lemma_run_binop(p, m3, op, off, c2, v1, v2);
                    lemma_steps_add(p, m, n1 + 1 + n2, n3);
                    n1 + 1 + n2 + n3
                },
                _ => n1 + 1 + n2,
            }
        },
        _ => n1,
    }
}

#[verifier::spinoff_prover]
#[verifier::rlimit(80)]
proof fn lemma_if_runs(e: ExprV, si: int, env: Map<Seq<char>, i32>, c: int, brk: Option<Seq<char>>, st: Stack, locs: Seq<int>, inp: Value, fuel: nat, p: Seq<Instr>, m: Machine) -> (n: nat)
    requires
        e is If,
        ready(e, si, env, c, brk, st, locs, inp, p, m),
        eval(e, st, inp, fuel) is Some,
    ensures
        runs_as_meant(e, si, env, c, brk, st, locs, inp, fuel, p, m, n),
    decreases fuel, e, 0int,
{
    let (cond, thn, els) = match e {
        ExprV::If(a, b, d) => (*a, *b, *d),
        _ => (e, e, e),
    };
    let q = m.pc;
    let else_l = label("if_else"@, c);
    let done_l = label("if_done"@, c + 1);
    let ci = instrs_spec(cond, si, env, c + 2, brk);
    let c1 = compile_spec(cond, si, env, c + 2, brk).1;
    let ti = instrs_spec(thn, si, env, c1, brk);
    let c2 = compile_spec(thn, si, env, c1, brk).1;
    let ei = instrs_spec(els, si, env, c2, brk);
    let b1 = seq![Instr::CmpRaxImm(FALSE_VAL as int), Instr::Jump(Jump::Je, else_l)];
    let b2 = seq![Instr::Jump(Jump::Jmp, done_l), Instr::Label(else_l)];
    let b3 = seq![Instr::Label(done_l)];
    assert(instrs_spec(e, si, env, c, brk) == lines(ci) + b1 + lines(ti) + b2 + lines(ei) + b3);
    lemma_placed_split(p, lines(ci) + b1 + lines(ti) + b2 + lines(ei), b3, q);
    lemma_placed_split(p, lines(ci) + b1 + lines(ti) + b2, lines(ei), q);
    lemma_placed_split(p, lines(ci) + b1 + lines(ti), b2, q);
    lemma_placed_split(p, lines(ci) + b1, lines(ti), q);
    lemma_placed_split(p, lines(ci), b1, q);
    lemma_placed_lines(p, ci, q);
    let n1 = law_code_runs(cond, si, env, c + 2, brk, st, locs, inp, fuel, p, m);
    let m1 = steps(p, m, n1);
    let (o1, st1) = eval(cond, st, inp, fuel).unwrap();
    match o1 {
        Outcome::Done(v) => {
            let qb = q + ci.len();
            let qc = qb + 2;
            lemma_placed_at(p, b1, qb, 0);
            lemma_placed_at(p, b1, qb, 1);
            lemma_one_step(p, m1);
            let m2 = step(p, m1);
            lemma_one_step(p, m2);
            let m3 = step(p, m2);
            lemma_steps_add(p, m, n1, 1);
            lemma_steps_add(p, m, n1 + 1, 1);
            lemma_tag_bit(m1.rax, v);
            assert(m2.zf == (v == Value::Bool(false)));
            lemma_layout_names(env, st, st1, locs, si);
            lemma_placed_lines(p, ti, qc);
            if v == Value::Bool(false) {
                let qd = qc + lines(ti).len();
                let qe = qd + 2;
                lemma_placed_at(p, b2, qd, 1);
                lemma_label_pos(p, qd + 1, else_l);
                assert(m3.pc == qd + 1);
                lemma_one_step(p, m3);
                let m4 = step(p, m3);
                lemma_steps_add(p, m, n1 + 2, 1);
                assert(m4.pc == qe && m4.mem == m1.mem && m4.rdi == m1.rdi && m4.fault is None);
                lemma_placed_lines(p, ei, qe);
                let n2 = law_code_runs(els, si, env, c2, brk, st1, locs, inp, fuel, p, m4);
                let m5 = steps(p, m4, n2);
                lemma_steps_add(p, m, n1 + 3, n2);
                let (o2, st2) = eval(els, st1, inp, fuel).unwrap();
                if !(o2 is Fault) {
                    lemma_same_names_trans(st, st1, st2);
                    assert(frame(m, m5, locs, si)) by {
                        assert forall|k: int| k < slot_offset(si) && !locs.contains(k) implies #[trigger] (m5.mem)(k) == (m.mem)(k) by {
                            assert((m5.mem)(k) == (m4.mem)(k));
                            assert((m1.mem)(k) == (m.mem)(k));
                        }
                    }
                }
                if o2 is Done {
                    let qg = qe + ei.len();
                    lemma_placed_at(p, b3, qg, 0);
                    lemma_one_step(p, m5);
                    lemma_steps_add(p, m, n1 + 3 + n2, 1);
                    n1 + 3 + n2 + 1
                } else {
                    n1 + 3 + n2
                }
            } else {
                assert(m3.pc == qc && m3.mem == m1.mem && m3.rdi == m1.rdi && m3.fault is None);
                let n2 = law_code_runs(thn, si, env, c1, brk, st1, locs, inp, fuel, p, m3);
                let m5 = steps(p, m3, n2);
                lemma_steps_add(p, m, n1 + 2, n2);
                let (o2, st2) = eval(thn, st1, inp, fuel).unwrap();
                if !(o2 is Fault) {
                    lemma_same_names_trans(st, st1, st2);
                    assert(frame(m, m5, locs, si)) by {
                        assert forall|k: int| k < slot_offset(si) && !locs.contains(k) implies #[trigger] (m5.mem)(k) == (m.mem)(k) by {
                            assert((m5.mem)(k) == (m3.mem)(k));
                            assert((m1.mem)(k) == (m.mem)(k));
                        }
                    }
                }
                if o2 is Done {
                    let qd = qc + ti.len();
                    let qg = qd + 2 + lines(ei).len();
                    lemma_placed_at(p, b2, qd, 0);
                    lemma_placed_at(p, b3, qg, 0);
                    lemma_label_pos(p, qg, done_l);
                    lemma_one_step(p, m5);
                    let m6 = step(p, m5);
                    lemma_one_step(p, m6);
                    lemma_steps_add(p, m, n1 + 2 + n2, 1);
                    lemma_steps_add(p, m, n1 + 2 + n2 + 1, 1);
                    lemma_placed_lines(p, ei, qd + 2);
                    n1 + 2 + n2 + 2
                } else {
                    n1 + 2 + n2
                }
            }
        },
        _ => n1,
    }
}

#[verifier::spinoff_prover]
#[verifier::rlimit(60)]
proof fn lemma_loop_runs(e: ExprV, si: int, env: Map<Seq<char>, i32>, c: int, brk: Option<Seq<char>>, st: Stack, locs: Seq<int>, inp: Value, fuel: nat, p: Seq<Instr>, m: Machine) -> (n: nat)
    requires
        e is Loop,
        ready(e, si, env, c, brk, st, locs, inp, p, m),
        eval(e, st, inp, fuel) is Some,
    ensures
        runs_as_meant(e, si, env, c, brk, st, locs, inp, fuel, p, m, n),
    decreases fuel, e, 0int,
{
    let body = match e {
        ExprV::Loop(a) => *a,
        _ => e,
    };
    let q = m.pc;
    let start_l = label("loop_start"@, c);
    let end_l = label("loop_end"@, c + 1);
    let bi = instrs_spec(body, si, env, c + 2, Some(end_l));
    let h = seq![Instr::Label(start_l)];
    let t = seq![Instr::Jump(Jump::Jmp, start_l), Instr::Label(end_l)];
    let f = instrs_spec(e, si, env, c, brk);
    assert(f == h + lines(bi) + t);
    lemma_placed_split(p, h + lines(bi), t, q);
    lemma_placed_split(p, h, lines(bi), q);
    lemma_placed_lines(p, bi, q + 1);
    lemma_placed_at(p, h, q, 0);
    let qt = q + 1 + lines(bi).len();
    lemma_placed_at(p, t, qt, 0);
    lemma_placed_at(p, t, qt, 1);
    lemma_label_pos(p, q, start_l);
    lemma_label_pos(p, qt + 1, end_l);
    lemma_one_step(p, m);
    let m1 = step(p, m);
    let f1 = (fuel - 1) as nat;
    let n1 = law_code_runs(body, si, env, c + 2, Some(end_l), st, locs, inp, f1, p, m1);
    let m2 = steps(p, m1, n1);
    lemma_steps_add(p, m, 1, n1);
    let (o1, st1) = eval(body, st, inp, f1).unwrap();
    match o1 {
        Outcome::Done(_) => {
            lemma_one_step(p, m2);
            let m3 = step(p, m2);
            lemma_steps_add(p, m, 1 + n1, 1);
            assert(m3.pc == q && m3.mem == m2.mem && m3.rdi == m2.rdi && m3.fault is None);
            lemma_layout_names(env, st, st1, locs, si);
            let n2 = law_code_runs(e, si, env, c, brk, st1, locs, inp, f1, p, m3);
            let m4 = steps(p, m3, n2);
            lemma_steps_add(p, m, 1 + n1 + 1, n2);
            let (o2, st2) = eval(e, st1, inp, f1).unwrap();
            if !(o2 is Fault) {
                assert(kept(m, m3, st, st1, locs, si));
                lemma_kept_trans(m, m3, m4, st, st1, st2, locs, si);
            }
            1 + n1 + 1 + n2
        },
        Outcome::Broke(_) => {
            lemma_one_step(p, m2);
            lemma_steps_add(p, m, 1 + n1, 1);
            1 + n1 + 1
        },
        _ => 1 + n1,
    }
}

#[verifier::spinoff_prover]
proof fn lemma_block_expr_runs(e: ExprV, si: int, env: Map<Seq<char>, i32>, c: int, brk: Option<Seq<char>>, st: Stack, locs: Seq<int>, inp: Value, fuel: nat, p: Seq<Instr>, m: Machine) -> (n: nat)
    requires
        e is Block,
        ready(e, si, env, c, brk, st, locs, inp, p, m),
        eval(e, st, inp, fuel) is Some,
    ensures
        runs_as_meant(e, si, env, c, brk, st, locs, inp, fuel, p, m, n),
    decreases fuel, e, 0int,
{
    let es = match e {
        ExprV::Block(es) => es,
        _ => Seq::empty(),
    };
    assert(instrs_spec(e, si, env, c, brk) == block_instrs(es, es.len() as int, si, env, c, brk));
    assert(eval(e, st, inp, fuel) == eval_block(es, es.len() as int, st, inp, fuel));
    lemma_block_runs(es, es.len() as int, si, env, c, brk, st, locs, inp, fuel, p, m)
}

#[verifier::spinoff_prover]
#[verifier::rlimit(40)]
proof fn lemma_block_runs(es: Seq<ExprV>, i: int, si: int, env: Map<Seq<char>, i32>, c: int, brk: Option<Seq<char>>, st: Stack, locs: Seq<int>, inp: Value, fuel: nat, p: Seq<Instr>, m: Machine) -> (n: nat)
    requires
        1 <= i <= es.len(),
        seq_fault(es, es.len() as int, env.dom(), brk is Some) is None,
        seq_fit(es, es.len() as int, si),
        layout(env, st, locs, si),
        stored(m, st, locs),
        m.rdi == rep(inp),
        m.fault is None,
        placed(p, block_instrs(es, i, si, env, c, brk), m.pc),
        labels_distinct(p),
        brk is Some ==> has_label(p, brk->0),
        eval_block(es, i, st, inp, fuel) is Some,
    ensures
        block_instrs(es, i, si, env, c, brk).len() > 0,
        ran(p, m, steps(p, m, n), block_instrs(es, i, si, env, c, brk).len() as int, eval_block(es, i, st, inp, fuel).unwrap().0,
            st, eval_block(es, i, st, inp, fuel).unwrap().1, locs, si, brk),
    decreases fuel, es, i,
{
    let q = m.pc;
    lemma_seq_mono(es, i, es.len() as int, si, env.dom(), brk is Some);
    if i == 1 {
        law_code_runs(es[0], si, env, c, brk, st, locs, inp, fuel, p, m)
    } else {
        lemma_seq_mono(es, i - 1, es.len() as int, si, env.dom(), brk is Some);
        let a = block_instrs(es, i - 1, si, env, c, brk);
        let c1 = block_spec(es, i - 1, si, env, c, brk).1;
        let b = instrs_spec(es[i - 1], si, env, c1, brk);
        assert(block_instrs(es, i, si, env, c, brk) == lines(a) + lines(b));
        lemma_placed_split(p, lines(a), lines(b), q);
        lemma_placed_lines(p, a, q);
        let n1 = lemma_block_runs(es, i - 1, si, env, c, brk, st, locs, inp, fuel, p, m);
        let m1 = steps(p, m, n1);
        let (o1, st1) = eval_block(es, i - 1, st, inp, fuel).unwrap();
        match o1 {
            Outcome::Done(_) => {
                lemma_layout_names(env, st, st1, locs, si);
                lemma_placed_lines(p, b, q + a.len());
                let n2 = law_code_runs(es[i - 1], si, env, c1, brk, st1, locs, inp, fuel, p, m1);
                let m2 = steps(p, m1, n2);
                lemma_steps_add(p, m, n1, n2);
                let (o2, st2) = eval(es[i - 1], st1, inp, fuel).unwrap();
                if !(o2 is Fault) {
                    lemma_kept_trans(m, m1, m2, st, st1, st2, locs, si);
                }
                n1 + n2
            },
            _ => n1,
        }
    }
}

/// The slots of the variables after the first `i` bindings of a `let` at
/// stack index `si`: binding `k` lives at stack index `si + k`.
pub open spec fn let_locs(locs: Seq<int>, si: int, i: int) -> Seq<int> {
    locs + Seq::new(i as nat, |k: int| slot_offset(si + k))
}

/// The names that the first `i` bindings bind are those of `env` and theirs.
proof fn lemma_let_env_dom(bs: Seq<(Seq<char>, ExprV)>, i: int, si: int, env: Map<Seq<char>, i32>)
    requires
        0 <= i <= bs.len(),
    ensures
        let_env(bs, i, si, env).dom() == env.dom() + names_of(bs.take(i)),
    decreases i,
{
    if i == 0 {
        assert(bs.take(0) =~= Seq::<(Seq<char>, ExprV)>::empty());
        assert(names_of(bs.take(0)) =~= Set::<Seq<char>>::empty());
        assert(env.dom() + names_of(bs.take(0)) =~= env.dom());
    } else {
        lemma_let_env_dom(bs, i - 1, si, env);
        crate::cobra::compile::lemma_names_step(bs, i - 1);
        assert(let_env(bs, i, si, env).dom() =~= env.dom() + names_of(bs.take(i)));
    }
}

/// Binding a new variable in the next slot keeps the layout.
proof fn lemma_layout_push(env: Map<Seq<char>, i32>, st: Stack, locs: Seq<int>, si: int, y: Seq<char>, v: Value)
    requires
        layout(env, st, locs, si),
        SI_MIN <= si <= SI_MAX,
    ensures
        layout(env.insert(y, slot_offset(si) as i32), st.push((y, v)), locs.push(slot_offset(si)), si + 1),
{
    let off = slot_offset(si);
    let env2 = env.insert(y, off as i32);
    let st2 = st.push((y, v));
    let locs2 = locs.push(off);
    assert(off as i32 == off);
    assert forall|x: Seq<char>| #![trigger last_idx(st2, x)] last_idx(st2, x) == if x == y { st.len() as int } else { last_idx(st, x) } by {
        lemma_last_idx_push(st, y, v, x);
    }
    assert forall|x: Seq<char>| #[trigger] env2.dom().contains(x) <==> 0 <= last_idx(st2, x) by {
        lemma_last_idx(st, x);
    }
    assert forall|x: Seq<char>| #[trigger] env2.dom().contains(x) implies env2[x] as int == locs2[last_idx(st2, x)] by {
        lemma_last_idx(st, x);
    }
    assert forall|j: int| 0 <= j < locs2.len() implies #[trigger] locs2[j] < slot_offset(si + 1) by {
        if j < locs.len() {
            assert(locs[j] < off);
        }
    }
    assert forall|i: int, j: int| 0 <= i < j < locs2.len() implies #[trigger] locs2[i] < #[trigger] locs2[j] by {
        if j < locs.len() {
            assert(locs[i] < locs[j]);
        } else {
            assert(locs[i] < off);
        }
    }
}

/// What running the first `i` bindings of a `let` leaves: past their code
/// with each binding pushed and held in its slot, at the `break` target, or
/// stopped with an error.
pub open spec fn binds_ran(p: Seq<Instr>, m: Machine, m2: Machine, len: int, o: Outcome, st: Stack, st2: Stack, bs: Seq<(Seq<char>, ExprV)>, i: int, env: Map<Seq<char>, i32>, locs: Seq<int>, si: int, brk: Option<Seq<char>>) -> bool {
    match o {
        Outcome::Done(_) => {
            &&& m2.pc == m.pc + len
            &&& m2.fault is None
            &&& m2.rdi == m.rdi
            &&& st2.len() == st.len() + i
            &&& same_names(st, st2.take(st.len() as int))
            &&& stored(m2, st2, let_locs(locs, si, i))
            &&& layout(let_env(bs, i, si, env), st2, let_locs(locs, si, i), si + i)
            &&& frame(m, m2, locs, si)
        },
        Outcome::Broke(v) => {
            &&& brk is Some
            &&& m2.pc == label_pos(p, brk->0)
            &&& m2.rax == rep(v)
            &&& st2.len() >= st.len()
            &&& kept(m, m2, st, st2.take(st.len() as int), locs, si)
        },
        Outcome::Fault(k) => m2.fault == Some(k as i64),
    }
}

/// A binding's code leaves the variables before the `let` with the names they
/// had, their values in their slots, and the slots below the `let` that hold
/// none of them unchanged.
proof fn lemma_binding_kept(m: Machine, m1: Machine, m2: Machine, st: Stack, st1: Stack, st2: Stack, locs: Seq<int>, locs1: Seq<int>, si: int, si1: int)
    requires
        st1.len() >= st.len(),
        same_names(st, st1.take(st.len() as int)),
        same_names(st1, st2),
        locs1.len() == st1.len(),
        locs1.take(st.len() as int) == locs,
        forall|j: int| st.len() <= j < locs1.len() ==> slot_offset(si) <= #[trigger] locs1[j],
        si <= si1,
        frame(m, m1, locs, si),
        frame(m1, m2, locs1, si1),
        stored(m2, st2, locs1),
        m1.rdi == m.rdi,
        m2.rdi == m1.rdi,
        m2.fault is None,
    ensures
        same_names(st, st2.take(st.len() as int)),
        stored(m2, st2.take(st.len() as int), locs),
        frame(m, m2, locs, si),
        kept(m, m2, st, st2.take(st.len() as int), locs, si),
{
    let n0 = st.len() as int;
    assert forall|j: int| 0 <= j < n0 implies (#[trigger] st[j]).0 == st2.take(n0)[j].0 by {
        assert(st1.take(n0)[j].0 == st1[j].0);
        assert(st1[j].0 == st2[j].0);
    }
    assert forall|j: int| #![trigger st2.take(n0)[j]] #![trigger locs[j]] 0 <= j < n0 implies (m2.mem)(locs[j]) == rep(st2.take(n0)[j].1) by {
        assert(locs[j] == locs1.take(n0)[j]);
        assert(locs1.take(n0)[j] == locs1[j]);
        assert(st2.take(n0)[j] == st2[j]);
        assert((m2.mem)(locs1[j]) == rep(st2[j].1));
    }
    assert forall|k: int| k < slot_offset(si) && !locs.contains(k) implies #[trigger] (m2.mem)(k) == (m.mem)(k) by {
        assert(!locs1.contains(k)) by {
            if locs1.contains(k) {
                let j = choose|j: int| 0 <= j < locs1.len() && locs1[j] == k;
                if j < n0 {
                    assert(locs1.take(n0)[j] == k);
                    assert(locs.contains(k));
                }
            }
        }
        assert((m1.mem)(k) == (m.mem)(k));
    }
}

#[verifier::spinoff_prover]
#[verifier::rlimit(80)]
proof fn lemma_binds_runs(bs: Seq<(Seq<char>, ExprV)>, i: int, si: int, env: Map<Seq<char>, i32>, c: int, brk: Option<Seq<char>>, st: Stack, locs: Seq<int>, inp: Value, fuel: nat, p: Seq<Instr>, m: Machine) -> (n: nat)
    requires
        0 <= i <= bs.len(),
        binds_fault(bs, bs.len() as int, env.dom(), brk is Some) is None,
        binds_fit(bs, bs.len() as int, si),
        layout(env, st, locs, si),
        stored(m, st, locs),
        m.rdi == rep(inp),
        m.fault is None,
        placed(p, let_instrs(bs, i, si, env, c, brk), m.pc),
        labels_distinct(p),
        brk is Some ==> has_label(p, brk->0),
        eval_binds(bs, i, st, inp, fuel) is Some,
    ensures
        binds_ran(p, m, steps(p, m, n), let_instrs(bs, i, si, env, c, brk).len() as int, eval_binds(bs, i, st, inp, fuel).unwrap().0,
            st, eval_binds(bs, i, st, inp, fuel).unwrap().1, bs, i, env, locs, si, brk),
    decreases fuel, bs, i,
{
    let q = m.pc;
    let n0 = st.len() as int;
    if i == 0 {
        assert(let_locs(locs, si, 0) =~= locs);
        assert(st.take(n0) =~= st);
        assert(same_names(st, st));
        0
    } else {
        lemma_binds_mono(bs, i, bs.len() as int, si, env.dom(), brk is Some);
        lemma_binds_mono(bs, i - 1, bs.len() as int, si, env.dom(), brk is Some);
        let prev = let_spec(bs, i - 1, si, env, c, brk);
        law_let_slots(bs, i - 1, si, env, c, brk);
        let envp = let_env(bs, i - 1, si, env);
        let sip = si + i - 1;
        let x = bs[i - 1].1;
        let xi = instrs_spec(x, sip, envp, prev.counter, brk);
        let off = slot_offset(sip);
        let sv = seq![Instr::MovSlotRax(off)];
        let before = let_instrs(bs, i - 1, si, env, c, brk);
        assert(let_instrs(bs, i, si, env, c, brk) == before + lines(xi) + sv);
        lemma_placed_split(p, before + lines(xi), sv, q);
        lemma_placed_split(p, before, lines(xi), q);
        let n1 = lemma_binds_runs(bs, i - 1, si, env, c, brk, st, locs, inp, fuel, p, m);
        let m1 = steps(p, m, n1);
        let (o1, st1) = eval_binds(bs, i - 1, st, inp, fuel).unwrap();
        match o1 {
            Outcome::Done(_) => {
                let locs1 = let_locs(locs, si, i - 1);
                lemma_let_env_dom(bs, i - 1, si, env);
                assert(scope_fault(x, envp.dom(), brk is Some) is None);
                lemma_placed_lines(p, xi, q + before.len());
                let n2 = law_code_runs(x, sip, envp, prev.counter, brk, st1, locs1, inp, fuel, p, m1);
                let m2 = steps(p, m1, n2);
                lemma_steps_add(p, m, n1, n2);
                let (o2, st2) = eval(x, st1, inp, fuel).unwrap();
                assert(locs1.take(n0) =~= locs);
                assert forall|j: int| n0 <= j < locs1.len() implies slot_offset(si) <= #[trigger] locs1[j] by {}
                match o2 {
                    Outcome::Done(v) => {
                        lemma_placed_at(p, sv, q + before.len() + xi.len(), 0);
                        lemma_one_step(p, m2);
                        lemma_steps_add(p, m, n1 + n2, 1);
                        let m3 = step(p, m2);
                        let st3 = st2.push((bs[i - 1].0, v));
                        let locs3 = let_locs(locs, si, i);
                        assert(locs3 =~= locs1.push(off));
                        lemma_layout_names(envp, st1, st2, locs1, sip);
                        lemma_layout_push(envp, st2, locs1, sip, bs[i - 1].0, v);
                        assert(let_env(bs, i, si, env) == envp.insert(bs[i - 1].0, off as i32));
                        assert(stored(m3, st3, locs3)) by {
                            assert forall|j: int| #![trigger st3[j]] #![trigger locs3[j]] 0 <= j < st3.len() implies (m3.mem)(locs3[j]) == rep(st3[j].1) by {
                                if j < st2.len() {
                                    assert(locs1[j] < off);
                                    assert(st3[j] == st2[j]);
                                    assert(locs3[j] == locs1[j]);
                                }
                            }
                        }
                        lemma_binding_kept(m, m1, m2, st, st1, st2, locs, locs1, si, sip);
                        assert(st3.take(n0) =~= st2.take(n0));
                        assert(frame(m, m3, locs, si)) by {
                            assert forall|k: int| k < slot_offset(si) && !locs.contains(k) implies #[trigger] (m3.mem)(k) == (m.mem)(k) by {
                                assert((m2.mem)(k) == (m.mem)(k));
                            }
                        }
                        n1 + n2 + 1
                    },
                    Outcome::Broke(v) => {
                        lemma_binding_kept(m, m1, m2, st, st1, st2, locs, locs1, si, sip);
                        n1 + n2
                    },
                    Outcome::Fault(_) => n1 + n2,
                }
            },
            _ => n1,
        }
    }
}

#[verifier::spinoff_prover]
#[verifier::rlimit(60)]
proof fn lemma_let_runs(e: ExprV, si: int, env: Map<Seq<char>, i32>, c: int, brk: Option<Seq<char>>, st: Stack, locs: Seq<int>, inp: Value, fuel: nat, p: Seq<Instr>, m: Machine) -> (n: nat)
    requires
        e is Let,
        ready(e, si, env, c, brk, st, locs, inp, p, m),
        eval(e, st, inp, fuel) is Some,
    ensures
        runs_as_meant(e, si, env, c, brk, st, locs, inp, fuel, p, m, n),
    decreases fuel, e, 0int,
{
    let (bs, body) = match e {
        ExprV::Let(bs, body) => (bs, *body),
        _ => (Seq::empty(), e),
    };
    let q = m.pc;
    let n0 = st.len() as int;
    let nb = bs.len() as int;
    let stl = let_spec(bs, nb, si, env, c, brk);
    law_let_slots(bs, nb, si, env, c, brk);
    let li = let_instrs(bs, nb, si, env, c, brk);
    let benv = let_env(bs, nb, si, env);
    let bi = instrs_spec(body, si + nb, benv, stl.counter, brk);
    let f = instrs_spec(e, si, env, c, brk);
    if nb == 0 {
        assert(li =~= Seq::<Instr>::empty());
        assert(f == bi);
    } else {
        assert(f == li + lines(bi));
        lemma_placed_split(p, li, lines(bi), q);
        lemma_placed_lines(p, bi, q + li.len());
    }
    assert(placed(p, li, q));
    assert(placed(p, bi, q + li.len()));
    let n1 = lemma_binds_runs(bs, nb, si, env, c, brk, st, locs, inp, fuel, p, m);
    let m1 = steps(p, m, n1);
    let (o1, st1) = eval_binds(bs, nb, st, inp, fuel).unwrap();
    match o1 {
        Outcome::Done(_) => {
            let locs1 = let_locs(locs, si, nb);
            lemma_let_env_dom(bs, nb, si, env);
            assert(bs.take(nb) =~= bs);
            let n2 = law_code_runs(body, si + nb, benv, stl.counter, brk, st1, locs1, inp, fuel, p, m1);
            let m2 = steps(p, m1, n2);
            lemma_steps_add(p, m, n1, n2);
            let (o2, st2) = eval(body, st1, inp, fuel).unwrap();
            if !(o2 is Fault) {
                assert(locs1.take(n0) =~= locs);
                assert forall|j: int| n0 <= j < locs1.len() implies slot_offset(si) <= #[trigger] locs1[j] by {}
                lemma_binding_kept(m, m1, m2, st, st1, st2, locs, locs1, si, si + nb);
            }
            n1 + n2
        },
        _ => n1,
    }
}

/// The runtime prints a value's run-time form as the value.
pub proof fn law_value_printed(v: Value, x: i64)
    requires
        x == rep(v),
    ensures
        value_text_spec(x) == shown(v),
{
    lemma_tag_bit(x, v);
    if let Value::Num(n) = v {
        lemma_untag(x, n);
    }
}

/// A compiled Cobra program does what its expression means. Where a tree
/// compiles, the assembly file holds the text of the expression's
/// instructions, no label in them is defined twice, and every jump in them
/// goes to a label they define. Run from the first instruction with the
/// input's run-time form in `rdi`, the instructions end as the expression
/// evaluates, for any fuel that lets its loops finish: past
/// the last instruction with the value's run-time form in `rax`, or stopped
/// by the error routine with the error's code. A `break` never escapes. The
/// runtime then prints the value as [`shown`] writes it, or the message of
/// an invalid argument or of an overflow.
pub proof fn law_program_runs(t: SExpV, inp: Value, fuel: nat, m: Machine) -> (n: nat)
    requires
        program_spec(t) is Ok,
        eval(parse_spec(t)->Ok_0, Seq::empty(), inp, fuel) is Some,
        m.pc == 0,
        m.fault is None,
        m.rdi == rep(inp),
    ensures
        ({
            let e = parse_spec(t)->Ok_0;
            let code = instrs_spec(e, FIRST_SLOT as int, Map::empty(), 0, None);
            let m2 = steps(code, m, n);
            &&& program_spec(t)->Ok_0 == program_text(render_code(code))
            &&& labels_distinct(code)
            &&& jumps_resolved(code, None)
            &&& match eval(e, Seq::empty(), inp, fuel).unwrap().0 {
                Outcome::Done(v) => m2.pc == code.len() && m2.fault is None && m2.rax == rep(v)
                    && value_text_spec(m2.rax) == shown(v),
                Outcome::Fault(k) => m2.fault == Some(k as i64) && (error_message_spec(k as i64)
                    == "invalid argument"@ || error_message_spec(k as i64) == "overflow"@),
                Outcome::Broke(_) => false,
            }
        }),
{
    let e = parse_spec(t)->Ok_0;
    let si = FIRST_SLOT as int;
    let env: Map<Seq<char>, i32> = Map::empty();
    let st: Stack = Seq::empty();
    let locs: Seq<int> = Seq::empty();
    let code = instrs_spec(e, si, env, 0, None);
    law_code_is_instrs(e, si, env, 0, None);
    law_code_labels(e, si, env, 0, None);
    law_jump_targets(e, si, env, 0, None, Set::empty());
    assert(env.dom() =~= Set::<Seq<char>>::empty());
    assert forall|x: Seq<char>| #![trigger last_idx(st, x)] last_idx(st, x) == -1 by {}
    assert(layout(env, st, locs, si));
    assert(placed(code, code, 0)) by {
        assert forall|k: int| 0 <= k < code.len() implies code[0 + k] == #[trigger] code[k] by {}
    }
    let n = law_code_runs(e, si, env, 0, None, st, locs, inp, fuel, code, m);
    law_fault_codes(e, st, inp, fuel);
    if let Outcome::Done(v) = eval(e, st, inp, fuel).unwrap().0 {
        law_value_printed(v, steps(code, m, n).rax);
    }
    n
}

} // verus!
