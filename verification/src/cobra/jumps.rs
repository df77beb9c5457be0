//! Every jump in the code of a Cobra expression goes to a label that the same
//! code defines, or to the `break` target of the loop around it.

use vstd::prelude::*;
use crate::cobra::ast::{UnOp, BinOp, ExprV};
use crate::cobra::compile::{
    label, compile_spec, let_spec, block_spec, slot_offset, scope_fault, binds_fault, seq_fault, names_of, lemma_binds_mono,
    lemma_seq_mono,
};
use crate::cobra::machine::{
    Instr, Jump, lines, instrs_spec, let_instrs, block_instrs, check_instrs, overflow_instrs, choose_bool_instrs,
    unop_instrs, binop_instrs, comparison_kind,
};
use crate::cobra::run::{has_label, placed, lemma_placed_split};

verus! {

/// Whether every jump in `f` goes to a label that `g` defines, or to `brk`.
pub open spec fn jumps_into(f: Seq<Instr>, g: Seq<Instr>, brk: Option<Seq<char>>) -> bool {
    forall|k: int|
        0 <= k < f.len() && (#[trigger] f[k]) is Jump ==> has_label(g, f[k]->Jump_1) || brk == Some(f[k]->Jump_1)
}

/// Whether every jump in `f` goes to a label that `f` itself defines, or to
/// the `break` target `brk`.
pub open spec fn jumps_resolved(f: Seq<Instr>, brk: Option<Seq<char>>) -> bool {
    jumps_into(f, f, brk)
}

/// A label defined in code placed inside `g` is defined in `g`.
proof fn lemma_label_lift(a: Seq<Instr>, g: Seq<Instr>, q: int, l: Seq<char>)
    requires
        placed(g, a, q),
        has_label(a, l),
    ensures
        has_label(g, l),
{
    let k = choose|k: int| 0 <= k < a.len() && a[k] == Instr::Label(l);
    assert(g[q + k] == a[k]);
}

/// A label at a given position of code placed inside `g` is defined in `g`.
proof fn lemma_label_at(a: Seq<Instr>, g: Seq<Instr>, q: int, k: int, l: Seq<char>)
    requires
        placed(g, a, q),
        0 <= k < a.len(),
        a[k] == Instr::Label(l),
    ensures
        has_label(g, l),
{
    assert(g[q + k] == a[k]);
}

/// Code whose jumps are resolved within itself, placed inside `g`, jumps into
/// `g`.
proof fn lemma_jumps_lift(a: Seq<Instr>, g: Seq<Instr>, q: int, brk: Option<Seq<char>>)
    requires
        placed(g, a, q),
        jumps_resolved(a, brk),
    ensures
        jumps_into(a, g, brk),
{
    assert forall|k: int| 0 <= k < a.len() && (#[trigger] a[k]) is Jump implies has_label(g, a[k]->Jump_1) || brk == Some(
        a[k]->Jump_1,
    ) by {
        if has_label(a, a[k]->Jump_1) {
            lemma_label_lift(a, g, q, a[k]->Jump_1);
        }
    }
}

/// Joining two pieces that jump into `g`.
proof fn lemma_jumps_join(a: Seq<Instr>, b: Seq<Instr>, g: Seq<Instr>, brk: Option<Seq<char>>)
    requires
        jumps_into(a, g, brk),
        jumps_into(b, g, brk),
    ensures
        jumps_into(a + b, g, brk),
{
    assert forall|k: int| 0 <= k < (a + b).len() && (#[trigger] (a + b)[k]) is Jump implies has_label(g, (a + b)[k]->Jump_1)
        || brk == Some((a + b)[k]->Jump_1) by {
        if k < a.len() {
            assert((a + b)[k] == a[k]);
        } else {
            assert((a + b)[k] == b[k - a.len()]);
        }
    }
}

/// Code without jumps jumps into anything.
proof fn lemma_no_jumps(f: Seq<Instr>, g: Seq<Instr>, brk: Option<Seq<char>>)
    requires
        forall|k: int| 0 <= k < f.len() ==> !((#[trigger] f[k]) is Jump),
    ensures
        jumps_into(f, g, brk),
{
}

/// A fragment's lines jump where the fragment does.
proof fn lemma_jumps_lines(a: Seq<Instr>, brk: Option<Seq<char>>)
    requires
        jumps_resolved(a, brk),
    ensures
        jumps_resolved(lines(a), brk),
{
    if a.len() == 0 {
        assert(lines(a)[0] == Instr::Blank);
    }
}

/// Resolved code placed inside `g`, as lines.
proof fn lemma_lines_lift(a: Seq<Instr>, g: Seq<Instr>, q: int, brk: Option<Seq<char>>)
    requires
        placed(g, lines(a), q),
        jumps_resolved(a, brk),
    ensures
        jumps_into(lines(a), g, brk),
{
    lemma_jumps_lines(a, brk);
    lemma_jumps_lift(lines(a), g, q, brk);
}

proof fn lemma_check_jumps(t: Instr, c: int, brk: Option<Seq<char>>)
    requires
        t == Instr::TestRaxOne || t == Instr::TestRbxOne,
    ensures
        jumps_resolved(check_instrs(t, c), brk),
{
    let f = check_instrs(t, c);
    assert(f[4] == Instr::Label(label("num_ok"@, c)));
}

proof fn lemma_overflow_jumps(c: int, brk: Option<Seq<char>>)
    ensures
        jumps_resolved(overflow_instrs(c), brk),
{
    let f = overflow_instrs(c);
    assert(f[3] == Instr::Label(label("overflow_ok"@, c)));
}

proof fn lemma_choose_jumps(pt: Seq<char>, pd: Seq<char>, j: Jump, c: int, brk: Option<Seq<char>>)
    ensures
        jumps_resolved(choose_bool_instrs(pt, pd, j, c), brk),
{
    let f = choose_bool_instrs(pt, pd, j, c);
    assert(f[3] == Instr::Label(label(pt, c)));
    assert(f[5] == Instr::Label(label(pd, c + 1)));
}

/// Joining pieces that are each resolved within themselves.
proof fn lemma_join_resolved(a: Seq<Instr>, b: Seq<Instr>, brk: Option<Seq<char>>)
    requires
        jumps_resolved(a, brk),
        jumps_resolved(b, brk),
    ensures
        jumps_resolved(a + b, brk),
{
    let g = a + b;
    assert(placed(g, g, 0)) by {
        assert forall|k: int| 0 <= k < g.len() implies g[0 + k] == #[trigger] g[k] by {}
    }
    lemma_placed_split(g, a, b, 0);
    lemma_jumps_lift(a, g, 0, brk);
    lemma_jumps_lift(b, g, a.len() as int, brk);
    lemma_jumps_join(a, b, g, brk);
}

proof fn lemma_plain_jumps(i: Instr, brk: Option<Seq<char>>)
    requires
        !(i is Jump),
    ensures
        jumps_resolved(seq![i], brk),
{
    lemma_no_jumps(seq![i], seq![i], brk);
}

proof fn lemma_plain2_jumps(i: Instr, j: Instr, brk: Option<Seq<char>>)
    requires
        !(i is Jump),
        !(j is Jump),
    ensures
        jumps_resolved(seq![i, j], brk),
{
    lemma_no_jumps(seq![i, j], seq![i, j], brk);
}

proof fn lemma_unop_jumps(op: UnOp, c: int, brk: Option<Seq<char>>)
    ensures
        jumps_resolved(unop_instrs(op, c), brk),
{
    match op {
        UnOp::IsNum => {
            lemma_plain_jumps(Instr::TestRaxOne, brk);
            lemma_choose_jumps("isnum_true"@, "isnum_done"@, Jump::Jz, c, brk);
            lemma_join_resolved(seq![Instr::TestRaxOne], choose_bool_instrs("isnum_true"@, "isnum_done"@, Jump::Jz, c), brk);
        },
        UnOp::IsBool => {
            lemma_plain_jumps(Instr::TestRaxOne, brk);
            lemma_choose_jumps("isbool_true"@, "isbool_done"@, Jump::Jnz, c, brk);
            lemma_join_resolved(seq![Instr::TestRaxOne], choose_bool_instrs("isbool_true"@, "isbool_done"@, Jump::Jnz, c), brk);
        },
        _ => {
            let mid = match op {
                UnOp::Add1 => Instr::AddRaxTwo,
                UnOp::Sub1 => Instr::SubRaxTwo,
                _ => Instr::NegRax,
            };
            let ch = check_instrs(Instr::TestRaxOne, c);
            lemma_check_jumps(Instr::TestRaxOne, c, brk);
            lemma_plain_jumps(mid, brk);
            lemma_overflow_jumps(c + 1, brk);
            lemma_join_resolved(ch, seq![mid], brk);
            lemma_join_resolved(ch + seq![mid], overflow_instrs(c + 1), brk);
            assert(unop_instrs(op, c) == ch + seq![mid] + overflow_instrs(c + 1));
        },
    }
}

proof fn lemma_checks_jumps(off: int, c: int, brk: Option<Seq<char>>)
    ensures
        jumps_resolved(check_instrs(Instr::TestRaxOne, c) + seq![Instr::MovRbxSlot(off)] + check_instrs(Instr::TestRbxOne, c + 1), brk),
{
    let c1 = check_instrs(Instr::TestRaxOne, c);
    let c2 = check_instrs(Instr::TestRbxOne, c + 1);
    lemma_check_jumps(Instr::TestRaxOne, c, brk);
    lemma_check_jumps(Instr::TestRbxOne, c + 1, brk);
    lemma_plain_jumps(Instr::MovRbxSlot(off), brk);
    lemma_join_resolved(c1, seq![Instr::MovRbxSlot(off)], brk);
    lemma_join_resolved(c1 + seq![Instr::MovRbxSlot(off)], c2, brk);
}

#[verifier::spinoff_prover]
#[verifier::rlimit(40)]
proof fn lemma_binop_jumps(op: BinOp, off: int, c: int, brk: Option<Seq<char>>)
    ensures
        jumps_resolved(binop_instrs(op, off, c), brk),
{
    let checks = check_instrs(Instr::TestRaxOne, c) + seq![Instr::MovRbxSlot(off)] + check_instrs(Instr::TestRbxOne, c + 1);
    match op {
        BinOp::Plus => {
            lemma_checks_jumps(off, c, brk);
            lemma_plain_jumps(Instr::AddRaxRbx, brk);
            lemma_overflow_jumps(c + 2, brk);
            lemma_join_resolved(checks, seq![Instr::AddRaxRbx], brk);
            lemma_join_resolved(checks + seq![Instr::AddRaxRbx], overflow_instrs(c + 2), brk);
        },
        BinOp::Minus => {
            lemma_checks_jumps(off, c, brk);
            lemma_plain2_jumps(Instr::SubRbxRax, Instr::MovRaxRbx, brk);
            lemma_overflow_jumps(c + 2, brk);
            lemma_join_resolved(checks, seq![Instr::SubRbxRax, Instr::MovRaxRbx], brk);
            lemma_join_resolved(checks + seq![Instr::SubRbxRax, Instr::MovRaxRbx], overflow_instrs(c + 2), brk);
        },
        BinOp::Times => {
            let c1 = check_instrs(Instr::TestRaxOne, c);
            let c2 = check_instrs(Instr::TestRbxOne, c + 1);
            let m1 = seq![Instr::SarRaxOne, Instr::MovRbxSlot(off)];
            lemma_check_jumps(Instr::TestRaxOne, c, brk);
            lemma_check_jumps(Instr::TestRbxOne, c + 1, brk);
            lemma_plain2_jumps(Instr::SarRaxOne, Instr::MovRbxSlot(off), brk);
            lemma_plain_jumps(Instr::ImulRaxRbx, brk);
            lemma_overflow_jumps(c + 2, brk);
            lemma_join_resolved(c1, m1, brk);
            lemma_join_resolved(c1 + m1, c2, brk);
            lemma_join_resolved(c1 + m1 + c2, seq![Instr::ImulRaxRbx], brk);
            lemma_join_resolved(c1 + m1 + c2 + seq![Instr::ImulRaxRbx], overflow_instrs(c + 2), brk);
        },
        BinOp::Equal => {
            let ok = label("eq_type_ok"@, c);
            let first = seq![
                Instr::MovRbxSlot(off),
                Instr::MovRcxRbx,
                Instr::XorRcxRax,
                Instr::TestRcxOne,
                Instr::Jump(Jump::Jz, ok),
                Instr::MovRdiImm(1),
                Instr::CallError,
                Instr::Label(ok),
                Instr::CmpRbxRax,
            ];
            assert(first[7] == Instr::Label(ok));
            assert(jumps_resolved(first, brk));
            lemma_choose_jumps("bool_true"@, "bool_done"@, Jump::Je, c + 1, brk);
            lemma_join_resolved(first, choose_bool_instrs("bool_true"@, "bool_done"@, Jump::Je, c + 1), brk);
        },
        _ => {
            let ch = choose_bool_instrs("bool_true"@, "bool_done"@, comparison_kind(op), c + 2);
            lemma_checks_jumps(off, c, brk);
            lemma_plain_jumps(Instr::CmpRbxRax, brk);
            lemma_choose_jumps("bool_true"@, "bool_done"@, comparison_kind(op), c + 2, brk);
            lemma_join_resolved(checks, seq![Instr::CmpRbxRax], brk);
            lemma_join_resolved(checks + seq![Instr::CmpRbxRax], ch, brk);
        },
    }
}

/// Every jump in the code of a well-scoped expression (one the code generator
/// accepts, with the names `bound` in scope and a `break` target exactly when
/// it is in a loop) goes to a label defined in that code, or to the `break`
/// target `brk` of the loop around it: the code of a loop's body may jump to
/// the loop's end, and nothing else leaves it.
#[verifier::spinoff_prover]
#[verifier::rlimit(60)]
pub proof fn law_jump_targets(e: ExprV, si: int, env: Map<Seq<char>, i32>, c: int, brk: Option<Seq<char>>, bound: Set<Seq<char>>)
    requires
        scope_fault(e, bound, brk is Some) is None,
    ensures
        jumps_resolved(instrs_spec(e, si, env, c, brk), brk),
    decreases e, 1int,
{
    let f = instrs_spec(e, si, env, c, brk);
    match e {
        ExprV::UnOp(op, a) => {
            law_jump_targets(*a, si, env, c, brk, bound);
            let ai = instrs_spec(*a, si, env, c, brk);
            let c1 = compile_spec(*a, si, env, c, brk).1;
            lemma_jumps_lines(ai, brk);
            lemma_unop_jumps(op, c1, brk);
            lemma_join_resolved(lines(ai), unop_instrs(op, c1), brk);
        },
        ExprV::BinOp(op, l, r) => {
            law_jump_targets(*l, si, env, c, brk, bound);
            let c1 = compile_spec(*l, si, env, c, brk).1;
            law_jump_targets(*r, si + 1, env, c1, brk, bound);
            let c2 = compile_spec(*r, si + 1, env, c1, brk).1;
            let li = instrs_spec(*l, si, env, c, brk);
            let ri = instrs_spec(*r, si + 1, env, c1, brk);
            let sv = seq![Instr::MovSlotRax(slot_offset(si))];
            lemma_jumps_lines(li, brk);
            lemma_jumps_lines(ri, brk);
            lemma_plain_jumps(Instr::MovSlotRax(slot_offset(si)), brk);
            lemma_binop_jumps(op, slot_offset(si), c2, brk);
            lemma_join_resolved(lines(li), sv, brk);
            lemma_join_resolved(lines(li) + sv, lines(ri), brk);
            lemma_join_resolved(lines(li) + sv + lines(ri), binop_instrs(op, slot_offset(si), c2), brk);
        },
        ExprV::Let(bs, body) => {
            let nb = bs.len() as int;
            let stl = let_spec(bs, nb, si, env, c, brk);
            lemma_let_jumps(bs, nb, si, env, c, brk, bound);
            law_jump_targets(*body, stl.si, stl.env, stl.counter, brk, bound + names_of(bs));
            let bi = instrs_spec(*body, stl.si, stl.env, stl.counter, brk);
            if nb > 0 {
                lemma_jumps_lines(bi, brk);
                lemma_join_resolved(let_instrs(bs, nb, si, env, c, brk), lines(bi), brk);
            }
        },
        ExprV::If(_, _, _) => {
            lemma_if_jumps(e, si, env, c, brk, bound);
        },
        ExprV::Block(es) => {
            lemma_block_jumps(es, es.len() as int, si, env, c, brk, bound);
        },
        ExprV::Loop(_) => {
            lemma_loop_jumps(e, si, env, c, brk, bound);
        },
        ExprV::Break(a) => {
            law_jump_targets(*a, si, env, c, brk, bound);
            let ai = instrs_spec(*a, si, env, c, brk);
            lemma_jumps_lines(ai, brk);
            let j = seq![Instr::Jump(Jump::Jmp, brk->0)];
            assert(jumps_resolved(j, brk));
            lemma_join_resolved(lines(ai), j, brk);
        },
        ExprV::SetVar(x, a) => {
            law_jump_targets(*a, si, env, c, brk, bound);
            let ai = instrs_spec(*a, si, env, c, brk);
            lemma_jumps_lines(ai, brk);
            lemma_plain_jumps(Instr::MovSlotRax(env[x] as int), brk);
            lemma_join_resolved(lines(ai), seq![Instr::MovSlotRax(env[x] as int)], brk);
        },
        _ => {
            lemma_no_jumps(f, f, brk);
        },
    }
}

#[verifier::spinoff_prover]
#[verifier::rlimit(60)]
proof fn lemma_if_jumps(e: ExprV, si: int, env: Map<Seq<char>, i32>, c: int, brk: Option<Seq<char>>, bound: Set<Seq<char>>)
    requires
        e is If,
        scope_fault(e, bound, brk is Some) is None,
    ensures
        jumps_resolved(instrs_spec(e, si, env, c, brk), brk),
    decreases e, 0int,
{
    let (cond, thn, els) = match e {
        ExprV::If(a, b, d) => (*a, *b, *d),
        _ => (e, e, e),
    };
    let else_l = label("if_else"@, c);
    let done_l = label("if_done"@, c + 1);
    law_jump_targets(cond, si, env, c + 2, brk, bound);
    let c1 = compile_spec(cond, si, env, c + 2, brk).1;
    law_jump_targets(thn, si, env, c1, brk, bound);
    let c2 = compile_spec(thn, si, env, c1, brk).1;
    law_jump_targets(els, si, env, c2, brk, bound);
    let ci = instrs_spec(cond, si, env, c + 2, brk);
    let ti = instrs_spec(thn, si, env, c1, brk);
    let ei = instrs_spec(els, si, env, c2, brk);
    let b1 = seq![Instr::CmpRaxImm(1), Instr::Jump(Jump::Je, else_l)];
    let b2 = seq![Instr::Jump(Jump::Jmp, done_l), Instr::Label(else_l)];
    let b3 = seq![Instr::Label(done_l)];
    let g = lines(ci) + b1 + lines(ti) + b2 + lines(ei) + b3;
    assert(instrs_spec(e, si, env, c, brk) == g);
    assert(placed(g, g, 0)) by {
        assert forall|k: int| 0 <= k < g.len() implies g[0 + k] == #[trigger] g[k] by {}
    }
    let q1 = lines(ci).len() as int;
    let q2 = q1 + 2;
    let q3 = q2 + lines(ti).len();
    let q4 = q3 + 2;
    let q5 = q4 + lines(ei).len();
    lemma_placed_split(g, lines(ci) + b1 + lines(ti) + b2 + lines(ei), b3, 0);
    lemma_placed_split(g, lines(ci) + b1 + lines(ti) + b2, lines(ei), 0);
    lemma_placed_split(g, lines(ci) + b1 + lines(ti), b2, 0);
    lemma_placed_split(g, lines(ci) + b1, lines(ti), 0);
    lemma_placed_split(g, lines(ci), b1, 0);
    lemma_label_at(b2, g, q3, 1, else_l);
    lemma_label_at(b3, g, q5, 0, done_l);
    lemma_lines_lift(ci, g, 0, brk);
    lemma_lines_lift(ti, g, q2, brk);
    lemma_lines_lift(ei, g, q4, brk);
    assert(jumps_into(b1, g, brk));
    assert(jumps_into(b2, g, brk));
    assert(jumps_into(b3, g, brk));
    lemma_jumps_join(lines(ci), b1, g, brk);
    lemma_jumps_join(lines(ci) + b1, lines(ti), g, brk);
    lemma_jumps_join(lines(ci) + b1 + lines(ti), b2, g, brk);
    lemma_jumps_join(lines(ci) + b1 + lines(ti) + b2, lines(ei), g, brk);
    lemma_jumps_join(lines(ci) + b1 + lines(ti) + b2 + lines(ei), b3, g, brk);
}

#[verifier::spinoff_prover]
#[verifier::rlimit(60)]
proof fn lemma_loop_jumps(e: ExprV, si: int, env: Map<Seq<char>, i32>, c: int, brk: Option<Seq<char>>, bound: Set<Seq<char>>)
    requires
        e is Loop,
        scope_fault(e, bound, brk is Some) is None,
    ensures
        jumps_resolved(instrs_spec(e, si, env, c, brk), brk),
    decreases e, 0int,
{
    let body = match e {
        ExprV::Loop(a) => *a,
        _ => e,
    };
    let start_l = label("loop_start"@, c);
    let end_l = label("loop_end"@, c + 1);
    law_jump_targets(body, si, env, c + 2, Some(end_l), bound);
    let bi = instrs_spec(body, si, env, c + 2, Some(end_l));
    let h = seq![Instr::Label(start_l)];
    let t = seq![Instr::Jump(Jump::Jmp, start_l), Instr::Label(end_l)];
    let g = h + lines(bi) + t;
    assert(instrs_spec(e, si, env, c, brk) == g);
    assert(placed(g, g, 0)) by {
        assert forall|k: int| 0 <= k < g.len() implies g[0 + k] == #[trigger] g[k] by {}
    }
    lemma_placed_split(g, h + lines(bi), t, 0);
    lemma_placed_split(g, h, lines(bi), 0);
    let qt: int = 1 + lines(bi).len() as int;
    lemma_label_at(h, g, 0, 0, start_l);
    lemma_label_at(t, g, qt, 1, end_l);
    lemma_jumps_lines(bi, Some(end_l));
    lemma_jumps_lift(lines(bi), g, 1, Some(end_l));
    assert(jumps_into(lines(bi), g, brk)) by {
        let a = lines(bi);
        assert forall|k: int| 0 <= k < a.len() && (#[trigger] a[k]) is Jump implies has_label(g, a[k]->Jump_1) || brk == Some(
            a[k]->Jump_1,
        ) by {
            assert(has_label(g, a[k]->Jump_1) || Some(end_l) == Some(a[k]->Jump_1));
        }
    }
    assert(jumps_into(h, g, brk));
    assert(jumps_into(t, g, brk));
    lemma_jumps_join(h, lines(bi), g, brk);
    lemma_jumps_join(h + lines(bi), t, g, brk);
}

proof fn lemma_let_jumps(bs: Seq<(Seq<char>, ExprV)>, i: int, si: int, env: Map<Seq<char>, i32>, c: int, brk: Option<Seq<char>>, bound: Set<Seq<char>>)
    requires
        0 <= i <= bs.len(),
        binds_fault(bs, bs.len() as int, bound, brk is Some) is None,
    ensures
        jumps_resolved(let_instrs(bs, i, si, env, c, brk), brk),
    decreases bs, i,
{
    if i == 0 {
        lemma_no_jumps(let_instrs(bs, i, si, env, c, brk), let_instrs(bs, i, si, env, c, brk), brk);
    } else {
        lemma_binds_mono(bs, i, bs.len() as int, si, bound, brk is Some);
        lemma_let_jumps(bs, i - 1, si, env, c, brk, bound);
        let prev = let_spec(bs, i - 1, si, env, c, brk);
        law_jump_targets(bs[i - 1].1, prev.si, prev.env, prev.counter, brk, bound + names_of(bs.take(i - 1)));
        let xi = instrs_spec(bs[i - 1].1, prev.si, prev.env, prev.counter, brk);
        let before = let_instrs(bs, i - 1, si, env, c, brk);
        let sv = seq![Instr::MovSlotRax(slot_offset(prev.si))];
        lemma_jumps_lines(xi, brk);
        lemma_plain_jumps(Instr::MovSlotRax(slot_offset(prev.si)), brk);
        lemma_join_resolved(before, lines(xi), brk);
        lemma_join_resolved(before + lines(xi), sv, brk);
    }
}

proof fn lemma_block_jumps(es: Seq<ExprV>, i: int, si: int, env: Map<Seq<char>, i32>, c: int, brk: Option<Seq<char>>, bound: Set<Seq<char>>)
    requires
        0 <= i <= es.len(),
        seq_fault(es, es.len() as int, bound, brk is Some) is None,
    ensures
        jumps_resolved(block_instrs(es, i, si, env, c, brk), brk),
    decreases es, i,
{
    lemma_seq_mono(es, i, es.len() as int, si, bound, brk is Some);
    if i == 0 {
        lemma_no_jumps(block_instrs(es, i, si, env, c, brk), block_instrs(es, i, si, env, c, brk), brk);
    } else if i == 1 {
        law_jump_targets(es[0], si, env, c, brk, bound);
    } else {
        lemma_seq_mono(es, i - 1, es.len() as int, si, bound, brk is Some);
        lemma_block_jumps(es, i - 1, si, env, c, brk, bound);
        let c1 = block_spec(es, i - 1, si, env, c, brk).1;
        law_jump_targets(es[i - 1], si, env, c1, brk, bound);
        let a = block_instrs(es, i - 1, si, env, c, brk);
        let b = instrs_spec(es[i - 1], si, env, c1, brk);
        lemma_jumps_lines(a, brk);
        lemma_jumps_lines(b, brk);
        lemma_join_resolved(lines(a), lines(b), brk);
    }
}

} // verus!
