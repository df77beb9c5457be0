//! No label is defined twice in the code of a Cobra program.

use vstd::prelude::*;
use crate::text::decimal;
use crate::runtime::{lemma_nat_digits, law_decimal_injective, is_digit};
use crate::cobra::ast::{UnOp, BinOp, ExprV};
use crate::cobra::compile::{label, compile_spec, let_spec, block_spec, label_count, binds_labels, seq_labels, binop_labels, slot_offset};
use crate::cobra::machine::{
    Instr, Jump, lines, instrs_spec, let_instrs, block_instrs, check_instrs, overflow_instrs, choose_bool_instrs,
    unop_instrs, binop_instrs, comparison_kind,
};
use crate::cobra::run::labels_distinct;
use crate::cobra::laws::{law_counter_advance, lemma_let_counter, lemma_block_counter};

verus! {

/// The counter values from `lo` up to (not including) `hi`.
pub open spec fn span(lo: int, hi: int) -> Set<int> {
    Set::new(|n: int| lo <= n < hi)
}

/// Whether label `l` is made from some prefix and a counter value in `s`
/// that fits in an `i64`.
pub open spec fn numbered(l: Seq<char>, s: Set<int>) -> bool {
    exists|pre: Seq<char>, n: int| 0 <= n <= i64::MAX && s.contains(n) && l == #[trigger] label(pre, n)
}

/// Whether every label that `f` defines is numbered from `s`.
pub open spec fn labels_within(f: Seq<Instr>, s: Set<int>) -> bool {
    forall|k: int| 0 <= k < f.len() && (#[trigger] f[k]) is Label ==> numbered(f[k]->Label_0, s)
}

/// Labels made from different counter values differ, whatever their prefixes:
/// the counter is what follows the last underscore.
pub proof fn law_label_numbers(p1: Seq<char>, n1: int, p2: Seq<char>, n2: int)
    requires
        0 <= n1 <= i64::MAX,
        0 <= n2 <= i64::MAX,
        label(p1, n1) == label(p2, n2),
    ensures
        n1 == n2,
{
    reveal_strlit("_");
    let d1 = decimal(n1);
    let d2 = decimal(n2);
    lemma_nat_digits(n1 as nat);
    lemma_nat_digits(n2 as nat);
    let s = label(p1, n1);
    assert(s == p1 + "_"@ + d1);
    assert(s == p2 + "_"@ + d2);
    let len = s.len() as int;
    if d1.len() < d2.len() {
        let t = len - d1.len() - 1;
        assert(s[t] == '_');
        assert(s[t] == d2[t - (len - d2.len())]);
        assert(is_digit(d2[t - (len - d2.len())]));
    } else if d2.len() < d1.len() {
        let t = len - d2.len() - 1;
        assert(s[t] == '_');
        assert(s[t] == d1[t - (len - d1.len())]);
        assert(is_digit(d1[t - (len - d1.len())]));
    } else {
        assert(d1 =~= s.subrange(len - d1.len(), len));
        assert(d2 =~= s.subrange(len - d2.len(), len));
        law_decimal_injective(n1 as i64, n2 as i64);
    }
}

/// A label numbered from two sets shows that they share a counter value.
proof fn lemma_numbered_disjoint(l: Seq<char>, s1: Set<int>, s2: Set<int>)
    requires
        numbered(l, s1),
        numbered(l, s2),
    ensures
        !s1.disjoint(s2),
{
    let (p1, n1) = choose|pre: Seq<char>, n: int| 0 <= n <= i64::MAX && s1.contains(n) && l == #[trigger] label(pre, n);
    let (p2, n2) = choose|pre: Seq<char>, n: int| 0 <= n <= i64::MAX && s2.contains(n) && l == #[trigger] label(pre, n);
    law_label_numbers(p1, n1, p2, n2);
    assert(s1.contains(n1) && s2.contains(n1));
}

/// Joining code whose labels come from disjoint counter values keeps the
/// labels distinct.
pub proof fn lemma_labels_join(a: Seq<Instr>, b: Seq<Instr>, s1: Set<int>, s2: Set<int>)
    requires
        labels_distinct(a),
        labels_distinct(b),
        labels_within(a, s1),
        labels_within(b, s2),
        s1.disjoint(s2),
    ensures
        labels_distinct(a + b),
        labels_within(a + b, s1 + s2),
{
    let f = a + b;
    assert forall|i: int, j: int|
        0 <= i < f.len() && 0 <= j < f.len() && #[trigger] f[i] == #[trigger] f[j] && f[i] is Label implies i == j by {
        if i < a.len() && j < a.len() {
            assert(a[i] == f[i] && a[j] == f[j]);
        } else if i >= a.len() && j >= a.len() {
            assert(b[i - a.len()] == f[i] && b[j - a.len()] == f[j]);
        } else if i < a.len() {
            assert(a[i] == f[i] && b[j - a.len()] == f[j]);
            lemma_numbered_disjoint(f[i]->Label_0, s1, s2);
        } else {
            assert(a[j] == f[j] && b[i - a.len()] == f[i]);
            lemma_numbered_disjoint(f[i]->Label_0, s1, s2);
        }
    }
    assert forall|k: int| 0 <= k < f.len() && (#[trigger] f[k]) is Label implies numbered(f[k]->Label_0, s1 + s2) by {
        let l = f[k]->Label_0;
        if k < a.len() {
            assert(a[k] == f[k]);
            let (p, n) = choose|pre: Seq<char>, n: int| 0 <= n <= i64::MAX && s1.contains(n) && l == #[trigger] label(pre, n);
            assert((s1 + s2).contains(n));
        } else {
            assert(b[k - a.len()] == f[k]);
            let (p, n) = choose|pre: Seq<char>, n: int| 0 <= n <= i64::MAX && s2.contains(n) && l == #[trigger] label(pre, n);
            assert((s1 + s2).contains(n));
        }
    }
}

/// Labels within a set are within any larger set.
pub proof fn lemma_labels_widen(f: Seq<Instr>, s1: Set<int>, s2: Set<int>)
    requires
        labels_within(f, s1),
        s1.subset_of(s2),
    ensures
        labels_within(f, s2),
{
    assert forall|k: int| 0 <= k < f.len() && (#[trigger] f[k]) is Label implies numbered(f[k]->Label_0, s2) by {
        let l = f[k]->Label_0;
        let (p, n) = choose|pre: Seq<char>, n: int| 0 <= n <= i64::MAX && s1.contains(n) && l == #[trigger] label(pre, n);
        assert(s2.contains(n));
    }
}

/// A fragment's lines have the fragment's labels.
proof fn lemma_labels_lines(a: Seq<Instr>, s: Set<int>)
    requires
        labels_distinct(a),
        labels_within(a, s),
    ensures
        labels_distinct(lines(a)),
        labels_within(lines(a), s),
{
    if a.len() == 0 {
        assert(lines(a)[0] == Instr::Blank);
    }
}

/// Code that defines one label, made from counter value `n`.
proof fn lemma_one_label(f: Seq<Instr>, k: int, pre: Seq<char>, n: int)
    requires
        0 <= k < f.len(),
        f[k] == Instr::Label(label(pre, n)),
        forall|j: int| 0 <= j < f.len() && j != k ==> !((#[trigger] f[j]) is Label),
        0 <= n <= i64::MAX,
    ensures
        labels_distinct(f),
        labels_within(f, span(n, n + 1)),
{
    assert(span(n, n + 1).contains(n));
    assert(numbered(label(pre, n), span(n, n + 1)));
}

/// Code that defines no label.
proof fn lemma_no_label(f: Seq<Instr>, s: Set<int>)
    requires
        forall|j: int| 0 <= j < f.len() ==> !((#[trigger] f[j]) is Label),
    ensures
        labels_distinct(f),
        labels_within(f, s),
{
}

/// Joining code numbered from consecutive spans.
pub proof fn lemma_join_spans(a: Seq<Instr>, b: Seq<Instr>, lo: int, mid: int, hi: int)
    requires
        labels_distinct(a),
        labels_distinct(b),
        labels_within(a, span(lo, mid)),
        labels_within(b, span(mid, hi)),
        lo <= mid <= hi,
    ensures
        labels_distinct(a + b),
        labels_within(a + b, span(lo, hi)),
{
    lemma_labels_join(a, b, span(lo, mid), span(mid, hi));
    lemma_labels_widen(a + b, span(lo, mid) + span(mid, hi), span(lo, hi));
}

proof fn lemma_check_labels(t: Instr, c: int)
    requires
        t == Instr::TestRaxOne || t == Instr::TestRbxOne,
        0 <= c <= i64::MAX,
    ensures
        labels_distinct(check_instrs(t, c)),
        labels_within(check_instrs(t, c), span(c, c + 1)),
{
    lemma_one_label(check_instrs(t, c), 4, "num_ok"@, c);
}

proof fn lemma_overflow_labels(c: int)
    requires
        0 <= c <= i64::MAX,
    ensures
        labels_distinct(overflow_instrs(c)),
        labels_within(overflow_instrs(c), span(c, c + 1)),
{
    lemma_one_label(overflow_instrs(c), 3, "overflow_ok"@, c);
}

proof fn lemma_choose_labels(pt: Seq<char>, pd: Seq<char>, j: Jump, c: int)
    requires
        0 <= c,
        c + 1 <= i64::MAX,
    ensures
        labels_distinct(choose_bool_instrs(pt, pd, j, c)),
        labels_within(choose_bool_instrs(pt, pd, j, c), span(c, c + 2)),
{
    let f = choose_bool_instrs(pt, pd, j, c);
    let a = f.subrange(0, 4);
    let b = f.subrange(4, 6);
    assert(f == a + b);
    lemma_one_label(a, 3, pt, c);
    lemma_one_label(b, 1, pd, c + 1);
    lemma_join_spans(a, b, c, c + 1, c + 2);
}

/// A single instruction that is no label.
proof fn lemma_plain(i: Instr, lo: int)
    requires
        !(i is Label),
    ensures
        labels_distinct(seq![i]),
        labels_within(seq![i], span(lo, lo)),
{
    lemma_no_label(seq![i], span(lo, lo));
}

proof fn lemma_unop_labels(op: UnOp, c: int)
    requires
        0 <= c,
        c + 2 <= i64::MAX,
    ensures
        labels_distinct(unop_instrs(op, c)),
        labels_within(unop_instrs(op, c), span(c, c + 2)),
{
    match op {
        UnOp::IsNum => {
            lemma_plain(Instr::TestRaxOne, c);
            lemma_choose_labels("isnum_true"@, "isnum_done"@, Jump::Jz, c);
            lemma_join_spans(seq![Instr::TestRaxOne], choose_bool_instrs("isnum_true"@, "isnum_done"@, Jump::Jz, c), c, c, c + 2);
        },
        UnOp::IsBool => {
            lemma_plain(Instr::TestRaxOne, c);
            lemma_choose_labels("isbool_true"@, "isbool_done"@, Jump::Jnz, c);
            lemma_join_spans(seq![Instr::TestRaxOne], choose_bool_instrs("isbool_true"@, "isbool_done"@, Jump::Jnz, c), c, c, c + 2);
        },
        _ => {
            let mid = match op {
                UnOp::Add1 => Instr::AddRaxTwo,
                UnOp::Sub1 => Instr::SubRaxTwo,
                _ => Instr::NegRax,
            };
            let ch = check_instrs(Instr::TestRaxOne, c);
            lemma_check_labels(Instr::TestRaxOne, c);
            lemma_plain(mid, c + 1);
            lemma_overflow_labels(c + 1);
            lemma_join_spans(ch, seq![mid], c, c + 1, c + 1);
            lemma_join_spans(ch + seq![mid], overflow_instrs(c + 1), c, c + 1, c + 2);
            assert(unop_instrs(op, c) == ch + seq![mid] + overflow_instrs(c + 1));
        },
    }
}

/// Two plain instructions.
proof fn lemma_plain2(i: Instr, j: Instr, lo: int)
    requires
        !(i is Label),
        !(j is Label),
    ensures
        labels_distinct(seq![i, j]),
        labels_within(seq![i, j], span(lo, lo)),
{
    lemma_no_label(seq![i, j], span(lo, lo));
}

proof fn lemma_checks_labels(off: int, c: int)
    requires
        0 <= c,
        c + 2 <= i64::MAX,
    ensures
        labels_distinct(check_instrs(Instr::TestRaxOne, c) + seq![Instr::MovRbxSlot(off)] + check_instrs(Instr::TestRbxOne, c + 1)),
        labels_within(check_instrs(Instr::TestRaxOne, c) + seq![Instr::MovRbxSlot(off)] + check_instrs(Instr::TestRbxOne, c + 1), span(c, c + 2)),
{
    let c1 = check_instrs(Instr::TestRaxOne, c);
    let c2 = check_instrs(Instr::TestRbxOne, c + 1);
    lemma_check_labels(Instr::TestRaxOne, c);
    lemma_check_labels(Instr::TestRbxOne, c + 1);
    lemma_plain(Instr::MovRbxSlot(off), c + 1);
    lemma_join_spans(c1, seq![Instr::MovRbxSlot(off)], c, c + 1, c + 1);
    lemma_join_spans(c1 + seq![Instr::MovRbxSlot(off)], c2, c, c + 1, c + 2);
}

#[verifier::spinoff_prover]
#[verifier::rlimit(40)]
proof fn lemma_binop_labels(op: BinOp, off: int, c: int)
    requires
        0 <= c,
        c + binop_labels(op) <= i64::MAX,
    ensures
        labels_distinct(binop_instrs(op, off, c)),
        labels_within(binop_instrs(op, off, c), span(c, c + binop_labels(op))),
{
    let checks = check_instrs(Instr::TestRaxOne, c) + seq![Instr::MovRbxSlot(off)] + check_instrs(Instr::TestRbxOne, c + 1);
    match op {
        BinOp::Plus => {
            lemma_checks_labels(off, c);
            lemma_plain(Instr::AddRaxRbx, c + 2);
            lemma_overflow_labels(c + 2);
            lemma_join_spans(checks, seq![Instr::AddRaxRbx], c, c + 2, c + 2);
            lemma_join_spans(checks + seq![Instr::AddRaxRbx], overflow_instrs(c + 2), c, c + 2, c + 3);
        },
        BinOp::Minus => {
            lemma_checks_labels(off, c);
            lemma_plain2(Instr::SubRbxRax, Instr::MovRaxRbx, c + 2);
            lemma_overflow_labels(c + 2);
            lemma_join_spans(checks, seq![Instr::SubRbxRax, Instr::MovRaxRbx], c, c + 2, c + 2);
            lemma_join_spans(checks + seq![Instr::SubRbxRax, Instr::MovRaxRbx], overflow_instrs(c + 2), c, c + 2, c + 3);
        },
        BinOp::Times => {
            let c1 = check_instrs(Instr::TestRaxOne, c);
            let c2 = check_instrs(Instr::TestRbxOne, c + 1);
            let m1 = seq![Instr::SarRaxOne, Instr::MovRbxSlot(off)];
            lemma_check_labels(Instr::TestRaxOne, c);
            lemma_check_labels(Instr::TestRbxOne, c + 1);
            lemma_plain2(Instr::SarRaxOne, Instr::MovRbxSlot(off), c + 1);
            lemma_plain(Instr::ImulRaxRbx, c + 2);
            lemma_overflow_labels(c + 2);
            lemma_join_spans(c1, m1, c, c + 1, c + 1);
            lemma_join_spans(c1 + m1, c2, c, c + 1, c + 2);
            lemma_join_spans(c1 + m1 + c2, seq![Instr::ImulRaxRbx], c, c + 2, c + 2);
            lemma_join_spans(c1 + m1 + c2 + seq![Instr::ImulRaxRbx], overflow_instrs(c + 2), c, c + 2, c + 3);
        },
        BinOp::Equal => {
            let ok = label("eq_type_ok"@, c);
            let first = seq![
                Instr::MovRbxSlot(off),
                Instr::MovRcxRbx,
                Instr::XorRcxRax,
                Instr::TestRcxOne,
                Instr::Jump(Jump::Jz, ok),
                Instr::MovRdiImm(1),
                Instr::CallError,
                Instr::Label(ok),
                Instr::CmpRbxRax,
            ];
            lemma_one_label(first, 7, "eq_type_ok"@, c);
            lemma_choose_labels("bool_true"@, "bool_done"@, Jump::Je, c + 1);
            lemma_join_spans(first, choose_bool_instrs("bool_true"@, "bool_done"@, Jump::Je, c + 1), c, c + 1, c + 3);
        },
        _ => {
            let ch = choose_bool_instrs("bool_true"@, "bool_done"@, comparison_kind(op), c + 2);
            lemma_checks_labels(off, c);
            lemma_plain(Instr::CmpRbxRax, c + 2);
            lemma_choose_labels("bool_true"@, "bool_done"@, comparison_kind(op), c + 2);
            lemma_join_spans(checks, seq![Instr::CmpRbxRax], c, c + 2, c + 2);
            lemma_join_spans(checks + seq![Instr::CmpRbxRax], ch, c, c + 2, c + 4);
        },
    }
}

/// The code of an expression compiled with labels numbered from `c` defines
/// each of its labels once, all made from counter values from `c` up to
/// `c + label_count(e)`.
#[verifier::spinoff_prover]
#[verifier::rlimit(60)]
pub proof fn law_code_labels(e: ExprV, si: int, env: Map<Seq<char>, i32>, c: int, brk: Option<Seq<char>>)
    requires
        0 <= c,
        c + label_count(e) <= i64::MAX,
    ensures
        labels_distinct(instrs_spec(e, si, env, c, brk)),
        labels_within(instrs_spec(e, si, env, c, brk), span(c, c + label_count(e))),
    decreases e, 1int,
{
    let f = instrs_spec(e, si, env, c, brk);
    let hi = c + label_count(e);
    match e {
        ExprV::UnOp(op, a) => {
            law_code_labels(*a, si, env, c, brk);
            law_counter_advance(*a, si, env, c, brk);
            let ai = instrs_spec(*a, si, env, c, brk);
            let c1 = compile_spec(*a, si, env, c, brk).1;
            lemma_labels_lines(ai, span(c, c1));
            lemma_unop_labels(op, c1);
            lemma_join_spans(lines(ai), unop_instrs(op, c1), c, c1, hi);
        },
        ExprV::BinOp(op, l, r) => {
            law_code_labels(*l, si, env, c, brk);
            law_counter_advance(*l, si, env, c, brk);
            let c1 = compile_spec(*l, si, env, c, brk).1;
            law_code_labels(*r, si + 1, env, c1, brk);
            law_counter_advance(*r, si + 1, env, c1, brk);
            let c2 = compile_spec(*r, si + 1, env, c1, brk).1;
            let li = instrs_spec(*l, si, env, c, brk);
            let ri = instrs_spec(*r, si + 1, env, c1, brk);
            let sv = seq![Instr::MovSlotRax(slot_offset(si))];
            lemma_labels_lines(li, span(c, c1));
            lemma_labels_lines(ri, span(c1, c2));
            lemma_plain(Instr::MovSlotRax(slot_offset(si)), c1);
            lemma_binop_labels(op, slot_offset(si), c2);
            lemma_join_spans(lines(li), sv, c, c1, c1);
            lemma_join_spans(lines(li) + sv, lines(ri), c, c1, c2);
            lemma_join_spans(lines(li) + sv + lines(ri), binop_instrs(op, slot_offset(si), c2), c, c2, hi);
        },
        ExprV::Let(bs, body) => {
            let nb = bs.len() as int;
            let stl = let_spec(bs, nb, si, env, c, brk);
            lemma_let_counter(bs, nb, si, env, c, brk);
            lemma_let_labels(bs, nb, si, env, c, brk);
            let cb = c + binds_labels(bs, nb);
            law_code_labels(*body, stl.si, stl.env, stl.counter, brk);
            let bi = instrs_spec(*body, stl.si, stl.env, stl.counter, brk);
            if nb > 0 {
                lemma_labels_lines(bi, span(cb, hi));
                lemma_join_spans(let_instrs(bs, nb, si, env, c, brk), lines(bi), c, cb, hi);
            } else {
                lemma_labels_widen(bi, span(cb, hi), span(c, hi));
            }
        },
        ExprV::If(cond, thn, els) => {
            lemma_if_labels(e, si, env, c, brk);
        },
        ExprV::Block(es) => {
            lemma_block_labels(es, es.len() as int, si, env, c, brk);
        },
        ExprV::Loop(body) => {
            let start_l = label("loop_start"@, c);
            let end_l = label("loop_end"@, c + 1);
            law_code_labels(*body, si, env, c + 2, Some(end_l));
            let bi = instrs_spec(*body, si, env, c + 2, Some(end_l));
            let h = seq![Instr::Label(start_l)];
            let t = seq![Instr::Jump(Jump::Jmp, start_l), Instr::Label(end_l)];
            lemma_one_label(h, 0, "loop_start"@, c);
            lemma_one_label(t, 1, "loop_end"@, c + 1);
            lemma_labels_lines(bi, span(c + 2, hi));
            lemma_labels_join(h, lines(bi), span(c, c + 1), span(c + 2, hi));
            lemma_labels_join(h + lines(bi), t, span(c, c + 1) + span(c + 2, hi), span(c + 1, c + 2));
            lemma_labels_widen(h + lines(bi) + t, span(c, c + 1) + span(c + 2, hi) + span(c + 1, c + 2), span(c, hi));
        },
        ExprV::Break(a) => {
            law_code_labels(*a, si, env, c, brk);
            let ai = instrs_spec(*a, si, env, c, brk);
            lemma_labels_lines(ai, span(c, hi));
            lemma_plain(Instr::Jump(Jump::Jmp, brk->0), hi);
            lemma_join_spans(lines(ai), seq![Instr::Jump(Jump::Jmp, brk->0)], c, hi, hi);
        },
        ExprV::SetVar(x, a) => {
            law_code_labels(*a, si, env, c, brk);
            let ai = instrs_spec(*a, si, env, c, brk);
            lemma_labels_lines(ai, span(c, hi));
            lemma_plain(Instr::MovSlotRax(env[x] as int), hi);
            lemma_join_spans(lines(ai), seq![Instr::MovSlotRax(env[x] as int)], c, hi, hi);
        },
        _ => {
            lemma_no_label(f, span(c, hi));
        },
    }
}

#[verifier::spinoff_prover]
#[verifier::rlimit(60)]
proof fn lemma_if_labels(e: ExprV, si: int, env: Map<Seq<char>, i32>, c: int, brk: Option<Seq<char>>)
    requires
        e is If,
        0 <= c,
        c + label_count(e) <= i64::MAX,
    ensures
        labels_distinct(instrs_spec(e, si, env, c, brk)),
        labels_within(instrs_spec(e, si, env, c, brk), span(c, c + label_count(e))),
    decreases e, 0int,
{
    let (cond, thn, els) = match e {
        ExprV::If(a, b, d) => (*a, *b, *d),
        _ => (e, e, e),
    };
    let hi = c + label_count(e);
    let else_l = label("if_else"@, c);
    let done_l = label("if_done"@, c + 1);
    law_code_labels(cond, si, env, c + 2, brk);
    law_counter_advance(cond, si, env, c + 2, brk);
    let c1 = compile_spec(cond, si, env, c + 2, brk).1;
    law_code_labels(thn, si, env, c1, brk);
    law_counter_advance(thn, si, env, c1, brk);
    let c2 = compile_spec(thn, si, env, c1, brk).1;
    law_code_labels(els, si, env, c2, brk);
    law_counter_advance(els, si, env, c2, brk);
    let ci = instrs_spec(cond, si, env, c + 2, brk);
    let ti = instrs_spec(thn, si, env, c1, brk);
    let ei = instrs_spec(els, si, env, c2, brk);
    let b1 = seq![Instr::CmpRaxImm(1), Instr::Jump(Jump::Je, else_l)];
    let b2 = seq![Instr::Jump(Jump::Jmp, done_l), Instr::Label(else_l)];
    let b3 = seq![Instr::Label(done_l)];
    assert(instrs_spec(e, si, env, c, brk) == lines(ci) + b1 + lines(ti) + b2 + lines(ei) + b3);
    lemma_labels_lines(ci, span(c + 2, c1));
    lemma_labels_lines(ti, span(c1, c2));
    lemma_labels_lines(ei, span(c2, hi));
    lemma_plain2(Instr::CmpRaxImm(1), Instr::Jump(Jump::Je, else_l), c1);
    lemma_one_label(b2, 1, "if_else"@, c);
    lemma_one_label(b3, 0, "if_done"@, c + 1);
    lemma_join_spans(lines(ci), b1, c + 2, c1, c1);
    lemma_join_spans(lines(ci) + b1, lines(ti), c + 2, c1, c2);
    let s3 = span(c + 2, c2) + span(c, c + 1);
    lemma_labels_join(lines(ci) + b1 + lines(ti), b2, span(c + 2, c2), span(c, c + 1));
    let s4 = s3 + span(c2, hi);
    lemma_labels_join(lines(ci) + b1 + lines(ti) + b2, lines(ei), s3, span(c2, hi));
    lemma_labels_join(lines(ci) + b1 + lines(ti) + b2 + lines(ei), b3, s4, span(c + 1, c + 2));
    lemma_labels_widen(lines(ci) + b1 + lines(ti) + b2 + lines(ei) + b3, s4 + span(c + 1, c + 2), span(c, hi));
}

proof fn lemma_let_labels(bs: Seq<(Seq<char>, ExprV)>, i: int, si: int, env: Map<Seq<char>, i32>, c: int, brk: Option<Seq<char>>)
    requires
        0 <= i <= bs.len(),
        0 <= c,
        c + binds_labels(bs, bs.len() as int) <= i64::MAX,
    ensures
        labels_distinct(let_instrs(bs, i, si, env, c, brk)),
        labels_within(let_instrs(bs, i, si, env, c, brk), span(c, c + binds_labels(bs, i))),
    decreases bs, i,
{
    if i == 0 {
        lemma_no_label(let_instrs(bs, i, si, env, c, brk), span(c, c));
    } else {
        crate::cobra::compile::lemma_binds_mono(bs, i, bs.len() as int, si, Set::empty(), false);
        crate::cobra::compile::lemma_binds_mono(bs, i - 1, i, si, Set::empty(), false);
        lemma_let_labels(bs, i - 1, si, env, c, brk);
        lemma_let_counter(bs, i - 1, si, env, c, brk);
        let prev = let_spec(bs, i - 1, si, env, c, brk);
        let cp = c + binds_labels(bs, i - 1);
        let hi = c + binds_labels(bs, i);
        law_code_labels(bs[i - 1].1, prev.si, prev.env, prev.counter, brk);
        let xi = instrs_spec(bs[i - 1].1, prev.si, prev.env, prev.counter, brk);
        let before = let_instrs(bs, i - 1, si, env, c, brk);
        let sv = seq![Instr::MovSlotRax(slot_offset(prev.si))];
        lemma_labels_lines(xi, span(cp, hi));
        lemma_plain(Instr::MovSlotRax(slot_offset(prev.si)), hi);
        lemma_join_spans(before, lines(xi), c, cp, hi);
        lemma_join_spans(before + lines(xi), sv, c, hi, hi);
    }
}

proof fn lemma_block_labels(es: Seq<ExprV>, i: int, si: int, env: Map<Seq<char>, i32>, c: int, brk: Option<Seq<char>>)
    requires
        0 <= i <= es.len(),
        0 <= c,
        c + seq_labels(es, es.len() as int) <= i64::MAX,
    ensures
        labels_distinct(block_instrs(es, i, si, env, c, brk)),
        labels_within(block_instrs(es, i, si, env, c, brk), span(c, c + seq_labels(es, i))),
    decreases es, i,
{
    crate::cobra::compile::lemma_seq_mono(es, i, es.len() as int, si, Set::empty(), false);
    if i == 0 {
        lemma_no_label(block_instrs(es, i, si, env, c, brk), span(c, c));
    } else if i == 1 {
        law_code_labels(es[0], si, env, c, brk);
        assert(seq_labels(es, 1) == seq_labels(es, 0) + label_count(es[0]));
    } else {
        crate::cobra::compile::lemma_seq_mono(es, i - 1, i, si, Set::empty(), false);
        lemma_block_labels(es, i - 1, si, env, c, brk);
        lemma_block_counter(es, i - 1, si, env, c, brk);
        let c1 = block_spec(es, i - 1, si, env, c, brk).1;
        let hi = c + seq_labels(es, i);
        law_code_labels(es[i - 1], si, env, c1, brk);
        let a = block_instrs(es, i - 1, si, env, c, brk);
        let b = instrs_spec(es[i - 1], si, env, c1, brk);
        lemma_labels_lines(a, span(c, c1));
        lemma_labels_lines(b, span(c1, hi));
        lemma_join_spans(lines(a), lines(b), c, c1, hi);
    }
}

} // verus!
