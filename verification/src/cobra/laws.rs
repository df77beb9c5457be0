//! Properties of Cobra's parser and code generator as a whole.

use vstd::prelude::*;
use crate::text::decimal;
use crate::runtime::law_decimal_injective;
use crate::sexpr::SExpV;
use crate::cobra::ast::ExprV;
use crate::cobra::parse::{reserved, parse_spec, parse_bind_spec, parse_binds_spec, parse_seq_spec};
use crate::cobra::compile::{
    slot_offset, slots_fit, binds_fit, seq_fit, lemma_binds_mono, lemma_seq_mono, SI_MIN, SI_MAX,
    label, compile_spec, let_spec, block_spec, label_count, binds_labels, seq_labels,
};

verus! {

/// Labels made from one prefix with different counter values differ, so the
/// labels that [`new_label`](crate::cobra::compile::new_label) hands out
/// while the counter only grows are all distinct.
pub proof fn law_label_injective(prefix: Seq<char>, a: i32, b: i32)
    requires
        label(prefix, a as int) == label(prefix, b as int),
    ensures
        a == b,
{
    reveal_strlit("_");
    let k: int = prefix.len() as int + 1;
    assert(label(prefix, a as int).skip(k) =~= decimal(a as int));
    assert(label(prefix, b as int).skip(k) =~= decimal(b as int));
    law_decimal_injective(a as i64, b as i64);
}

/// Compiling an expression uses exactly [`label_count`] label numbers: the
/// counter moves from `c` to `c + label_count(e)`, so code compiled from
/// disjoint counter ranges never shares a label.
pub proof fn law_counter_advance(e: ExprV, si: int, env: Map<Seq<char>, i32>, c: int, brk: Option<Seq<char>>)
    ensures
        compile_spec(e, si, env, c, brk).1 == c + label_count(e),
    decreases e, 0int,
{
    match e {
        ExprV::UnOp(op, a) => {
            law_counter_advance(*a, si, env, c, brk);
        },
        ExprV::BinOp(op, l, r) => {
            law_counter_advance(*l, si, env, c, brk);
            let c1 = compile_spec(*l, si, env, c, brk).1;
            law_counter_advance(*r, si + 1, env, c1, brk);
        },
        ExprV::Let(bs, body) => {
            lemma_let_counter(bs, bs.len() as int, si, env, c, brk);
            let st = let_spec(bs, bs.len() as int, si, env, c, brk);
            law_counter_advance(*body, st.si, st.env, st.counter, brk);
        },
        ExprV::If(cond, thn, els) => {
            law_counter_advance(*cond, si, env, c + 2, brk);
            let c1 = compile_spec(*cond, si, env, c + 2, brk).1;
            law_counter_advance(*thn, si, env, c1, brk);
            let c2 = compile_spec(*thn, si, env, c1, brk).1;
            law_counter_advance(*els, si, env, c2, brk);
        },
        ExprV::Block(es) => {
            lemma_block_counter(es, es.len() as int, si, env, c, brk);
        },
        ExprV::Loop(body) => {
            law_counter_advance(*body, si, env, c + 2, Some(label("loop_end"@, c + 1)));
        },
        ExprV::Break(a) => {
            law_counter_advance(*a, si, env, c, brk);
        },
        ExprV::SetVar(_, a) => {
            law_counter_advance(*a, si, env, c, brk);
        },
        _ => {},
    }
}

/// The bindings of a `let` advance the counter by their label counts.
pub proof fn lemma_let_counter(bs: Seq<(Seq<char>, ExprV)>, i: int, si: int, env: Map<Seq<char>, i32>, c: int, brk: Option<Seq<char>>)
    ensures
        let_spec(bs, i, si, env, c, brk).counter == c + binds_labels(bs, i),
    decreases bs, i,
{
    if 0 < i <= bs.len() {
        lemma_let_counter(bs, i - 1, si, env, c, brk);
        let prev = let_spec(bs, i - 1, si, env, c, brk);
        law_counter_advance(bs[i - 1].1, prev.si, prev.env, prev.counter, brk);
    }
}

/// The expressions of a block advance the counter by their label counts.
pub proof fn lemma_block_counter(es: Seq<ExprV>, i: int, si: int, env: Map<Seq<char>, i32>, c: int, brk: Option<Seq<char>>)
    ensures
        block_spec(es, i, si, env, c, brk).1 == c + seq_labels(es, i),
    decreases es, i,
{
    if 0 < i <= es.len() {
        lemma_block_counter(es, i - 1, si, env, c, brk);
        let c1 = block_spec(es, i - 1, si, env, c, brk).1;
        law_counter_advance(es[i - 1], si, env, c1, brk);
    }
}

/// Whether no variable that an expression reads, binds or sets is named by a
/// reserved word.
pub open spec fn names_unreserved(e: ExprV) -> bool
    decreases e, 0int,
{
    match e {
        ExprV::Number(_) | ExprV::Bool(_) | ExprV::Input => true,
        ExprV::Id(x) => !reserved(x),
        ExprV::Let(bs, body) => binds_unreserved(bs, bs.len() as int) && names_unreserved(*body),
        ExprV::UnOp(_, a) => names_unreserved(*a),
        ExprV::BinOp(_, l, r) => names_unreserved(*l) && names_unreserved(*r),
        ExprV::If(c, t, f) => names_unreserved(*c) && names_unreserved(*t) && names_unreserved(*f),
        ExprV::Block(es) => seq_unreserved(es, es.len() as int),
        ExprV::Loop(a) => names_unreserved(*a),
        ExprV::Break(a) => names_unreserved(*a),
        ExprV::SetVar(x, a) => !reserved(x) && names_unreserved(*a),
    }
}

/// Whether no name that the first `i` bindings bind, read or set is reserved.
pub open spec fn binds_unreserved(bs: Seq<(Seq<char>, ExprV)>, i: int) -> bool
    decreases bs, i,
{
    if i <= 0 || i > bs.len() {
        true
    } else {
        binds_unreserved(bs, i - 1) && !reserved(bs[i - 1].0) && names_unreserved(bs[i - 1].1)
    }
}

/// Whether no name that the first `i` expressions of a block read, bind or
/// set is reserved.
pub open spec fn seq_unreserved(es: Seq<ExprV>, i: int) -> bool
    decreases es, i,
{
    if i <= 0 || i > es.len() {
        true
    } else {
        seq_unreserved(es, i - 1) && names_unreserved(es[i - 1])
    }
}

/// A reserved word never becomes a variable: every expression that the
/// parser accepts reads, binds and sets only unreserved names.
pub proof fn law_parse_names_unreserved(s: SExpV)
    requires
        parse_spec(s) is Ok,
    ensures
        names_unreserved(parse_spec(s)->Ok_0),
    decreases s, 0int,
{
    match s {
        SExpV::List(v) => {
            if v.len() >= 2 {
                assert(decreases_to!(s => v));
                if parse_spec(v[1]) is Ok {
                    law_parse_names_unreserved(v[1]);
                }
                if v.len() >= 3 && parse_spec(v[2]) is Ok {
                    law_parse_names_unreserved(v[2]);
                }
                if v.len() >= 4 && parse_spec(v[3]) is Ok {
                    law_parse_names_unreserved(v[3]);
                }
                if v[1] is List {
                    let bs = v[1]->List_0;
                    assert(decreases_to!(v[1] => bs));
                    if parse_binds_spec(bs) is Ok {
                        lemma_binds_unreserved(bs);
                    }
                }
                if v.len() >= 1 && parse_seq_spec(v.skip(1)) is Ok {
                    lemma_seq_unreserved(v.skip(1));
                }
            }
        },
        _ => {},
    }
}

proof fn lemma_binds_unreserved(bs: Seq<SExpV>)
    requires
        parse_binds_spec(bs) is Ok,
    ensures
        binds_unreserved(parse_binds_spec(bs)->Ok_0, bs.len() as int),
        parse_binds_spec(bs)->Ok_0.len() == bs.len(),
    decreases bs, 0int,
{
    if bs.len() > 0 {
        lemma_binds_unreserved(bs.drop_last());
        let prefix = parse_binds_spec(bs.drop_last())->Ok_0;
        let b = bs.last();
        let whole = parse_binds_spec(bs)->Ok_0;
        assert(whole == prefix.push(parse_bind_spec(b)->Ok_0));
        match b {
            SExpV::List(v) => {
                if v.len() == 2 {
                    law_parse_names_unreserved(v[1]);
                }
            },
            _ => {},
        }
        lemma_binds_unreserved_same(prefix, whole, prefix.len() as int);
    }
}

proof fn lemma_binds_unreserved_same(a: Seq<(Seq<char>, ExprV)>, b: Seq<(Seq<char>, ExprV)>, i: int)
    requires
        0 <= i <= a.len(),
        i <= b.len(),
        forall|k: int| 0 <= k < i ==> b[k] == a[k],
    ensures
        binds_unreserved(a, i) == binds_unreserved(b, i),
    decreases i,
{
    if i > 0 {
        lemma_binds_unreserved_same(a, b, i - 1);
    }
}

proof fn lemma_seq_unreserved(es: Seq<SExpV>)
    requires
        parse_seq_spec(es) is Ok,
    ensures
        seq_unreserved(parse_seq_spec(es)->Ok_0, es.len() as int),
        parse_seq_spec(es)->Ok_0.len() == es.len(),
    decreases es, 0int,
{
    if es.len() > 0 {
        lemma_seq_unreserved(es.drop_last());
        law_parse_names_unreserved(es.last());
        let prefix = parse_seq_spec(es.drop_last())->Ok_0;
        let whole = parse_seq_spec(es)->Ok_0;
        lemma_seq_unreserved_same(prefix, whole, prefix.len() as int);
    }
}

proof fn lemma_seq_unreserved_same(a: Seq<ExprV>, b: Seq<ExprV>, i: int)
    requires
        0 <= i <= a.len(),
        i <= b.len(),
        forall|k: int| 0 <= k < i ==> b[k] == a[k],
    ensures
        seq_unreserved(a, i) == seq_unreserved(b, i),
    decreases i,
{
    if i > 0 {
        lemma_seq_unreserved_same(a, b, i - 1);
    }
}


/// Whether every variable of `env` lives in a slot below stack index `si`.
pub open spec fn vars_below(env: Map<Seq<char>, i32>, si: int) -> bool {
    forall|x: Seq<char>| #[trigger] env.dom().contains(x) ==> env[x] < slot_offset(si)
}

/// The environment after the first `i` bindings of a `let` at stack index
/// `si`: binding `k` lives in slot `si + k`.
pub open spec fn let_env(bs: Seq<(Seq<char>, ExprV)>, i: int, si: int, env: Map<Seq<char>, i32>) -> Map<Seq<char>, i32>
    decreases i,
{
    if i <= 0 || i > bs.len() {
        env
    } else {
        let_env(bs, i - 1, si, env).insert(bs[i - 1].0, slot_offset(si + i - 1) as i32)
    }
}

/// Whether every slot that the code of `e` writes a temporary value or a new
/// binding to lies above all the variables in scope at that point.
pub open spec fn slots_above_vars(e: ExprV, si: int, env: Map<Seq<char>, i32>) -> bool
    decreases e, 0int,
{
    match e {
        ExprV::Number(_) | ExprV::Bool(_) | ExprV::Input | ExprV::Id(_) => true,
        ExprV::UnOp(_, a) => slots_above_vars(*a, si, env),
        ExprV::BinOp(_, l, r) => vars_below(env, si) && slots_above_vars(*l, si, env)
            && slots_above_vars(*r, si + 1, env),
        ExprV::Let(bs, body) => binds_above_vars(bs, bs.len() as int, si, env) && slots_above_vars(
            *body,
            si + bs.len(),
            let_env(bs, bs.len() as int, si, env),
        ),
        ExprV::If(c, t, f) => slots_above_vars(*c, si, env) && slots_above_vars(*t, si, env)
            && slots_above_vars(*f, si, env),
        ExprV::Block(es) => seq_above_vars(es, es.len() as int, si, env),
        ExprV::Loop(a) => slots_above_vars(*a, si, env),
        ExprV::Break(a) => slots_above_vars(*a, si, env),
        ExprV::SetVar(_, a) => slots_above_vars(*a, si, env),
    }
}

/// Whether the first `i` bindings of a `let` store only above the variables in
/// scope when each is compiled.
pub open spec fn binds_above_vars(bs: Seq<(Seq<char>, ExprV)>, i: int, si: int, env: Map<Seq<char>, i32>) -> bool
    decreases bs, i,
{
    if i <= 0 || i > bs.len() {
        true
    } else {
        let before = let_env(bs, i - 1, si, env);
        binds_above_vars(bs, i - 1, si, env) && vars_below(before, si + i - 1) && slots_above_vars(
            bs[i - 1].1,
            si + i - 1,
            before,
        )
    }
}

/// Whether the first `i` expressions of a block store only above the
/// variables in scope.
pub open spec fn seq_above_vars(es: Seq<ExprV>, i: int, si: int, env: Map<Seq<char>, i32>) -> bool
    decreases es, i,
{
    if i <= 0 || i > es.len() {
        true
    } else {
        seq_above_vars(es, i - 1, si, env) && slots_above_vars(es[i - 1], si, env)
    }
}

/// A `let` at stack index `si` binds its `k`-th name to slot `si + k`, and
/// its body runs at stack index `si` plus the number of bindings.
pub proof fn law_let_slots(bs: Seq<(Seq<char>, ExprV)>, i: int, si: int, env: Map<Seq<char>, i32>, c: int, brk: Option<Seq<char>>)
    requires
        0 <= i <= bs.len(),
    ensures
        let_spec(bs, i, si, env, c, brk).env == let_env(bs, i, si, env),
        let_spec(bs, i, si, env, c, brk).si == si + i,
    decreases i,
{
    if i > 0 {
        law_let_slots(bs, i - 1, si, env, c, brk);
    }
}

proof fn lemma_let_env_below(bs: Seq<(Seq<char>, ExprV)>, i: int, si: int, env: Map<Seq<char>, i32>)
    requires
        0 <= i <= bs.len(),
        vars_below(env, si),
        binds_fit(bs, i, si),
    ensures
        vars_below(let_env(bs, i, si, env), si + i),
    decreases i,
{
    if i > 0 {
        lemma_binds_mono(bs, i - 1, i, si, Set::empty(), false);
        lemma_let_env_below(bs, i - 1, si, env);
        let prev = let_env(bs, i - 1, si, env);
        assert forall|x: Seq<char>| #[trigger] let_env(bs, i, si, env).dom().contains(x) implies let_env(bs, i, si, env)[x] < slot_offset(si + i) by {
            if x != bs[i - 1].0 {
                assert(prev.dom().contains(x));
            }
        }
    } else {
        assert forall|x: Seq<char>| #[trigger] env.dom().contains(x) implies env[x] < slot_offset(si) by {}
    }
}

/// Temporaries never overwrite variables: where every variable in scope lives
/// below the starting stack index, the code of an expression stores operands
/// and new bindings only in slots above every variable in scope at that point.
pub proof fn law_slots_above_vars(e: ExprV, si: int, env: Map<Seq<char>, i32>)
    requires
        vars_below(env, si),
        slots_fit(e, si),
    ensures
        slots_above_vars(e, si, env),
    decreases e, 0int,
{
    match e {
        ExprV::UnOp(_, a) => law_slots_above_vars(*a, si, env),
        ExprV::BinOp(_, l, r) => {
            law_slots_above_vars(*l, si, env);
            assert forall|x: Seq<char>| #[trigger] env.dom().contains(x) implies env[x] < slot_offset(si + 1) by {}
            law_slots_above_vars(*r, si + 1, env);
        },
        ExprV::Let(bs, body) => {
            lemma_binds_above(bs, bs.len() as int, si, env);
            lemma_let_env_below(bs, bs.len() as int, si, env);
            law_slots_above_vars(*body, si + bs.len(), let_env(bs, bs.len() as int, si, env));
        },
        ExprV::If(c, t, f) => {
            law_slots_above_vars(*c, si, env);
            law_slots_above_vars(*t, si, env);
            law_slots_above_vars(*f, si, env);
        },
        ExprV::Block(es) => lemma_seq_above(es, es.len() as int, si, env),
        ExprV::Loop(a) => law_slots_above_vars(*a, si, env),
        ExprV::Break(a) => law_slots_above_vars(*a, si, env),
        ExprV::SetVar(_, a) => law_slots_above_vars(*a, si, env),
        _ => {},
    }
}

proof fn lemma_binds_above(bs: Seq<(Seq<char>, ExprV)>, i: int, si: int, env: Map<Seq<char>, i32>)
    requires
        0 <= i <= bs.len(),
        vars_below(env, si),
        binds_fit(bs, bs.len() as int, si),
    ensures
        binds_above_vars(bs, i, si, env),
    decreases bs, i,
{
    if i > 0 {
        lemma_binds_above(bs, i - 1, si, env);
        lemma_binds_mono(bs, i - 1, bs.len() as int, si, Set::empty(), false);
        lemma_binds_mono(bs, i, bs.len() as int, si, Set::empty(), false);
        lemma_let_env_below(bs, i - 1, si, env);
        law_slots_above_vars(bs[i - 1].1, si + i - 1, let_env(bs, i - 1, si, env));
    }
}

proof fn lemma_seq_above(es: Seq<ExprV>, i: int, si: int, env: Map<Seq<char>, i32>)
    requires
        0 <= i <= es.len(),
        vars_below(env, si),
        seq_fit(es, es.len() as int, si),
    ensures
        seq_above_vars(es, i, si, env),
    decreases es, i,
{
    if i > 0 {
        lemma_seq_above(es, i - 1, si, env);
        lemma_seq_mono(es, i, es.len() as int, si, Set::empty(), false);
        law_slots_above_vars(es[i - 1], si, env);
    }
}

} // verus!
