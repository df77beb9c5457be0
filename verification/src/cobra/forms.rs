//! What the operator symbols of Cobra's syntax mean, and which programs the
//! scope check accepts, stated without the parser's and the checker's own
//! tables.

use vstd::prelude::*;
use crate::sexpr::SExpV;
use crate::cobra::ast::{UnOp, BinOp, ExprV};
use crate::cobra::parse::parse_spec;
use crate::cobra::compile::{scope_fault, binds_fault, seq_fault, names_of};
use crate::cobra::semantics::{Value, Outcome, number_result, unop_value, binop_value};

verus! {

/// The tree `(w x y)`.
pub open spec fn binary_form(w: Seq<char>, x: SExpV, y: SExpV) -> SExpV {
    SExpV::List(seq![SExpV::Str(w), x, y])
}

/// The tree `(w x)`.
pub open spec fn unary_form(w: Seq<char>, x: SExpV) -> SExpV {
    SExpV::List(seq![SExpV::Str(w), x])
}

/// Whether `w` is one of the binary operator symbols.
pub open spec fn binary_symbol(w: Seq<char>) -> bool {
    ||| w == "+"@
    ||| w == "-"@
    ||| w == "*"@
    ||| w == "<"@
    ||| w == ">"@
    ||| w == "<="@
    ||| w == ">="@
    ||| w == "="@
}

/// Whether `w` is one of the unary operator symbols.
pub open spec fn unary_symbol(w: Seq<char>) -> bool {
    ||| w == "add1"@
    ||| w == "sub1"@
    ||| w == "negate"@
    ||| w == "isnum"@
    ||| w == "isbool"@
}

/// What symbol `w` computes from the numbers `a` (left) and `b` (right):
/// sum, difference, product (each an overflow where it does not fit), or the
/// truth of the strict or non-strict ordering or of equality.
pub open spec fn symbol_on_numbers(w: Seq<char>, a: int, b: int) -> Outcome {
    if w == "+"@ {
        number_result(a + b)
    } else if w == "-"@ {
        number_result(a - b)
    } else if w == "*"@ {
        number_result(a * b)
    } else if w == "<"@ {
        Outcome::Done(Value::Bool(a < b))
    } else if w == ">"@ {
        Outcome::Done(Value::Bool(a > b))
    } else if w == "<="@ {
        Outcome::Done(Value::Bool(a <= b))
    } else if w == ">="@ {
        Outcome::Done(Value::Bool(a >= b))
    } else {
        Outcome::Done(Value::Bool(a == b))
    }
}

/// Whether operator `o` does on any two numbers what symbol `w` means.
pub open spec fn acts_as(o: BinOp, w: Seq<char>) -> bool {
    forall|a: int, b: int| #[trigger] binop_value(o, Value::Num(a), Value::Num(b)) == symbol_on_numbers(w, a, b)
}

/// Whether unary operator `o` does what symbol `w` means: add one, subtract
/// one or negate a number, or tell whether a value is a number or a boolean.
pub open spec fn unary_acts_as(o: UnOp, w: Seq<char>) -> bool {
    if w == "add1"@ {
        forall|n: int| #[trigger] unop_value(o, Value::Num(n)) == number_result(n + 1)
    } else if w == "sub1"@ {
        forall|n: int| #[trigger] unop_value(o, Value::Num(n)) == number_result(n - 1)
    } else if w == "negate"@ {
        forall|n: int| #[trigger] unop_value(o, Value::Num(n)) == number_result(-n)
    } else if w == "isnum"@ {
        forall|v: Value| #[trigger] unop_value(o, v) == Outcome::Done(Value::Bool(v is Num))
    } else {
        forall|v: Value| #[trigger] unop_value(o, v) == Outcome::Done(Value::Bool(v is Bool))
    }
}

proof fn lemma_reveal_symbols()
    ensures
        "+"@.len() == 1 && "+"@[0] == '+',
        "-"@.len() == 1 && "-"@[0] == '-',
        "*"@.len() == 1 && "*"@[0] == '*',
        "<"@.len() == 1 && "<"@[0] == '<',
        ">"@.len() == 1 && ">"@[0] == '>',
        "="@.len() == 1 && "="@[0] == '=',
        "<="@.len() == 2 && "<="@[0] == '<' && "<="@[1] == '=',
        ">="@.len() == 2 && ">="@[0] == '>' && ">="@[1] == '=',
        "add1"@.len() == 4 && "add1"@[0] == 'a',
        "sub1"@.len() == 4 && "sub1"@[0] == 's',
        "negate"@.len() == 6 && "negate"@[0] == 'n',
        "isnum"@.len() == 5 && "isnum"@[0] == 'i' && "isnum"@[2] == 'n',
        "isbool"@.len() == 6 && "isbool"@[0] == 'i' && "isbool"@[2] == 'b',
        "if"@.len() == 2 && "if"@[0] == 'i' && "if"@[1] == 'f',
        "let"@.len() == 3 && "let"@[0] == 'l',
        "loop"@.len() == 4 && "loop"@[0] == 'l',
        "break"@.len() == 5 && "break"@[0] == 'b',
        "set!"@.len() == 4 && "set!"@[0] == 's' && "set!"@[1] == 'e',
{
    reveal_strlit("+");
    reveal_strlit("-");
    reveal_strlit("*");
    reveal_strlit("<");
    reveal_strlit(">");
    reveal_strlit("<=");
    reveal_strlit(">=");
    reveal_strlit("=");
    reveal_strlit("add1");
    reveal_strlit("sub1");
    reveal_strlit("negate");
    reveal_strlit("isnum");
    reveal_strlit("isbool");
    reveal_strlit("if");
    reveal_strlit("let");
    reveal_strlit("loop");
    reveal_strlit("break");
    reveal_strlit("set!");
}

/// A binary operator form `(w x y)` whose operands read reads as that
/// operator applied to the left operand and then the right one, in the order
/// written, and the operator does on numbers what the symbol means: `>` is
/// strictly greater, `<=` less or equal, `-` the left minus the right, and so
/// on.
pub proof fn law_binary_forms(w: Seq<char>, x: SExpV, y: SExpV)
    requires
        binary_symbol(w),
        parse_spec(x) is Ok,
        parse_spec(y) is Ok,
    ensures
        parse_spec(binary_form(w, x, y)) matches Ok(ExprV::BinOp(o, l, r)) && *l == parse_spec(x)->Ok_0 && *r
            == parse_spec(y)->Ok_0 && acts_as(o, w),
{
    lemma_reveal_symbols();
    let t = binary_form(w, x, y);
    assert(t->List_0[1] == x && t->List_0[2] == y && t->List_0.len() == 3);
    let e = parse_spec(t)->Ok_0;
    assert(e matches ExprV::BinOp(o, l, r) && *l == parse_spec(x)->Ok_0 && *r == parse_spec(y)->Ok_0);
    let o = e->BinOp_0;
    assert forall|a: int, b: int| #[trigger] binop_value(o, Value::Num(a), Value::Num(b)) == symbol_on_numbers(w, a, b) by {}
}

/// A unary operator form `(w x)` whose operand reads reads as that operator
/// applied to the operand, and the operator does what the symbol means.
pub proof fn law_unary_forms(w: Seq<char>, x: SExpV)
    requires
        unary_symbol(w),
        parse_spec(x) is Ok,
    ensures
        parse_spec(unary_form(w, x)) matches Ok(ExprV::UnOp(o, a)) && *a == parse_spec(x)->Ok_0 && unary_acts_as(o, w),
{
    lemma_reveal_symbols();
    let t = unary_form(w, x);
    assert(t->List_0[1] == x && t->List_0.len() == 2);
    let e = parse_spec(t)->Ok_0;
    assert(e matches ExprV::UnOp(o, a) && *a == parse_spec(x)->Ok_0);
    let o = e->UnOp_0;
    if w == "isnum"@ {
        assert forall|v: Value| #[trigger] unop_value(o, v) == Outcome::Done(Value::Bool(v is Num)) by {}
    } else if w == "isbool"@ {
        assert forall|v: Value| #[trigger] unop_value(o, v) == Outcome::Done(Value::Bool(v is Bool)) by {}
    } else if w == "add1"@ {
        assert forall|n: int| #[trigger] unop_value(o, Value::Num(n)) == number_result(n + 1) by {}
    } else if w == "sub1"@ {
        assert forall|n: int| #[trigger] unop_value(o, Value::Num(n)) == number_result(n - 1) by {}
    } else {
        assert forall|n: int| #[trigger] unop_value(o, Value::Num(n)) == number_result(-n) by {}
    }
}

/// Whether no name is bound twice in a list of bindings.
pub open spec fn names_distinct(bs: Seq<(Seq<char>, ExprV)>) -> bool {
    forall|i: int, j: int| 0 <= i < j < bs.len() ==> (#[trigger] bs[i]).0 != (#[trigger] bs[j]).0
}

/// Whether each binding's expression is well scoped where the names `bound`
/// and those of the bindings before it are in scope.
pub open spec fn binds_scoped(bs: Seq<(Seq<char>, ExprV)>, bound: Set<Seq<char>>, in_loop: bool) -> bool {
    forall|k: int| #![trigger bs[k]] 0 <= k < bs.len() ==> scope_fault(bs[k].1, bound + names_of(bs.take(k)), in_loop) is None
}

proof fn lemma_binds_fault_iff(bs: Seq<(Seq<char>, ExprV)>, i: int, bound: Set<Seq<char>>, in_loop: bool)
    requires
        0 <= i <= bs.len(),
    ensures
        binds_fault(bs, i, bound, in_loop) is None <==> names_distinct(bs.take(i)) && binds_scoped(bs.take(i), bound, in_loop),
    decreases i,
{
    if i == 0 {
        assert(bs.take(0) =~= Seq::<(Seq<char>, ExprV)>::empty());
    } else {
        lemma_binds_fault_iff(bs, i - 1, bound, in_loop);
        let p = bs.take(i - 1);
        let q = bs.take(i);
        let x = bs[i - 1].0;
        assert(q == p.push(bs[i - 1]));
        assert forall|k: int| 0 <= k <= i - 1 implies #[trigger] q.take(k) == bs.take(k) by {
            assert(q.take(k) =~= bs.take(k));
        }
        assert forall|k: int| 0 <= k < i - 1 implies #[trigger] p.take(k) == bs.take(k) by {
            assert(p.take(k) =~= bs.take(k));
        }
        assert(names_of(p).contains(x) <==> exists|j: int| 0 <= j < i - 1 && #[trigger] p[j].0 == x) by {
            if names_of(p).contains(x) {
                let j = choose|j: int| #![trigger p[j]] 0 <= j < p.len() && p[j].0 == x;
                assert(p[j].0 == x);
            }
        }
        assert(names_distinct(q) <==> names_distinct(p) && !names_of(p).contains(x)) by {
            if names_distinct(q) {
                assert forall|a: int, b: int| 0 <= a < b < p.len() implies (#[trigger] p[a]).0 != (#[trigger] p[b]).0 by {
                    assert(q[a] == p[a] && q[b] == p[b]);
                }
                if names_of(p).contains(x) {
                    let j = choose|j: int| 0 <= j < i - 1 && #[trigger] p[j].0 == x;
                    assert(q[j] == p[j] && q[i - 1] == bs[i - 1]);
                }
            }
            if names_distinct(p) && !names_of(p).contains(x) {
                assert forall|a: int, b: int| 0 <= a < b < q.len() implies (#[trigger] q[a]).0 != (#[trigger] q[b]).0 by {
                    assert(q[a] == p[a]);
                    if b < i - 1 {
                        assert(q[b] == p[b]);
                    } else {
                        assert(q[b] == bs[i - 1]);
                        assert(p[a].0 == q[a].0);
                    }
                }
            }
        }
        assert(binds_scoped(q, bound, in_loop) <==> binds_scoped(p, bound, in_loop) && scope_fault(
            bs[i - 1].1,
            bound + names_of(p),
            in_loop,
        ) is None) by {
            if binds_scoped(q, bound, in_loop) {
                assert forall|k: int| #![trigger p[k]] 0 <= k < p.len() implies scope_fault(p[k].1, bound + names_of(p.take(k)), in_loop) is None by {
                    assert(q[k] == p[k]);
                }
                assert(q[i - 1] == bs[i - 1]);
            }
            if binds_scoped(p, bound, in_loop) && scope_fault(bs[i - 1].1, bound + names_of(p), in_loop) is None {
                assert forall|k: int| #![trigger q[k]] 0 <= k < q.len() implies scope_fault(q[k].1, bound + names_of(q.take(k)), in_loop) is None by {
                    if k < i - 1 {
                        assert(q[k] == p[k]);
                    }
                }
            }
        }
    }
}

/// A `let` is well scoped exactly when no name is bound twice in it, each
/// binding is well scoped with the names before it in scope, and the body is
/// well scoped with all its names in scope. Names bound outside it play no
/// part other than being in scope: a `let` may shadow a variable bound
/// outside it.
pub proof fn law_let_scope(bs: Seq<(Seq<char>, ExprV)>, body: ExprV, bound: Set<Seq<char>>, in_loop: bool)
    ensures
        scope_fault(ExprV::Let(bs, Box::new(body)), bound, in_loop) is None <==> (names_distinct(bs) && binds_scoped(bs, bound, in_loop)
            && scope_fault(body, bound + names_of(bs), in_loop) is None),
{
    lemma_binds_fault_iff(bs, bs.len() as int, bound, in_loop);
    assert(bs.take(bs.len() as int) =~= bs);
}

/// Bringing more names into scope never makes a well-scoped expression
/// ill scoped.
pub proof fn law_scope_monotone(e: ExprV, b1: Set<Seq<char>>, b2: Set<Seq<char>>, in_loop: bool)
    requires
        scope_fault(e, b1, in_loop) is None,
        b1.subset_of(b2),
    ensures
        scope_fault(e, b2, in_loop) is None,
    decreases e, 0int,
{
    match e {
        ExprV::UnOp(_, a) => law_scope_monotone(*a, b1, b2, in_loop),
        ExprV::BinOp(_, l, r) => {
            law_scope_monotone(*l, b1, b2, in_loop);
            law_scope_monotone(*r, b1, b2, in_loop);
        },
        ExprV::Let(bs, body) => {
            lemma_binds_monotone(bs, bs.len() as int, b1, b2, in_loop);
            law_scope_monotone(*body, b1 + names_of(bs), b2 + names_of(bs), in_loop);
        },
        ExprV::If(c, t, f) => {
            law_scope_monotone(*c, b1, b2, in_loop);
            law_scope_monotone(*t, b1, b2, in_loop);
            law_scope_monotone(*f, b1, b2, in_loop);
        },
        ExprV::Block(es) => lemma_seq_monotone(es, es.len() as int, b1, b2, in_loop),
        ExprV::Loop(a) => law_scope_monotone(*a, b1, b2, true),
        ExprV::Break(a) => law_scope_monotone(*a, b1, b2, in_loop),
        ExprV::SetVar(_, a) => law_scope_monotone(*a, b1, b2, in_loop),
        _ => {},
    }
}

proof fn lemma_binds_monotone(bs: Seq<(Seq<char>, ExprV)>, i: int, b1: Set<Seq<char>>, b2: Set<Seq<char>>, in_loop: bool)
    requires
        binds_fault(bs, i, b1, in_loop) is None,
        b1.subset_of(b2),
    ensures
        binds_fault(bs, i, b2, in_loop) is None,
    decreases bs, i,
{
    if 0 < i <= bs.len() {
        lemma_binds_monotone(bs, i - 1, b1, b2, in_loop);
        let n = names_of(bs.take(i - 1));
        if !n.contains(bs[i - 1].0) {
            law_scope_monotone(bs[i - 1].1, b1 + n, b2 + n, in_loop);
        }
    }
}

proof fn lemma_seq_monotone(es: Seq<ExprV>, i: int, b1: Set<Seq<char>>, b2: Set<Seq<char>>, in_loop: bool)
    requires
        seq_fault(es, i, b1, in_loop) is None,
        b1.subset_of(b2),
    ensures
        seq_fault(es, i, b2, in_loop) is None,
    decreases es, i,
{
    if 0 < i <= es.len() {
        lemma_seq_monotone(es, i - 1, b1, b2, in_loop);
        law_scope_monotone(es[i - 1], b1, b2, in_loop);
    }
}

/// The tree `(if c t f)`.
pub open spec fn if_form(c: SExpV, t: SExpV, f: SExpV) -> SExpV {
    SExpV::List(seq![SExpV::Str("if"@), c, t, f])
}

/// An `if` form whose parts read reads as the condition, then the branch
/// taken when it holds, then the other branch, in the order written.
pub proof fn law_if_form(c: SExpV, t: SExpV, f: SExpV)
    requires
        parse_spec(c) is Ok,
        parse_spec(t) is Ok,
        parse_spec(f) is Ok,
    ensures
        parse_spec(if_form(c, t, f)) is Ok,
        parse_spec(if_form(c, t, f))->Ok_0 == ExprV::If(
            Box::new(parse_spec(c)->Ok_0),
            Box::new(parse_spec(t)->Ok_0),
            Box::new(parse_spec(f)->Ok_0),
        ),
{
    lemma_reveal_symbols();
    let v = if_form(c, t, f)->List_0;
    assert(v.len() == 4 && v[0] == SExpV::Str("if"@) && v[1] == c && v[2] == t && v[3] == f);
}

/// A `loop` or `break` form `(w a)` whose body reads reads as a loop around,
/// or a break with, that body.
pub proof fn law_loop_break_forms(w: Seq<char>, a: SExpV)
    requires
        w == "loop"@ || w == "break"@,
        parse_spec(a) is Ok,
    ensures
        parse_spec(unary_form(w, a)) is Ok,
        w == "loop"@ ==> parse_spec(unary_form(w, a))->Ok_0 == ExprV::Loop(Box::new(parse_spec(a)->Ok_0)),
        w == "break"@ ==> parse_spec(unary_form(w, a))->Ok_0 == ExprV::Break(Box::new(parse_spec(a)->Ok_0)),
{
    lemma_reveal_symbols();
    let v = unary_form(w, a)->List_0;
    assert(v.len() == 2 && v[0] == SExpV::Str(w) && v[1] == a);
}

/// A `set!` form `(set! x a)` that reads reads as setting the variable named
/// `x` to the value of `a`.
pub proof fn law_set_form(x: Seq<char>, a: SExpV)
    requires
        parse_spec(binary_form("set!"@, SExpV::Str(x), a)) is Ok,
    ensures
        parse_spec(a) is Ok,
        parse_spec(binary_form("set!"@, SExpV::Str(x), a))->Ok_0 == ExprV::SetVar(x, Box::new(parse_spec(a)->Ok_0)),
{
    lemma_reveal_symbols();
    let v = binary_form("set!"@, SExpV::Str(x), a)->List_0;
    assert(v.len() == 3 && v[0] == SExpV::Str("set!"@) && v[1] == SExpV::Str(x) && v[2] == a);
}

} // verus!
