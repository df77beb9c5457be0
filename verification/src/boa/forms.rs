//! What the operator symbols of Boa's syntax mean, and which programs the
//! scope check accepts, stated without the parser's and the checker's own
//! tables.

use vstd::prelude::*;
use crate::sexpr::SExpV;
use crate::boa::ast::ExprV;
use crate::boa::parse::parse_spec;
use crate::boa::compile::{scope_fault, binds_fault, names_of};
use crate::boa::machine::eval;

verus! {

/// The tree `(w x y)`.
pub open spec fn binary_form(w: Seq<char>, x: SExpV, y: SExpV) -> SExpV {
    SExpV::List(seq![SExpV::Str(w), x, y])
}

/// The tree `(w x)`.
pub open spec fn unary_form(w: Seq<char>, x: SExpV) -> SExpV {
    SExpV::List(seq![SExpV::Str(w), x])
}

/// What symbol `w` computes from the values `a` (left) and `b` (right): their
/// sum, difference or product, in 64-bit wrapping arithmetic.
pub open spec fn symbol_value(w: Seq<char>, a: i64, b: i64) -> i64 {
    if w == "+"@ {
        (a + b) as i64
    } else if w == "-"@ {
        (a - b) as i64
    } else {
        (a * b) as i64
    }
}

/// Whether `e` computes, with any values of the variables, what symbol `w`
/// computes from the values of `l` and `r`.
pub open spec fn computes_as(e: ExprV, w: Seq<char>, l: ExprV, r: ExprV) -> bool {
    forall|vars: Map<Seq<char>, i64>| #[trigger] eval(e, vars) == symbol_value(w, eval(l, vars), eval(r, vars))
}

/// Whether `e` computes, with any values of the variables, the value of `a`
/// plus `d` (wrapping).
pub open spec fn steps_by(e: ExprV, a: ExprV, d: int) -> bool {
    forall|vars: Map<Seq<char>, i64>| #[trigger] eval(e, vars) == (eval(a, vars) + d) as i64
}

proof fn lemma_reveal_symbols()
    ensures
        "+"@.len() == 1 && "+"@[0] == '+',
        "-"@.len() == 1 && "-"@[0] == '-',
        "*"@.len() == 1 && "*"@[0] == '*',
        "add1"@.len() == 4 && "add1"@[0] == 'a',
        "sub1"@.len() == 4 && "sub1"@[0] == 's',
{
    reveal_strlit("+");
    reveal_strlit("-");
    reveal_strlit("*");
    reveal_strlit("add1");
    reveal_strlit("sub1");
}

/// A binary operator form `(w x y)` whose operands read reads as that
/// operator applied to the left operand and then the right one, in the order
/// written, and it computes the sum, the left minus the right, or the
/// product of their values.
pub proof fn law_binary_forms(w: Seq<char>, x: SExpV, y: SExpV)
    requires
        w == "+"@ || w == "-"@ || w == "*"@,
        parse_spec(x) is Ok,
        parse_spec(y) is Ok,
    ensures
        parse_spec(binary_form(w, x, y)) matches Ok(ExprV::BinOp(o, l, r)) && *l == parse_spec(x)->Ok_0 && *r
            == parse_spec(y)->Ok_0,
        parse_spec(binary_form(w, x, y)) is Ok && computes_as(parse_spec(binary_form(w, x, y))->Ok_0, w, parse_spec(x)->Ok_0,
            parse_spec(y)->Ok_0),
{
    lemma_reveal_symbols();
    let t = binary_form(w, x, y);
    assert(t->List_0[1] == x && t->List_0[2] == y && t->List_0.len() == 3);
    let e = parse_spec(t)->Ok_0;
    assert(e matches ExprV::BinOp(o, l, r) && *l == parse_spec(x)->Ok_0 && *r == parse_spec(y)->Ok_0);
    assert forall|vars: Map<Seq<char>, i64>| #[trigger] eval(e, vars) == symbol_value(w, eval(parse_spec(x)->Ok_0, vars),
        eval(parse_spec(y)->Ok_0, vars)) by {}
}

/// A unary operator form `(w x)` whose operand reads reads as that operator
/// applied to the operand, and it computes the operand's value plus one
/// (`add1`) or minus one (`sub1`).
pub proof fn law_unary_forms(w: Seq<char>, x: SExpV)
    requires
        w == "add1"@ || w == "sub1"@,
        parse_spec(x) is Ok,
    ensures
        parse_spec(unary_form(w, x)) matches Ok(ExprV::UnOp(o, a)) && *a == parse_spec(x)->Ok_0,
        parse_spec(unary_form(w, x)) is Ok && steps_by(parse_spec(unary_form(w, x))->Ok_0, parse_spec(x)->Ok_0, if w
            == "add1"@ { 1 } else { -1 }),
{
    lemma_reveal_symbols();
    let t = unary_form(w, x);
    assert(t->List_0[1] == x && t->List_0.len() == 2);
    let e = parse_spec(t)->Ok_0;
    assert(e matches ExprV::UnOp(o, a) && *a == parse_spec(x)->Ok_0);
    let d: int = if w == "add1"@ { 1 } else { -1 };
    assert forall|vars: Map<Seq<char>, i64>| #[trigger] eval(e, vars) == (eval(parse_spec(x)->Ok_0, vars) + d) as i64 by {}
}

/// Whether no name is bound twice in a list of bindings.
pub open spec fn names_distinct(bs: Seq<(Seq<char>, ExprV)>) -> bool {
    forall|i: int, j: int| 0 <= i < j < bs.len() ==> (#[trigger] bs[i]).0 != (#[trigger] bs[j]).0
}

/// Whether each binding's expression is well scoped where the names `bound`
/// and those of the bindings before it are in scope.
pub open spec fn binds_scoped(bs: Seq<(Seq<char>, ExprV)>, bound: Set<Seq<char>>) -> bool {
    forall|k: int| #![trigger bs[k]] 0 <= k < bs.len() ==> scope_fault(bs[k].1, bound + names_of(bs.take(k))) is None
}

proof fn lemma_binds_fault_iff(bs: Seq<(Seq<char>, ExprV)>, i: int, bound: Set<Seq<char>>)
    requires
        0 <= i <= bs.len(),
    ensures
        binds_fault(bs, i, bound) is None <==> names_distinct(bs.take(i)) && binds_scoped(bs.take(i), bound),
    decreases i,
{
    if i == 0 {
        assert(bs.take(0) =~= Seq::<(Seq<char>, ExprV)>::empty());
    } else {
        lemma_binds_fault_iff(bs, i - 1, bound);
        let p = bs.take(i - 1);
        let q = bs.take(i);
        let x = bs[i - 1].0;
        assert(q == p.push(bs[i - 1]));
        assert forall|k: int| 0 <= k <= i - 1 implies #[trigger] q.take(k) == bs.take(k) by {
            assert(q.take(k) =~= bs.take(k));
        }
        assert forall|k: int| 0 <= k < i - 1 implies #[trigger] p.take(k) == bs.take(k) by {
            assert(p.take(k) =~= bs.take(k));
        }
        assert(names_of(p).contains(x) <==> exists|j: int| 0 <= j < i - 1 && #[trigger] p[j].0 == x) by {
            if names_of(p).contains(x) {
                let j = choose|j: int| #![trigger p[j]] 0 <= j < p.len() && p[j].0 == x;
                assert(p[j].0 == x);
            }
        }
        assert(names_distinct(q) <==> names_distinct(p) && !names_of(p).contains(x)) by {
            if names_distinct(q) {
                assert forall|a: int, b: int| 0 <= a < b < p.len() implies (#[trigger] p[a]).0 != (#[trigger] p[b]).0 by {
                    assert(q[a] == p[a] && q[b] == p[b]);
                }
                if names_of(p).contains(x) {
                    let j = choose|j: int| 0 <= j < i - 1 && #[trigger] p[j].0 == x;
                    assert(q[j] == p[j] && q[i - 1] == bs[i - 1]);
                }
            }
            if names_distinct(p) && !names_of(p).contains(x) {
                assert forall|a: int, b: int| 0 <= a < b < q.len() implies (#[trigger] q[a]).0 != (#[trigger] q[b]).0 by {
                    assert(q[a] == p[a]);
                    if b < i - 1 {
                        assert(q[b] == p[b]);
                    } else {
                        assert(q[b] == bs[i - 1]);
                        assert(p[a].0 == q[a].0);
                    }
                }
            }
        }
        assert(binds_scoped(q, bound) <==> binds_scoped(p, bound) && scope_fault(bs[i - 1].1, bound + names_of(p)) is None) by {
            if binds_scoped(q, bound) {
                assert forall|k: int| #![trigger p[k]] 0 <= k < p.len() implies scope_fault(p[k].1, bound + names_of(p.take(k))) is None by {
                    assert(q[k] == p[k]);
                }
                assert(q[i - 1] == bs[i - 1]);
            }
            if binds_scoped(p, bound) && scope_fault(bs[i - 1].1, bound + names_of(p)) is None {
                assert forall|k: int| #![trigger q[k]] 0 <= k < q.len() implies scope_fault(q[k].1, bound + names_of(q.take(k))) is None by {
                    if k < i - 1 {
                        assert(q[k] == p[k]);
                    }
                }
            }
        }
    }
}

/// A `let` is well scoped exactly when no name is bound twice in it, each
/// binding is well scoped with the names before it in scope, and the body is
/// well scoped with all its names in scope. Names bound outside it play no
/// part other than being in scope: a `let` may shadow a variable bound
/// outside it.
pub proof fn law_let_scope(bs: Seq<(Seq<char>, ExprV)>, body: ExprV, bound: Set<Seq<char>>)
    ensures
        scope_fault(ExprV::Let(bs, Box::new(body)), bound) is None <==> (names_distinct(bs) && binds_scoped(bs, bound) && scope_fault(
            body,
            bound + names_of(bs),
        ) is None),
{
    lemma_binds_fault_iff(bs, bs.len() as int, bound);
    assert(bs.take(bs.len() as int) =~= bs);
}

/// Bringing more names into scope never makes a well-scoped expression
/// ill scoped.
pub proof fn law_scope_monotone(e: ExprV, b1: Set<Seq<char>>, b2: Set<Seq<char>>)
    requires
        scope_fault(e, b1) is None,
        b1.subset_of(b2),
    ensures
        scope_fault(e, b2) is None,
    decreases e, 0int,
{
    match e {
        ExprV::UnOp(_, a) => law_scope_monotone(*a, b1, b2),
        ExprV::BinOp(_, l, r) => {
            law_scope_monotone(*l, b1, b2);
            law_scope_monotone(*r, b1, b2);
        },
        ExprV::Let(bs, body) => {
            lemma_binds_monotone(bs, bs.len() as int, b1, b2);
            law_scope_monotone(*body, b1 + names_of(bs), b2 + names_of(bs));
        },
        _ => {},
    }
}

proof fn lemma_binds_monotone(bs: Seq<(Seq<char>, ExprV)>, i: int, b1: Set<Seq<char>>, b2: Set<Seq<char>>)
    requires
        binds_fault(bs, i, b1) is None,
        b1.subset_of(b2),
    ensures
        binds_fault(bs, i, b2) is None,
    decreases bs, i,
{
    if 0 < i <= bs.len() {
        lemma_binds_monotone(bs, i - 1, b1, b2);
        let n = names_of(bs.take(i - 1));
        if !n.contains(bs[i - 1].0) {
            law_scope_monotone(bs[i - 1].1, b1 + n, b2 + n);
        }
    }
}

} // verus!
