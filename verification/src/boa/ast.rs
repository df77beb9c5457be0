//! Boa's abstract syntax, and its mathematical view.

use vstd::prelude::*;

verus! {

/// Boa's unary operators.
#[derive(Clone, Copy, Debug, PartialEq, Eq, Structural)]
pub enum Op1 {
    Add1,
    Sub1,
}

/// Boa's binary operators.
#[derive(Clone, Copy, Debug, PartialEq, Eq, Structural)]
pub enum Op2 {
    Plus,
    Minus,
    Times,
}

/// A Boa expression.
pub enum Expr {
    Number(i32),
    Id(String),
    Let(Vec<(String, Expr)>, Box<Expr>),
    UnOp(Op1, Box<Expr>),
    BinOp(Op2, Box<Expr>, Box<Expr>),
}

/// The mathematical value of an [`Expr`]: names are their characters.
pub enum ExprV {
    Number(i32),
    Id(Seq<char>),
    Let(Seq<(Seq<char>, ExprV)>, Box<ExprV>),
    UnOp(Op1, Box<ExprV>),
    BinOp(Op2, Box<ExprV>, Box<ExprV>),
}

/// The mathematical value of an expression.
pub open spec fn expr_view(e: Expr) -> ExprV
    decreases e,
{
    match e {
        Expr::Number(n) => ExprV::Number(n),
        Expr::Id(x) => ExprV::Id(x@),
        Expr::Let(binds, body) => ExprV::Let(binds_view(binds@), Box::new(expr_view(*body))),
        Expr::UnOp(op, a) => ExprV::UnOp(op, Box::new(expr_view(*a))),
        Expr::BinOp(op, a, b) => ExprV::BinOp(op, Box::new(expr_view(*a)), Box::new(expr_view(*b))),
    }
}

/// The mathematical value of a `let`'s bindings.
pub open spec fn binds_view(bs: Seq<(String, Expr)>) -> Seq<(Seq<char>, ExprV)>
    decreases bs,
{
    if bs.len() == 0 {
        Seq::empty()
    } else {
        binds_view(bs.drop_last()).push((bs.last().0@, expr_view(bs.last().1)))
    }
}

impl View for Expr {
    type V = ExprV;

    open spec fn view(&self) -> ExprV {
        expr_view(*self)
    }
}

/// The view of a list of bindings is taken binding by binding.
pub proof fn lemma_binds_view(bs: Seq<(String, Expr)>)
    ensures
        binds_view(bs).len() == bs.len(),
        forall|i: int|
            0 <= i < bs.len() ==> #[trigger] binds_view(bs)[i] == (bs[i].0@, expr_view(bs[i].1)),
    decreases bs.len(),
{
    if bs.len() > 0 {
        lemma_binds_view(bs.drop_last());
        assert forall|i: int| 0 <= i < bs.len() implies #[trigger] binds_view(bs)[i] == (
        bs[i].0@, expr_view(bs[i].1)) by {
            if i < bs.len() - 1 {
                assert(bs.drop_last()[i] == bs[i]);
            }
        }
    }
}

} // verus!
