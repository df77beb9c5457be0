//! Cobra's abstract syntax, and its mathematical view.

use vstd::prelude::*;

verus! {

/// Cobra's unary operators.
#[derive(Clone, Copy, Debug, PartialEq, Eq, Structural)]
pub enum UnOp {
    Add1,
    Sub1,
    Negate,
    IsNum,
    IsBool,
}

/// Cobra's binary operators.
#[derive(Clone, Copy, Debug, PartialEq, Eq, Structural)]
pub enum BinOp {
    Plus,
    Minus,
    Times,
    Less,
    Greater,
    LessEqual,
    GreaterEqual,
    Equal,
}

/// A Cobra expression.
pub enum Expr {
    Number(i32),
    Bool(bool),
    Input,
    Id(String),
    Let(Vec<(String, Expr)>, Box<Expr>),
    UnOp(UnOp, Box<Expr>),
    BinOp(BinOp, Box<Expr>, Box<Expr>),
    If(Box<Expr>, Box<Expr>, Box<Expr>),
    Block(Vec<Expr>),
    Loop(Box<Expr>),
    Break(Box<Expr>),
    SetVar(String, Box<Expr>),
}

/// The mathematical value of an [`Expr`]: names are their characters.
pub enum ExprV {
    Number(i32),
    Bool(bool),
    Input,
    Id(Seq<char>),
    Let(Seq<(Seq<char>, ExprV)>, Box<ExprV>),
    UnOp(UnOp, Box<ExprV>),
    BinOp(BinOp, Box<ExprV>, Box<ExprV>),
    If(Box<ExprV>, Box<ExprV>, Box<ExprV>),
    Block(Seq<ExprV>),
    Loop(Box<ExprV>),
    Break(Box<ExprV>),
    SetVar(Seq<char>, Box<ExprV>),
}

/// The mathematical value of an expression.
pub open spec fn expr_view(e: Expr) -> ExprV
    decreases e,
{
    match e {
        Expr::Number(n) => ExprV::Number(n),
        Expr::Bool(b) => ExprV::Bool(b),
        Expr::Input => ExprV::Input,
        Expr::Id(x) => ExprV::Id(x@),
        Expr::Let(binds, body) => ExprV::Let(binds_view(binds@), Box::new(expr_view(*body))),
        Expr::UnOp(op, a) => ExprV::UnOp(op, Box::new(expr_view(*a))),
        Expr::BinOp(op, a, b) => ExprV::BinOp(op, Box::new(expr_view(*a)), Box::new(expr_view(*b))),
        Expr::If(c, t, f) => ExprV::If(
            Box::new(expr_view(*c)),
            Box::new(expr_view(*t)),
            Box::new(expr_view(*f)),
        ),
        Expr::Block(es) => ExprV::Block(exprs_view(es@)),
        Expr::Loop(a) => ExprV::Loop(Box::new(expr_view(*a))),
        Expr::Break(a) => ExprV::Break(Box::new(expr_view(*a))),
        Expr::SetVar(x, a) => ExprV::SetVar(x@, Box::new(expr_view(*a))),
    }
}

/// The mathematical value of a `let`'s bindings.
pub open spec fn binds_view(bs: Seq<(String, Expr)>) -> Seq<(Seq<char>, ExprV)>
    decreases bs,
{
    if bs.len() == 0 {
        Seq::empty()
    } else {
        binds_view(bs.drop_last()).push((bs.last().0@, expr_view(bs.last().1)))
    }
}

/// The mathematical value of a block's expressions.
pub open spec fn exprs_view(es: Seq<Expr>) -> Seq<ExprV>
    decreases es,
{
    if es.len() == 0 {
        Seq::empty()
    } else {
        exprs_view(es.drop_last()).push(expr_view(es.last()))
    }
}

impl View for Expr {
    type V = ExprV;

    open spec fn view(&self) -> ExprV {
        expr_view(*self)
    }
}

/// The view of a list of bindings is taken binding by binding.
pub proof fn lemma_binds_view(bs: Seq<(String, Expr)>)
    ensures
        binds_view(bs).len() == bs.len(),
        forall|i: int|
            0 <= i < bs.len() ==> #[trigger] binds_view(bs)[i] == (bs[i].0@, expr_view(bs[i].1)),
    decreases bs.len(),
{
    if bs.len() > 0 {
        lemma_binds_view(bs.drop_last());
        assert forall|i: int| 0 <= i < bs.len() implies #[trigger] binds_view(bs)[i] == (
        bs[i].0@, expr_view(bs[i].1)) by {
            if i < bs.len() - 1 {
                assert(bs.drop_last()[i] == bs[i]);
            }
        }
    }
}

/// The view of a list of expressions is taken element by element.
pub proof fn lemma_exprs_view(es: Seq<Expr>)
    ensures
        exprs_view(es).len() == es.len(),
        forall|i: int| 0 <= i < es.len() ==> #[trigger] exprs_view(es)[i] == expr_view(es[i]),
    decreases es.len(),
{
    if es.len() > 0 {
        lemma_exprs_view(es.drop_last());
        assert forall|i: int| 0 <= i < es.len() implies #[trigger] exprs_view(es)[i] == expr_view(
        es[i]) by {
            if i < es.len() - 1 {
                assert(es.drop_last()[i] == es[i]);
            }
        }
    }
}

} // verus!
