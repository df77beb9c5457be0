//! S-expression trees as the compiler reads them, and the call into the
//! `sexp` crate that reads them from source text.

use vstd::prelude::*;

verus! {

/// An s-expression: an atom (symbol, integer or float) or a list.
///
/// Only the presence of a float atom matters to the compiler, which rejects
/// it, so a float atom carries no value here.
pub enum SExp {
    Str(String),
    Int(i64),
    Float,
    List(Vec<SExp>),
}

/// Why a tree is not a program of the language read from it.
#[derive(Clone, Copy, Debug, PartialEq, Eq, Structural)]
pub enum ParseError {
    /// A form that is not the language's syntax (the message `Invalid`).
    Invalid,
    /// An integer literal outside the 32-bit signed range.
    IntOutOfRange,
}

/// The mathematical value of an [`SExp`].
pub enum SExpV {
    Str(Seq<char>),
    Int(i64),
    Float,
    List(Seq<SExpV>),
}

/// The mathematical value of a tree.
pub open spec fn sexp_view(s: SExp) -> SExpV
    decreases s,
{
    match s {
        SExp::Str(x) => SExpV::Str(x@),
        SExp::Int(n) => SExpV::Int(n),
        SExp::Float => SExpV::Float,
        SExp::List(v) => SExpV::List(sexp_views(v@)),
    }
}

/// The mathematical values of a list of trees.
pub open spec fn sexp_views(v: Seq<SExp>) -> Seq<SExpV>
    decreases v,
{
    if v.len() == 0 {
        Seq::empty()
    } else {
        sexp_views(v.drop_last()).push(sexp_view(v.last()))
    }
}

impl View for SExp {
    type V = SExpV;

    open spec fn view(&self) -> SExpV {
        sexp_view(*self)
    }
}

/// The views of a sequence of trees are taken element by element.
pub proof fn lemma_sexp_views(v: Seq<SExp>)
    ensures
        sexp_views(v).len() == v.len(),
        forall|i: int| 0 <= i < v.len() ==> #[trigger] sexp_views(v)[i] == sexp_view(v[i]),
    decreases v.len(),
{
    if v.len() > 0 {
        lemma_sexp_views(v.drop_last());
        assert forall|i: int| 0 <= i < v.len() implies #[trigger] sexp_views(v)[i] == sexp_view(v[i]) by {
            if i < v.len() - 1 {
                assert(v.drop_last()[i] == v[i]);
            }
        }
    }
}

/// `sexp::Sexp`, the tree that `sexp::parse` returns; [`tree_of`] copies it
/// into an [`SExp`].
#[verifier::external_type_specification]
#[verifier::external_body]
pub struct ExSexp(sexp::Sexp);

/// `sexp::Error`, the error that `sexp::parse` returns.
#[verifier::external_type_specification]
#[verifier::external_body]
pub struct ExSexpError(sexp::Error);

/// What `sexp::parse` makes of a text: the tree it reads, or `None` where it
/// reports an error.
pub uninterp spec fn sexp_parse(text: Seq<char>) -> Option<SExpV>;

/// Rebuilds a tree of the `sexp` crate as an [`SExp`], node for node; a float
/// atom loses its value.
#[verifier::external_body]
fn tree_of(s: &sexp::Sexp) -> SExp {
    match s {
        sexp::Sexp::Atom(sexp::Atom::S(name)) => SExp::Str(name.clone()),
        sexp::Sexp::Atom(sexp::Atom::I(n)) => SExp::Int(*n),
        sexp::Sexp::Atom(sexp::Atom::F(_)) => SExp::Float,
        sexp::Sexp::List(items) => SExp::List(items.iter().map(tree_of).collect()),
    }
}

/// Reads an s-expression with `sexp::parse`. The contract claims that the
/// result is `Ok` exactly where `sexp::parse` succeeds, and that it then holds
/// the tree that `sexp::parse` read (named [`sexp_parse`]); the error is the
/// one `sexp::parse` returned, of which nothing is stated.
#[verifier::external_body]
pub(crate) fn parse_sexp(text: &str) -> (r: Result<SExp, Box<sexp::Error>>)
    ensures
        r is Ok <==> sexp_parse(text@) is Some,
        r matches Ok(t) ==> sexp_parse(text@) == Some(t@),
{
    match sexp::parse(text) {
        Ok(tree) => Ok(tree_of(&tree)),
        Err(e) => Err(e),
    }
}

} // verus!
