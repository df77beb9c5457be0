//! Boa's concrete syntax: from s-expressions to [`Expr`].

use vstd::prelude::*;
use crate::text::str_eq;
use crate::sexpr::{ParseError, SExp, SExpV, sexp_view, sexp_views, lemma_sexp_views};
use crate::boa::ast::{Op1, Op2, Expr, ExprV, binds_view};

verus! {

/// The words that cannot name a variable.
pub open spec fn reserved(w: Seq<char>) -> bool {
    w == "let"@ || w == "add1"@ || w == "sub1"@
}

/// The unary operator a head symbol names.
pub open spec fn op1_named(w: Seq<char>) -> Option<Op1> {
    if w == "add1"@ {
        Some(Op1::Add1)
    } else if w == "sub1"@ {
        Some(Op1::Sub1)
    } else {
        None
    }
}

/// The binary operator a head symbol names.
pub open spec fn op2_named(w: Seq<char>) -> Option<Op2> {
    if w == "+"@ {
        Some(Op2::Plus)
    } else if w == "-"@ {
        Some(Op2::Minus)
    } else if w == "*"@ {
        Some(Op2::Times)
    } else {
        None
    }
}

/// What a tree means as a Boa expression, or the first error met when the
/// tree is read depth first, left to right.
pub open spec fn parse_spec(s: SExpV) -> Result<ExprV, ParseError>
    decreases s, 0int,
{
    match s {
        SExpV::Int(n) => if i32::MIN <= n <= i32::MAX {
            Ok(ExprV::Number(n as i32))
        } else {
            Err(ParseError::IntOutOfRange)
        },
        SExpV::Float => Err(ParseError::Invalid),
        SExpV::Str(name) => if reserved(name) {
            Err(ParseError::Invalid)
        } else {
            Ok(ExprV::Id(name))
        },
        SExpV::List(v) => if v.len() == 0 || !(v[0] is Str) {
            Err(ParseError::Invalid)
        } else {
            let op = v[0]->Str_0;
            if v.len() == 2 && op1_named(op) is Some {
                match parse_spec(v[1]) {
                    Ok(a) => Ok(ExprV::UnOp(op1_named(op)->0, Box::new(a))),
                    Err(k) => Err(k),
                }
            } else if v.len() == 3 && op2_named(op) is Some {
                match parse_spec(v[1]) {
                    Ok(a) => match parse_spec(v[2]) {
                        Ok(b) => Ok(ExprV::BinOp(op2_named(op)->0, Box::new(a), Box::new(b))),
                        Err(k) => Err(k),
                    },
                    Err(k) => Err(k),
                }
            } else if v.len() == 3 && op == "let"@ && v[1] is List {
                let binds = v[1]->List_0;
                if binds.len() == 0 {
                    Err(ParseError::Invalid)
                } else {
                    match parse_binds_spec(binds) {
                        Ok(bs) => match parse_spec(v[2]) {
                            Ok(body) => Ok(ExprV::Let(bs, Box::new(body))),
                            Err(k) => Err(k),
                        },
                        Err(k) => Err(k),
                    }
                }
            } else {
                Err(ParseError::Invalid)
            }
        },
    }
}

/// What a tree means as one binding `(name expr)` of a `let`.
pub open spec fn parse_bind_spec(s: SExpV) -> Result<(Seq<char>, ExprV), ParseError>
    decreases s, 1int,
{
    match s {
        SExpV::List(v) => if v.len() == 2 && v[0] is Str {
            let name = v[0]->Str_0;
            if reserved(name) {
                Err(ParseError::Invalid)
            } else {
                match parse_spec(v[1]) {
                    Ok(e) => Ok((name, e)),
                    Err(k) => Err(k),
                }
            }
        } else {
            Err(ParseError::Invalid)
        },
        _ => Err(ParseError::Invalid),
    }
}

/// The bindings of a `let`, read left to right up to the first error.
pub open spec fn parse_binds_spec(bs: Seq<SExpV>) -> Result<Seq<(Seq<char>, ExprV)>, ParseError>
    decreases bs, 0int,
{
    if bs.len() == 0 {
        Ok(Seq::empty())
    } else {
        match parse_binds_spec(bs.drop_last()) {
            Ok(prefix) => match parse_bind_spec(bs.last()) {
                Ok(b) => Ok(prefix.push(b)),
                Err(k) => Err(k),
            },
            Err(k) => Err(k),
        }
    }
}

proof fn lemma_binds_prefix(bs: Seq<SExpV>, i: int)
    requires
        0 <= i < bs.len(),
        parse_binds_spec(bs) is Ok,
    ensures
        parse_binds_spec(bs.take(i)) is Ok,
        parse_bind_spec(bs[i]) is Ok,
    decreases bs.len(),
{
    if i < bs.len() - 1 {
        assert(bs.drop_last().take(i) =~= bs.take(i));
        assert(bs.drop_last()[i] == bs[i]);
        lemma_binds_prefix(bs.drop_last(), i);
    } else {
        assert(bs.drop_last() =~= bs.take(i));
    }
}

proof fn lemma_binds_err_prefix(bs: Seq<SExpV>, i: int)
    requires
        0 <= i <= bs.len(),
        parse_binds_spec(bs.take(i)) is Err,
    ensures
        parse_binds_spec(bs) == parse_binds_spec(bs.take(i)),
    decreases bs.len(),
{
    if i < bs.len() {
        assert(bs.drop_last().take(i) =~= bs.take(i));
        lemma_binds_err_prefix(bs.drop_last(), i);
    } else {
        assert(bs.take(i) =~= bs);
    }
}

/// Whether `word` is one of Boa's reserved words.
pub fn is_reserved(word: &str) -> (r: bool)
    ensures
        r == reserved(word@),
{
    str_eq(word, "let") || str_eq(word, "add1") || str_eq(word, "sub1")
}

fn op1_of(w: &str) -> (r: Option<Op1>)
    ensures
        r == op1_named(w@),
{
    if str_eq(w, "add1") {
        Some(Op1::Add1)
    } else if str_eq(w, "sub1") {
        Some(Op1::Sub1)
    } else {
        None
    }
}

fn op2_of(w: &str) -> (r: Option<Op2>)
    ensures
        r == op2_named(w@),
{
    if str_eq(w, "+") {
        Some(Op2::Plus)
    } else if str_eq(w, "-") {
        Some(Op2::Minus)
    } else if str_eq(w, "*") {
        Some(Op2::Times)
    } else {
        None
    }
}

/// Reads one binding `(name expr)` of a `let`.
pub fn parse_bind(s: &SExp) -> (r: (String, Expr))
    requires
        parse_bind_spec(s@) is Ok,
    ensures
        parse_bind_spec(s@) matches Ok(b) && b == (r.0@, r.1@),
    decreases s,
{
    match s {
        SExp::List(v) => {
            proof { lemma_sexp_views(v@); }
            match &v[0] {
                SExp::Str(name) => {
                    let e = parse_expr(&v[1]);
                    (name.clone(), e)
                },
                _ => {
                    proof { assert(false); }
                    (String::new(), Expr::Number(0))
                },
            }
        },
        _ => {
            proof { assert(false); }
            (String::new(), Expr::Number(0))
        },
    }
}

/// Reads a Boa expression from a tree.
pub fn parse_expr(s: &SExp) -> (e: Expr)
    requires
        parse_spec(s@) is Ok,
    ensures
        parse_spec(s@) matches Ok(x) && x == e@,
    decreases s,
{
    match s {
        SExp::Int(n) => Expr::Number(*n as i32),
        SExp::Float => {
            proof { assert(false); }
            Expr::Number(0)
        },
        SExp::Str(name) => Expr::Id(name.clone()),
        SExp::List(v) => parse_list(v),
    }
}

fn parse_list(v: &Vec<SExp>) -> (e: Expr)
    requires
        parse_spec(SExpV::List(sexp_views(v@))) is Ok,
    ensures
        parse_spec(SExpV::List(sexp_views(v@))) matches Ok(x) && x == e@,
    decreases v,
{
    proof { lemma_sexp_views(v@); }
    let op: &String = match &v[0] {
        SExp::Str(op) => op,
        _ => {
            proof { assert(false); }
            return Expr::Number(0);
        },
    };
    let n = v.len();
    if n == 2 {
        if let Some(u) = op1_of(op.as_str()) {
            let a = parse_expr(&v[1]);
            return Expr::UnOp(u, Box::new(a));
        }
    }
    if n == 3 {
        if let Some(b) = op2_of(op.as_str()) {
            let a = parse_expr(&v[1]);
            let c = parse_expr(&v[2]);
            return Expr::BinOp(b, Box::new(a), Box::new(c));
        }
    }
    // the remaining form: (let (binds ...) body)
    let bs: &Vec<SExp> = match &v[1] {
        SExp::List(bs) => bs,
        _ => {
            proof { assert(false); }
            return Expr::Number(0);
        },
    };
    proof { lemma_sexp_views(bs@); }
    let ghost bvs = sexp_views(bs@);
    let mut parsed: Vec<(String, Expr)> = Vec::new();
    let mut i: usize = 0;
    while i < bs.len()
        invariant
            i <= bs.len(),
            bvs == sexp_views(bs@),
            bvs.len() == bs.len(),
            v.len() == 3,
            v@[1] == SExp::List(*bs),
            forall|j: int| 0 <= j < bs.len() ==> #[trigger] bvs[j] == sexp_view(bs@[j]),
            parse_binds_spec(bvs) is Ok,
            parse_binds_spec(bvs.take(i as int)) matches Ok(p) && p == binds_view(parsed@),
        decreases bs.len() - i,
    {
        proof {
            lemma_binds_prefix(bvs, i as int);
            assert(decreases_to!(*v => v@[1]));
            assert(decreases_to!(v@[1] => v@[1]->List_0));
            assert(decreases_to!(*bs => bs@[i as int]));
        }
        let b = parse_bind(&bs[i]);
        let ghost before = parsed@;
        parsed.push(b);
        proof {
            assert(parsed@.drop_last() =~= before);
            assert(bvs.take(i + 1).drop_last() =~= bvs.take(i as int));
        }
        i = i + 1;
    }
    proof { assert(bvs.take(i as int) =~= bvs); }
    let body = parse_expr(&v[2]);
    Expr::Let(parsed, Box::new(body))
}

/// Finds the first reason, depth first and left to right, why a tree is not
/// a Boa expression: the point where [`parse_expr`] would stop.
pub fn check_syntax(s: &SExp) -> (r: Result<(), ParseError>)
    ensures
        r is Ok <==> parse_spec(s@) is Ok,
        r is Err ==> r->Err_0 == parse_spec(s@)->Err_0,
    decreases s,
{
    match s {
        SExp::Int(n) => if i32::MIN as i64 <= *n && *n <= i32::MAX as i64 {
            Ok(())
        } else {
            Err(ParseError::IntOutOfRange)
        },
        SExp::Float => Err(ParseError::Invalid),
        SExp::Str(name) => if is_reserved(name.as_str()) {
            Err(ParseError::Invalid)
        } else {
            Ok(())
        },
        SExp::List(v) => check_list(v),
    }
}

fn check_bind(s: &SExp) -> (r: Result<(), ParseError>)
    ensures
        r is Ok <==> parse_bind_spec(s@) is Ok,
        r is Err ==> r->Err_0 == parse_bind_spec(s@)->Err_0,
    decreases s,
{
    match s {
        SExp::List(v) => {
            proof { lemma_sexp_views(v@); }
            if v.len() != 2 {
                return Err(ParseError::Invalid);
            }
            match &v[0] {
                SExp::Str(name) => {
                    if is_reserved(name.as_str()) {
                        Err(ParseError::Invalid)
                    } else {
                        check_syntax(&v[1])
                    }
                },
                _ => Err(ParseError::Invalid),
            }
        },
        _ => Err(ParseError::Invalid),
    }
}

fn check_list(v: &Vec<SExp>) -> (r: Result<(), ParseError>)
    ensures
        r is Ok <==> parse_spec(SExpV::List(sexp_views(v@))) is Ok,
        r is Err ==> r->Err_0 == parse_spec(SExpV::List(sexp_views(v@)))->Err_0,
    decreases v,
{
    proof { lemma_sexp_views(v@); }
    let n = v.len();
    if n == 0 {
        return Err(ParseError::Invalid);
    }
    let op: &String = match &v[0] {
        SExp::Str(op) => op,
        _ => {
            return Err(ParseError::Invalid);
        },
    };
    if n == 2 {
        if let Some(_u) = op1_of(op.as_str()) {
            return check_syntax(&v[1]);
        }
    }
    if n == 3 {
        if let Some(_b) = op2_of(op.as_str()) {
            let a = check_syntax(&v[1]);
            if a.is_err() {
                return a;
            }
            return check_syntax(&v[2]);
        }
    }
    if !(n == 3 && str_eq(op.as_str(), "let") && matches!(&v[1], SExp::List(_))) {
        return Err(ParseError::Invalid);
    }
    let bs: &Vec<SExp> = match &v[1] {
        SExp::List(bs) => bs,
        _ => {
            proof { assert(false); }
            return Err(ParseError::Invalid);
        },
    };
    if bs.len() == 0 {
        return Err(ParseError::Invalid);
    }
    proof { lemma_sexp_views(bs@); }
    let ghost bvs = sexp_views(bs@);
    let mut i: usize = 0;
    #[verifier::loop_isolation(false)]
    while i < bs.len()
        invariant
            i <= bs.len(),
            bvs == sexp_views(bs@),
            bvs.len() == bs.len(),
            v.len() == 3,
            v@[1] == SExp::List(*bs),
            forall|j: int| 0 <= j < bs.len() ==> #[trigger] bvs[j] == sexp_view(bs@[j]),
            parse_binds_spec(bvs.take(i as int)) is Ok,
        decreases bs.len() - i,
    {
        proof {
            assert(decreases_to!(*v => v@[1]));
            assert(decreases_to!(v@[1] => v@[1]->List_0));
            assert(decreases_to!(*bs => bs@[i as int]));
            assert(bvs.take(i + 1).drop_last() =~= bvs.take(i as int));
            assert(bvs.take(i + 1).last() == bvs[i as int]);
        }
        let b = check_bind(&bs[i]);
        if b.is_err() {
            proof { lemma_binds_err_prefix(bvs, i + 1); }
            return b;
        }
        i = i + 1;
    }
    proof { assert(bvs.take(i as int) =~= bvs); }
    check_syntax(&v[2])
}

} // verus!
