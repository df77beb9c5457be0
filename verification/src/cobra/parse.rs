//! Cobra's concrete syntax: from s-expressions to [`Expr`].

use vstd::prelude::*;
use crate::text::str_eq;
use crate::sexpr::{ParseError, SExp, SExpV, sexp_view, sexp_views, lemma_sexp_views};
use crate::cobra::ast::{UnOp, BinOp, Expr, ExprV, binds_view, exprs_view};

verus! {


/// The words that cannot name a variable.
pub open spec fn reserved(w: Seq<char>) -> bool {
    ||| w == "let"@
    ||| w == "add1"@
    ||| w == "sub1"@
    ||| w == "negate"@
    ||| w == "input"@
    ||| w == "true"@
    ||| w == "false"@
    ||| w == "if"@
    ||| w == "block"@
    ||| w == "loop"@
    ||| w == "break"@
    ||| w == "set!"@
    ||| w == "isnum"@
    ||| w == "isbool"@
}

/// The unary operator a head symbol names.
pub open spec fn unop_named(w: Seq<char>) -> Option<UnOp> {
    if w == "add1"@ {
        Some(UnOp::Add1)
    } else if w == "sub1"@ {
        Some(UnOp::Sub1)
    } else if w == "negate"@ {
        Some(UnOp::Negate)
    } else if w == "isnum"@ {
        Some(UnOp::IsNum)
    } else if w == "isbool"@ {
        Some(UnOp::IsBool)
    } else {
        None
    }
}

/// The binary operator a head symbol names.
pub open spec fn binop_named(w: Seq<char>) -> Option<BinOp> {
    if w == "+"@ {
        Some(BinOp::Plus)
    } else if w == "-"@ {
        Some(BinOp::Minus)
    } else if w == "*"@ {
        Some(BinOp::Times)
    } else if w == "<"@ {
        Some(BinOp::Less)
    } else if w == ">"@ {
        Some(BinOp::Greater)
    } else if w == "<="@ {
        Some(BinOp::LessEqual)
    } else if w == ">="@ {
        Some(BinOp::GreaterEqual)
    } else if w == "="@ {
        Some(BinOp::Equal)
    } else {
        None
    }
}

/// Whether a tree is the symbol `w`.
pub open spec fn is_sym(s: SExpV, w: Seq<char>) -> bool {
    s matches SExpV::Str(x) && x == w
}

/// The head symbol of a list, if it starts with one.
pub open spec fn head_sym(v: Seq<SExpV>) -> Option<Seq<char>> {
    if v.len() > 0 && v[0] is Str {
        Some(v[0]->Str_0)
    } else {
        None
    }
}

/// What a tree means as a Cobra expression, or the first error met when the
/// tree is read depth first, left to right.
pub open spec fn parse_spec(s: SExpV) -> Result<ExprV, ParseError>
    decreases s, 0int,
{
    match s {
        SExpV::Int(n) => if i32::MIN <= n <= i32::MAX {
            Ok(ExprV::Number(n as i32))
        } else {
            Err(ParseError::IntOutOfRange)
        },
        SExpV::Float => Err(ParseError::Invalid),
        SExpV::Str(name) => if name == "true"@ {
            Ok(ExprV::Bool(true))
        } else if name == "false"@ {
            Ok(ExprV::Bool(false))
        } else if name == "input"@ {
            Ok(ExprV::Input)
        } else if reserved(name) {
            Err(ParseError::Invalid)
        } else {
            Ok(ExprV::Id(name))
        },
        SExpV::List(v) => {
            let head = head_sym(v);
            if head is None {
                Err(ParseError::Invalid)
            } else {
                let op = head->0;
                if v.len() == 2 && unop_named(op) is Some {
                    match parse_spec(v[1]) {
                        Ok(a) => Ok(ExprV::UnOp(unop_named(op)->0, Box::new(a))),
                        Err(k) => Err(k),
                    }
                } else if v.len() == 3 && binop_named(op) is Some {
                    match parse_spec(v[1]) {
                        Ok(a) => match parse_spec(v[2]) {
                            Ok(b) => Ok(ExprV::BinOp(binop_named(op)->0, Box::new(a), Box::new(b))),
                            Err(k) => Err(k),
                        },
                        Err(k) => Err(k),
                    }
                } else if v.len() == 3 && op == "let"@ && v[1] is List {
                    let binds = v[1]->List_0;
                    if binds.len() == 0 {
                        Err(ParseError::Invalid)
                    } else {
                        match parse_binds_spec(binds) {
                            Ok(bs) => match parse_spec(v[2]) {
                                Ok(body) => Ok(ExprV::Let(bs, Box::new(body))),
                                Err(k) => Err(k),
                            },
                            Err(k) => Err(k),
                        }
                    }
                } else if v.len() == 4 && op == "if"@ {
                    match parse_spec(v[1]) {
                        Ok(c) => match parse_spec(v[2]) {
                            Ok(t) => match parse_spec(v[3]) {
                                Ok(f) => Ok(ExprV::If(Box::new(c), Box::new(t), Box::new(f))),
                                Err(k) => Err(k),
                            },
                            Err(k) => Err(k),
                        },
                        Err(k) => Err(k),
                    }
                } else if v.len() == 2 && op == "loop"@ {
                    match parse_spec(v[1]) {
                        Ok(a) => Ok(ExprV::Loop(Box::new(a))),
                        Err(k) => Err(k),
                    }
                } else if v.len() == 2 && op == "break"@ {
                    match parse_spec(v[1]) {
                        Ok(a) => Ok(ExprV::Break(Box::new(a))),
                        Err(k) => Err(k),
                    }
                } else if v.len() == 3 && op == "set!"@ && v[1] is Str {
                    let name = v[1]->Str_0;
                    if reserved(name) {
                        Err(ParseError::Invalid)
                    } else {
                        match parse_spec(v[2]) {
                            Ok(a) => Ok(ExprV::SetVar(name, Box::new(a))),
                            Err(k) => Err(k),
                        }
                    }
                } else if op == "block"@ {
                    if v.len() == 1 {
                        Err(ParseError::Invalid)
                    } else {
                        match parse_seq_spec(v.skip(1)) {
                            Ok(es) => Ok(ExprV::Block(es)),
                            Err(k) => Err(k),
                        }
                    }
                } else {
                    Err(ParseError::Invalid)
                }
            }
        },
    }
}

/// What a tree means as one binding `(name expr)` of a `let`.
pub open spec fn parse_bind_spec(s: SExpV) -> Result<(Seq<char>, ExprV), ParseError>
    decreases s, 1int,
{
    match s {
        SExpV::List(v) => if v.len() == 2 && v[0] is Str {
            let name = v[0]->Str_0;
            if reserved(name) {
                Err(ParseError::Invalid)
            } else {
                match parse_spec(v[1]) {
                    Ok(e) => Ok((name, e)),
                    Err(k) => Err(k),
                }
            }
        } else {
            Err(ParseError::Invalid)
        },
        _ => Err(ParseError::Invalid),
    }
}

/// The bindings of a `let`, read left to right up to the first error.
pub open spec fn parse_binds_spec(bs: Seq<SExpV>) -> Result<Seq<(Seq<char>, ExprV)>, ParseError>
    decreases bs, 0int,
{
    if bs.len() == 0 {
        Ok(Seq::empty())
    } else {
        match parse_binds_spec(bs.drop_last()) {
            Ok(prefix) => match parse_bind_spec(bs.last()) {
                Ok(b) => Ok(prefix.push(b)),
                Err(k) => Err(k),
            },
            Err(k) => Err(k),
        }
    }
}

/// The expressions of a `block`, read left to right up to the first error.
pub open spec fn parse_seq_spec(es: Seq<SExpV>) -> Result<Seq<ExprV>, ParseError>
    decreases es, 0int,
{
    if es.len() == 0 {
        Ok(Seq::empty())
    } else {
        match parse_seq_spec(es.drop_last()) {
            Ok(prefix) => match parse_spec(es.last()) {
                Ok(e) => Ok(prefix.push(e)),
                Err(k) => Err(k),
            },
            Err(k) => Err(k),
        }
    }
}


/// A successful reading of a list of bindings reads each prefix and each
/// binding successfully.
proof fn lemma_binds_prefix(bs: Seq<SExpV>, i: int)
    requires
        0 <= i < bs.len(),
        parse_binds_spec(bs) is Ok,
    ensures
        parse_binds_spec(bs.take(i)) is Ok,
        parse_bind_spec(bs[i]) is Ok,
    decreases bs.len(),
{
    if i < bs.len() - 1 {
        assert(bs.drop_last().take(i) =~= bs.take(i));
        assert(bs.drop_last()[i] == bs[i]);
        lemma_binds_prefix(bs.drop_last(), i);
    } else {
        assert(bs.drop_last() =~= bs.take(i));
    }
}

proof fn lemma_seq_prefix(es: Seq<SExpV>, i: int)
    requires
        0 <= i < es.len(),
        parse_seq_spec(es) is Ok,
    ensures
        parse_seq_spec(es.take(i)) is Ok,
        parse_spec(es[i]) is Ok,
    decreases es.len(),
{
    if i < es.len() - 1 {
        assert(es.drop_last().take(i) =~= es.take(i));
        assert(es.drop_last()[i] == es[i]);
        lemma_seq_prefix(es.drop_last(), i);
    } else {
        assert(es.drop_last() =~= es.take(i));
    }
}

/// Whether `word` is one of Cobra's reserved words.
pub fn is_reserved(word: &str) -> (r: bool)
    ensures
        r == reserved(word@),
{
    str_eq(word, "let") || str_eq(word, "add1") || str_eq(word, "sub1") || str_eq(word, "negate")
        || str_eq(word, "input") || str_eq(word, "true") || str_eq(word, "false") || str_eq(
        word,
        "if",
    ) || str_eq(word, "block") || str_eq(word, "loop") || str_eq(word, "break") || str_eq(
        word,
        "set!",
    ) || str_eq(word, "isnum") || str_eq(word, "isbool")
}

fn unop_of(w: &str) -> (r: Option<UnOp>)
    ensures
        r == unop_named(w@),
{
    if str_eq(w, "add1") {
        Some(UnOp::Add1)
    } else if str_eq(w, "sub1") {
        Some(UnOp::Sub1)
    } else if str_eq(w, "negate") {
        Some(UnOp::Negate)
    } else if str_eq(w, "isnum") {
        Some(UnOp::IsNum)
    } else if str_eq(w, "isbool") {
        Some(UnOp::IsBool)
    } else {
        None
    }
}

fn binop_of(w: &str) -> (r: Option<BinOp>)
    ensures
        r == binop_named(w@),
{
    if str_eq(w, "+") {
        Some(BinOp::Plus)
    } else if str_eq(w, "-") {
        Some(BinOp::Minus)
    } else if str_eq(w, "*") {
        Some(BinOp::Times)
    } else if str_eq(w, "<") {
        Some(BinOp::Less)
    } else if str_eq(w, ">") {
        Some(BinOp::Greater)
    } else if str_eq(w, "<=") {
        Some(BinOp::LessEqual)
    } else if str_eq(w, ">=") {
        Some(BinOp::GreaterEqual)
    } else if str_eq(w, "=") {
        Some(BinOp::Equal)
    } else {
        None
    }
}

/// Reads one binding `(name expr)` of a `let`.
pub fn parse_bind(s: &SExp) -> (r: (String, Expr))
    requires
        parse_bind_spec(s@) is Ok,
    ensures
        parse_bind_spec(s@) matches Ok(b) && b == (r.0@, r.1@),
    decreases s,
{
    match s {
        SExp::List(v) => {
            proof { lemma_sexp_views(v@); }
            match &v[0] {
                SExp::Str(name) => {
                    let e = parse_expr(&v[1]);
                    (name.clone(), e)
                },
                _ => {
                    proof { assert(false); }
                    (String::new(), Expr::Input)
                },
            }
        },
        _ => {
            proof { assert(false); }
            (String::new(), Expr::Input)
        },
    }
}

/// Reads a Cobra expression from a tree.
pub fn parse_expr(s: &SExp) -> (e: Expr)
    requires
        parse_spec(s@) is Ok,
    ensures
        parse_spec(s@) matches Ok(x) && x == e@,
    decreases s,
{
    match s {
        SExp::Int(n) => Expr::Number(*n as i32),
        SExp::Float => {
            proof { assert(false); }
            Expr::Input
        },
        SExp::Str(name) => {
            if str_eq(name.as_str(), "true") {
                Expr::Bool(true)
            } else if str_eq(name.as_str(), "false") {
                Expr::Bool(false)
            } else if str_eq(name.as_str(), "input") {
                Expr::Input
            } else {
                Expr::Id(name.clone())
            }
        },
        SExp::List(v) => parse_list(v),
    }
}

fn parse_list(v: &Vec<SExp>) -> (e: Expr)
    requires
        parse_spec(SExpV::List(sexp_views(v@))) is Ok,
    ensures
        parse_spec(SExpV::List(sexp_views(v@))) matches Ok(x) && x == e@,
    decreases v,
{
    proof { lemma_sexp_views(v@); }
    let ghost vs = sexp_views(v@);
    let op: &String = match &v[0] {
        SExp::Str(op) => op,
        _ => {
            proof { assert(false); }
            return Expr::Input;
        },
    };
    let n = v.len();
    if n == 2 {
        if let Some(u) = unop_of(op.as_str()) {
            let a = parse_expr(&v[1]);
            return Expr::UnOp(u, Box::new(a));
        }
    }
    if n == 3 {
        if let Some(b) = binop_of(op.as_str()) {
            let a = parse_expr(&v[1]);
            let c = parse_expr(&v[2]);
            return Expr::BinOp(b, Box::new(a), Box::new(c));
        }
    }
    if n == 3 && str_eq(op.as_str(), "let") && matches!(&v[1], SExp::List(_)) {
        let bs: &Vec<SExp> = match &v[1] {
            SExp::List(bs) => bs,
            _ => {
                proof { assert(false); }
                return Expr::Input;
            },
        };
        proof { lemma_sexp_views(bs@); }
        let ghost bvs = sexp_views(bs@);
        let mut parsed: Vec<(String, Expr)> = Vec::new();
        let mut i: usize = 0;
        while i < bs.len()
            invariant
                i <= bs.len(),
                bvs == sexp_views(bs@),
                bvs.len() == bs.len(),
                v.len() == 3,
                v@[1] == SExp::List(*bs),
                forall|j: int| 0 <= j < bs.len() ==> #[trigger] bvs[j] == sexp_view(bs@[j]),
                parse_binds_spec(bvs) is Ok,
                parse_binds_spec(bvs.take(i as int)) matches Ok(p) && p == binds_view(parsed@),
            decreases bs.len() - i,
        {
            proof {
                lemma_binds_prefix(bvs, i as int);
                assert(decreases_to!(*v => v@[1]));
                assert(decreases_to!(v@[1] => v@[1]->List_0));
                assert(decreases_to!(*bs => bs@[i as int]));
            }
            let b = parse_bind(&bs[i]);
            let ghost before = parsed@;
            parsed.push(b);
            proof {
                assert(parsed@.drop_last() =~= before);
                assert(bvs.take(i + 1).drop_last() =~= bvs.take(i as int));
            }
            i = i + 1;
        }
        proof { assert(bvs.take(i as int) =~= bvs); }
        let body = parse_expr(&v[2]);
        return Expr::Let(parsed, Box::new(body));
    }
    if n == 4 && str_eq(op.as_str(), "if") {
        let c = parse_expr(&v[1]);
        let t = parse_expr(&v[2]);
        let f = parse_expr(&v[3]);
        return Expr::If(Box::new(c), Box::new(t), Box::new(f));
    }
    if n == 2 && str_eq(op.as_str(), "loop") {
        let a = parse_expr(&v[1]);
        return Expr::Loop(Box::new(a));
    }
    if n == 2 && str_eq(op.as_str(), "break") {
        let a = parse_expr(&v[1]);
        return Expr::Break(Box::new(a));
    }
    if n == 3 && str_eq(op.as_str(), "set!") && matches!(&v[1], SExp::Str(_)) {
        let name: &String = match &v[1] {
            SExp::Str(name) => name,
            _ => {
                proof { assert(false); }
                return Expr::Input;
            },
        };
        let a = parse_expr(&v[2]);
        return Expr::SetVar(name.clone(), Box::new(a));
    }
    // the remaining form: (block e1 e2 ...)
    let ghost rest = vs.skip(1);
    let mut parsed: Vec<Expr> = Vec::new();
    let mut i: usize = 1;
    while i < n
        invariant
            1 <= i <= n,
            n == v.len(),
            vs == sexp_views(v@),
            vs.len() == n,
            rest == vs.skip(1),
            forall|j: int| 0 <= j < n ==> #[trigger] vs[j] == sexp_view(v@[j]),
            parse_seq_spec(rest) is Ok,
            parse_seq_spec(rest.take(i - 1)) matches Ok(p) && p == exprs_view(parsed@),
        decreases n - i,
    {
        proof {
            lemma_seq_prefix(rest, i - 1);
            assert(rest[i - 1] == vs[i as int]);
        }
        let e = parse_expr(&v[i]);
        let ghost before = parsed@;
        parsed.push(e);
        proof {
            assert(parsed@.drop_last() =~= before);
            assert(rest.take(i as int).drop_last() =~= rest.take(i - 1));
        }
        i = i + 1;
    }
    proof { assert(rest.take(i - 1) =~= rest); }
    Expr::Block(parsed)
}


/// An error in a prefix of a list of bindings is the error of the whole list.
proof fn lemma_binds_err_prefix(bs: Seq<SExpV>, i: int)
    requires
        0 <= i <= bs.len(),
        parse_binds_spec(bs.take(i)) is Err,
    ensures
        parse_binds_spec(bs) == parse_binds_spec(bs.take(i)),
    decreases bs.len(),
{
    if i < bs.len() {
        assert(bs.drop_last().take(i) =~= bs.take(i));
        lemma_binds_err_prefix(bs.drop_last(), i);
    } else {
        assert(bs.take(i) =~= bs);
    }
}

proof fn lemma_seq_err_prefix(es: Seq<SExpV>, i: int)
    requires
        0 <= i <= es.len(),
        parse_seq_spec(es.take(i)) is Err,
    ensures
        parse_seq_spec(es) == parse_seq_spec(es.take(i)),
    decreases es.len(),
{
    if i < es.len() {
        assert(es.drop_last().take(i) =~= es.take(i));
        lemma_seq_err_prefix(es.drop_last(), i);
    } else {
        assert(es.take(i) =~= es);
    }
}

/// Finds the first reason, depth first and left to right, why a tree is not
/// a Cobra expression: the point where [`parse_expr`] would stop.
pub fn check_syntax(s: &SExp) -> (r: Result<(), ParseError>)
    ensures
        r is Ok <==> parse_spec(s@) is Ok,
        r is Err ==> r->Err_0 == parse_spec(s@)->Err_0,
    decreases s,
{
    match s {
        SExp::Int(n) => if i32::MIN as i64 <= *n && *n <= i32::MAX as i64 {
            Ok(())
        } else {
            Err(ParseError::IntOutOfRange)
        },
        SExp::Float => Err(ParseError::Invalid),
        SExp::Str(name) => {
            if str_eq(name.as_str(), "true") || str_eq(name.as_str(), "false") || str_eq(
                name.as_str(),
                "input",
            ) {
                Ok(())
            } else if is_reserved(name.as_str()) {
                Err(ParseError::Invalid)
            } else {
                Ok(())
            }
        },
        SExp::List(v) => check_list(v),
    }
}

fn check_bind(s: &SExp) -> (r: Result<(), ParseError>)
    ensures
        r is Ok <==> parse_bind_spec(s@) is Ok,
        r is Err ==> r->Err_0 == parse_bind_spec(s@)->Err_0,
    decreases s,
{
    match s {
        SExp::List(v) => {
            proof { lemma_sexp_views(v@); }
            if v.len() != 2 {
                return Err(ParseError::Invalid);
            }
            match &v[0] {
                SExp::Str(name) => {
                    if is_reserved(name.as_str()) {
                        Err(ParseError::Invalid)
                    } else {
                        check_syntax(&v[1])
                    }
                },
                _ => Err(ParseError::Invalid),
            }
        },
        _ => Err(ParseError::Invalid),
    }
}

fn check_list(v: &Vec<SExp>) -> (r: Result<(), ParseError>)
    ensures
        r is Ok <==> parse_spec(SExpV::List(sexp_views(v@))) is Ok,
        r is Err ==> r->Err_0 == parse_spec(SExpV::List(sexp_views(v@)))->Err_0,
    decreases v,
{
    proof { lemma_sexp_views(v@); }
    let ghost vs = sexp_views(v@);
    let n = v.len();
    if n == 0 {
        return Err(ParseError::Invalid);
    }
    let op: &String = match &v[0] {
        SExp::Str(op) => op,
        _ => {
            return Err(ParseError::Invalid);
        },
    };
    if n == 2 {
        if let Some(_u) = unop_of(op.as_str()) {
            return check_syntax(&v[1]);
        }
    }
    if n == 3 {
        if let Some(_b) = binop_of(op.as_str()) {
            let a = check_syntax(&v[1]);
            if a.is_err() {
                return a;
            }
            return check_syntax(&v[2]);
        }
    }
    if n == 3 && str_eq(op.as_str(), "let") && matches!(&v[1], SExp::List(_)) {
        let bs: &Vec<SExp> = match &v[1] {
            SExp::List(bs) => bs,
            _ => {
                proof { assert(false); }
                return Err(ParseError::Invalid);
            },
        };
        if bs.len() == 0 {
            return Err(ParseError::Invalid);
        }
        proof { lemma_sexp_views(bs@); }
        let ghost bvs = sexp_views(bs@);
        let mut i: usize = 0;
        #[verifier::loop_isolation(false)]
        while i < bs.len()
            invariant
                i <= bs.len(),
                bvs == sexp_views(bs@),
                bvs.len() == bs.len(),
                v.len() == 3,
                v@[1] == SExp::List(*bs),
                forall|j: int| 0 <= j < bs.len() ==> #[trigger] bvs[j] == sexp_view(bs@[j]),
                parse_binds_spec(bvs.take(i as int)) is Ok,
            decreases bs.len() - i,
        {
            proof {
                assert(decreases_to!(*v => v@[1]));
                assert(decreases_to!(v@[1] => v@[1]->List_0));
                assert(decreases_to!(*bs => bs@[i as int]));
                assert(bvs.take(i + 1).drop_last() =~= bvs.take(i as int));
                assert(bvs.take(i + 1).last() == bvs[i as int]);
            }
            let b = check_bind(&bs[i]);
            if b.is_err() {
                proof { lemma_binds_err_prefix(bvs, i + 1); }
                return b;
            }
            i = i + 1;
        }
        proof { assert(bvs.take(i as int) =~= bvs); }
        return check_syntax(&v[2]);
    }
    if n == 4 && str_eq(op.as_str(), "if") {
        let a = check_syntax(&v[1]);
        if a.is_err() {
            return a;
        }
        let b = check_syntax(&v[2]);
        if b.is_err() {
            return b;
        }
        return check_syntax(&v[3]);
    }
    if n == 2 && (str_eq(op.as_str(), "loop") || str_eq(op.as_str(), "break")) {
        return check_syntax(&v[1]);
    }
    if n == 3 && str_eq(op.as_str(), "set!") && matches!(&v[1], SExp::Str(_)) {
        let name: &String = match &v[1] {
            SExp::Str(name) => name,
            _ => {
                proof { assert(false); }
                return Err(ParseError::Invalid);
            },
        };
        if is_reserved(name.as_str()) {
            return Err(ParseError::Invalid);
        }
        return check_syntax(&v[2]);
    }
    if !str_eq(op.as_str(), "block") || n == 1 {
        return Err(ParseError::Invalid);
    }
    let ghost rest = vs.skip(1);
    let mut i: usize = 1;
    #[verifier::loop_isolation(false)]
    while i < n
        invariant
            1 <= i <= n,
            n == v.len(),
            vs == sexp_views(v@),
            vs.len() == n,
            rest == vs.skip(1),
            forall|j: int| 0 <= j < n ==> #[trigger] vs[j] == sexp_view(v@[j]),
            parse_seq_spec(rest.take(i - 1)) is Ok,
        decreases n - i,
    {
        proof {
            assert(rest[i - 1] == vs[i as int]);
            assert(rest.take(i as int).drop_last() =~= rest.take(i - 1));
            assert(rest.take(i as int).last() == rest[i - 1]);
        }
        let e = check_syntax(&v[i]);
        if e.is_err() {
            proof { lemma_seq_err_prefix(rest, i as int); }
            return e;
        }
        i = i + 1;
    }
    proof { assert(rest.take(i - 1) =~= rest); }
    Ok(())
}

} // verus!
