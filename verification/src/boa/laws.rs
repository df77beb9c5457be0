//! Properties of Boa's parser as a whole.

use vstd::prelude::*;
use crate::sexpr::SExpV;
use crate::boa::ast::ExprV;
use crate::boa::parse::{reserved, parse_spec, parse_bind_spec, parse_binds_spec};

verus! {

/// Whether no variable that an expression reads or binds is named by a
/// reserved word.
pub open spec fn names_unreserved(e: ExprV) -> bool
    decreases e, 0int,
{
    match e {
        ExprV::Number(_) => true,
        ExprV::Id(x) => !reserved(x),
        ExprV::Let(bs, body) => binds_unreserved(bs, bs.len() as int) && names_unreserved(*body),
        ExprV::UnOp(_, a) => names_unreserved(*a),
        ExprV::BinOp(_, l, r) => names_unreserved(*l) && names_unreserved(*r),
    }
}

/// Whether no name that the first `i` bindings bind or read is reserved.
pub open spec fn binds_unreserved(bs: Seq<(Seq<char>, ExprV)>, i: int) -> bool
    decreases bs, i,
{
    if i <= 0 || i > bs.len() {
        true
    } else {
        binds_unreserved(bs, i - 1) && !reserved(bs[i - 1].0) && names_unreserved(bs[i - 1].1)
    }
}

/// A reserved word never becomes a variable: every expression that the
/// parser accepts reads and binds only unreserved names.
pub proof fn law_parse_names_unreserved(s: SExpV)
    requires
        parse_spec(s) is Ok,
    ensures
        names_unreserved(parse_spec(s)->Ok_0),
    decreases s, 0int,
{
    match s {
        SExpV::List(v) => {
            if v.len() >= 2 {
                assert(decreases_to!(s => v));
                if parse_spec(v[1]) is Ok {
                    law_parse_names_unreserved(v[1]);
                }
                if v.len() >= 3 && parse_spec(v[2]) is Ok {
                    law_parse_names_unreserved(v[2]);
                }
                if v[1] is List {
                    let bs = v[1]->List_0;
                    assert(decreases_to!(v[1] => bs));
                    if parse_binds_spec(bs) is Ok {
                        lemma_binds_unreserved(bs);
                    }
                }
            }
        },
        _ => {},
    }
}

proof fn lemma_binds_unreserved(bs: Seq<SExpV>)
    requires
        parse_binds_spec(bs) is Ok,
    ensures
        binds_unreserved(parse_binds_spec(bs)->Ok_0, bs.len() as int),
        parse_binds_spec(bs)->Ok_0.len() == bs.len(),
    decreases bs, 0int,
{
    if bs.len() > 0 {
        lemma_binds_unreserved(bs.drop_last());
        let prefix = parse_binds_spec(bs.drop_last())->Ok_0;
        let b = bs.last();
        let whole = parse_binds_spec(bs)->Ok_0;
        assert(whole == prefix.push(parse_bind_spec(b)->Ok_0));
        match b {
            SExpV::List(v) => {
                if v.len() == 2 {
                    law_parse_names_unreserved(v[1]);
                }
            },
            _ => {},
        }
        lemma_binds_unreserved_same(prefix, whole, prefix.len() as int);
    }
}

proof fn lemma_binds_unreserved_same(a: Seq<(Seq<char>, ExprV)>, b: Seq<(Seq<char>, ExprV)>, i: int)
    requires
        0 <= i <= a.len(),
        i <= b.len(),
        forall|k: int| 0 <= k < i ==> b[k] == a[k],
    ensures
        binds_unreserved(a, i) == binds_unreserved(b, i),
    decreases i,
{
    if i > 0 {
        lemma_binds_unreserved_same(a, b, i - 1);
    }
}

} // verus!
