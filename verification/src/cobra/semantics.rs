//! What a Cobra expression means: its value, the `break` that leaves a loop,
//! or the run-time error that stops the program.

use vstd::prelude::*;
use crate::cobra::ast::{UnOp, BinOp, ExprV};
use crate::cobra::compile::{tag_number, tag_bool};
use crate::text::decimal;

verus! {

/// A Cobra value: a number or a boolean.
pub enum Value {
    Num(int),
    Bool(bool),
}

/// How a value is held at run time: a number shifted left by one bit, a
/// boolean as `true` or `false`'s odd constant.
pub open spec fn rep(v: Value) -> int {
    match v {
        Value::Num(n) => tag_number(n),
        Value::Bool(b) => tag_bool(b),
    }
}

/// How the runtime prints a value: a number in decimal, a boolean as `true`
/// or `false`.
pub open spec fn shown(v: Value) -> Seq<char> {
    match v {
        Value::Num(n) => decimal(n),
        Value::Bool(b) => if b { "true"@ } else { "false"@ },
    }
}

/// Whether a number can be held at run time: its shifted value fits in 64
/// bits.
pub open spec fn fits(n: int) -> bool {
    -0x4000_0000_0000_0000 <= n < 0x4000_0000_0000_0000
}

/// The run-time error code of an operation on an argument of the wrong kind.
pub open spec fn invalid_argument() -> int {
    1
}

/// The run-time error code of an arithmetic result that does not fit.
pub open spec fn overflow() -> int {
    2
}

/// How evaluating an expression ends.
pub enum Outcome {
    /// With a value.
    Done(Value),
    /// By a `break` with a value, which leaves the innermost loop.
    Broke(Value),
    /// With a run-time error, by its code.
    Fault(int),
}

/// The variables in scope, oldest first: a name may occur more than once, and
/// its last occurrence is the one in scope.
pub type Stack = Seq<(Seq<char>, Value)>;

/// The index of the last occurrence of `x` in `st`, or -1 where there is none.
pub open spec fn last_idx(st: Stack, x: Seq<char>) -> int
    decreases st.len(),
{
    if st.len() == 0 {
        -1
    } else if st.last().0 == x {
        st.len() - 1
    } else {
        last_idx(st.drop_last(), x)
    }
}

/// The value of variable `x`.
pub open spec fn lookup(st: Stack, x: Seq<char>) -> Value {
    st[last_idx(st, x)].1
}

/// The variables after `x` is given the value `v`.
pub open spec fn assign(st: Stack, x: Seq<char>, v: Value) -> Stack {
    st.update(last_idx(st, x), (x, v))
}

/// A number result, or an overflow where it does not fit.
pub open spec fn number_result(n: int) -> Outcome {
    if fits(n) {
        Outcome::Done(Value::Num(n))
    } else {
        Outcome::Fault(overflow())
    }
}

/// What a unary operator makes of its argument's value.
pub open spec fn unop_value(op: UnOp, v: Value) -> Outcome {
    match op {
        UnOp::IsNum => Outcome::Done(Value::Bool(v is Num)),
        UnOp::IsBool => Outcome::Done(Value::Bool(v is Bool)),
        _ => match v {
            Value::Num(n) => match op {
                UnOp::Add1 => number_result(n + 1),
                UnOp::Sub1 => number_result(n - 1),
                _ => number_result(-n),
            },
            Value::Bool(_) => Outcome::Fault(invalid_argument()),
        },
    }
}

/// What a binary operator makes of its operands' values: arithmetic and
/// ordering take two numbers, `=` two values of one kind.
pub open spec fn binop_value(op: BinOp, l: Value, r: Value) -> Outcome {
    match op {
        BinOp::Equal => if (l is Num) == (r is Num) {
            Outcome::Done(Value::Bool(l == r))
        } else {
            Outcome::Fault(invalid_argument())
        },
        _ => match (l, r) {
            (Value::Num(a), Value::Num(b)) => match op {
                BinOp::Plus => number_result(a + b),
                BinOp::Minus => number_result(a - b),
                BinOp::Times => number_result(a * b),
                BinOp::Less => Outcome::Done(Value::Bool(a < b)),
                BinOp::Greater => Outcome::Done(Value::Bool(a > b)),
                BinOp::LessEqual => Outcome::Done(Value::Bool(a <= b)),
                _ => Outcome::Done(Value::Bool(a >= b)),
            },
            _ => Outcome::Fault(invalid_argument()),
        },
    }
}

/// Evaluates `e` with the variables `st` and the input `inp`, running loops
/// for at most `fuel` rounds in a row: the outcome and the variables after it,
/// or `None` where the fuel runs out (or a block is empty, which has no value).
/// Operands are evaluated left to right; a `let` binds its names one after
/// the other, each binding seeing those before it, and they leave scope with
/// it.
pub open spec fn eval(e: ExprV, st: Stack, inp: Value, fuel: nat) -> Option<(Outcome, Stack)>
    decreases fuel, e, 0int,
{
    match e {
        ExprV::Number(n) => Some((Outcome::Done(Value::Num(n as int)), st)),
        ExprV::Bool(b) => Some((Outcome::Done(Value::Bool(b)), st)),
        ExprV::Input => Some((Outcome::Done(inp), st)),
        ExprV::Id(x) => Some((Outcome::Done(lookup(st, x)), st)),
        ExprV::UnOp(op, a) => match eval(*a, st, inp, fuel) {
            Some((Outcome::Done(v), st1)) => Some((unop_value(op, v), st1)),
            other => other,
        },
        ExprV::BinOp(op, l, r) => match eval(*l, st, inp, fuel) {
            Some((Outcome::Done(v1), st1)) => match eval(*r, st1, inp, fuel) {
                Some((Outcome::Done(v2), st2)) => Some((binop_value(op, v1, v2), st2)),
                other => other,
            },
            other => other,
        },
        ExprV::Let(bs, body) => match eval_binds(bs, bs.len() as int, st, inp, fuel) {
            Some((Outcome::Done(_), st1)) => match eval(*body, st1, inp, fuel) {
                Some((o, st2)) => Some((o, st2.take(st.len() as int))),
                None => None,
            },
            Some((o, st1)) => Some((o, st1.take(st.len() as int))),
            None => None,
        },
        ExprV::If(c, t, f) => match eval(*c, st, inp, fuel) {
            Some((Outcome::Done(v), st1)) => if v == Value::Bool(false) {
                eval(*f, st1, inp, fuel)
            } else {
                eval(*t, st1, inp, fuel)
            },
            other => other,
        },
        ExprV::Block(es) => eval_block(es, es.len() as int, st, inp, fuel),
        ExprV::Loop(body) => if fuel == 0 {
            None
        } else {
            match eval(*body, st, inp, (fuel - 1) as nat) {
                Some((Outcome::Done(_), st1)) => eval(e, st1, inp, (fuel - 1) as nat),
                Some((Outcome::Broke(v), st1)) => Some((Outcome::Done(v), st1)),
                other => other,
            }
        },
        ExprV::Break(a) => match eval(*a, st, inp, fuel) {
            Some((Outcome::Done(v), st1)) => Some((Outcome::Broke(v), st1)),
            other => other,
        },
        ExprV::SetVar(x, a) => match eval(*a, st, inp, fuel) {
            Some((Outcome::Done(v), st1)) => Some((Outcome::Done(v), assign(st1, x, v))),
            other => other,
        },
    }
}

/// Evaluates the first `i` bindings of a `let`, each pushing its name and
/// value: `Done` once all of them are bound (with the last value bound, or
/// `false` where there is none), or how the first that does not finish ends.
pub open spec fn eval_binds(bs: Seq<(Seq<char>, ExprV)>, i: int, st: Stack, inp: Value, fuel: nat) -> Option<(Outcome, Stack)>
    decreases fuel, bs, i,
{
    if i <= 0 || i > bs.len() {
        Some((Outcome::Done(Value::Bool(false)), st))
    } else {
        match eval_binds(bs, i - 1, st, inp, fuel) {
            Some((Outcome::Done(_), st1)) => match eval(bs[i - 1].1, st1, inp, fuel) {
                Some((Outcome::Done(v), st2)) => Some((Outcome::Done(v), st2.push((bs[i - 1].0, v)))),
                other => other,
            },
            other => other,
        }
    }
}

/// Evaluates the first `i` expressions of a block in order: the outcome of
/// the last, or of the first that does not finish with a value.
pub open spec fn eval_block(es: Seq<ExprV>, i: int, st: Stack, inp: Value, fuel: nat) -> Option<(Outcome, Stack)>
    decreases fuel, es, i,
{
    if i <= 0 || i > es.len() {
        None
    } else if i == 1 {
        eval(es[0], st, inp, fuel)
    } else {
        match eval_block(es, i - 1, st, inp, fuel) {
            Some((Outcome::Done(_), st1)) => eval(es[i - 1], st1, inp, fuel),
            other => other,
        }
    }
}

/// Whether an evaluation that stops with a run-time error stops with one of
/// the two error codes.
pub open spec fn faults_known(r: Option<(Outcome, Stack)>) -> bool {
    r matches Some((Outcome::Fault(k), _)) ==> k == invalid_argument() || k == overflow()
}

/// Every run-time error is an invalid argument or an overflow.
pub proof fn law_fault_codes(e: ExprV, st: Stack, inp: Value, fuel: nat)
    ensures
        faults_known(eval(e, st, inp, fuel)),
    decreases fuel, e, 0int,
{
    match e {
        ExprV::UnOp(_, a) => law_fault_codes(*a, st, inp, fuel),
        ExprV::BinOp(_, l, r) => {
            law_fault_codes(*l, st, inp, fuel);
            if let Some((Outcome::Done(_), st1)) = eval(*l, st, inp, fuel) {
                law_fault_codes(*r, st1, inp, fuel);
            }
        },
        ExprV::Let(bs, body) => {
            lemma_binds_fault_codes(bs, bs.len() as int, st, inp, fuel);
            if let Some((Outcome::Done(_), st1)) = eval_binds(bs, bs.len() as int, st, inp, fuel) {
                law_fault_codes(*body, st1, inp, fuel);
            }
        },
        ExprV::If(c, t, f) => {
            law_fault_codes(*c, st, inp, fuel);
            if let Some((Outcome::Done(_), st1)) = eval(*c, st, inp, fuel) {
                law_fault_codes(*t, st1, inp, fuel);
                law_fault_codes(*f, st1, inp, fuel);
            }
        },
        ExprV::Block(es) => lemma_block_fault_codes(es, es.len() as int, st, inp, fuel),
        ExprV::Loop(body) => {
            if fuel > 0 {
                law_fault_codes(*body, st, inp, (fuel - 1) as nat);
                if let Some((Outcome::Done(_), st1)) = eval(*body, st, inp, (fuel - 1) as nat) {
                    law_fault_codes(e, st1, inp, (fuel - 1) as nat);
                }
            }
        },
        ExprV::Break(a) => law_fault_codes(*a, st, inp, fuel),
        ExprV::SetVar(_, a) => law_fault_codes(*a, st, inp, fuel),
        _ => {},
    }
}

proof fn lemma_binds_fault_codes(bs: Seq<(Seq<char>, ExprV)>, i: int, st: Stack, inp: Value, fuel: nat)
    ensures
        faults_known(eval_binds(bs, i, st, inp, fuel)),
    decreases fuel, bs, i,
{
    if 0 < i <= bs.len() {
        lemma_binds_fault_codes(bs, i - 1, st, inp, fuel);
        if let Some((Outcome::Done(_), st1)) = eval_binds(bs, i - 1, st, inp, fuel) {
            law_fault_codes(bs[i - 1].1, st1, inp, fuel);
        }
    }
}

proof fn lemma_block_fault_codes(es: Seq<ExprV>, i: int, st: Stack, inp: Value, fuel: nat)
    ensures
        faults_known(eval_block(es, i, st, inp, fuel)),
    decreases fuel, es, i,
{
    if i == 1 && es.len() >= 1 {
        law_fault_codes(es[0], st, inp, fuel);
    } else if 1 < i <= es.len() {
        lemma_block_fault_codes(es, i - 1, st, inp, fuel);
        if let Some((Outcome::Done(_), st1)) = eval_block(es, i - 1, st, inp, fuel) {
            law_fault_codes(es[i - 1], st1, inp, fuel);
        }
    }
}

} // verus!
