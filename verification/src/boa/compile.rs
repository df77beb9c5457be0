//! Boa's code generator: from [`Expr`] to x86-64 assembly text. Numbers are
//! held untagged; variables and saved operands live below `rsp`.

use vstd::prelude::*;
use vstd::string::*;
use crate::text::{decimal, push_decimal};
use crate::errors::{ScopeFault, CompileError, fault_view};
use crate::env::{env_slots, env_get, env_insert, env_clone};
use crate::cobra::compile::{slot_offset, SI_MIN, SI_MAX};
use crate::boa::ast::{Op1, Op2, Expr, ExprV, expr_view, binds_view, lemma_binds_view};

verus! {

/// The memory operand of stack offset `off`.
pub open spec fn slot_text(off: int) -> Seq<char> {
    "[rsp - "@ + decimal(off) + "]"@
}

/// The code of a binary operator: the left operand's code `lc`, its value
/// saved at offset `off`, the right operand's code `rc`, then the operation.
pub open spec fn op2_text(op: Op2, lc: Seq<char>, rc: Seq<char>, off: int) -> Seq<char> {
    let head = lc + "\nmov "@ + slot_text(off) + ", rax\n"@ + rc;
    match op {
        Op2::Plus => head + "\nadd rax, "@ + slot_text(off),
        Op2::Minus => head + "\nmov rbx, "@ + slot_text(off) + "\nsub rbx, rax\nmov rax, rbx"@,
        Op2::Times => head + "\nimul rax, "@ + slot_text(off),
    }
}

/// What the code generator has made after the first bindings of a `let`.
pub struct LetState {
    pub code: Seq<char>,
    pub env: Map<Seq<char>, i32>,
    pub si: int,
}

/// The code of an expression at stack index `si` in environment `env`.
pub open spec fn compile_spec(e: ExprV, si: int, env: Map<Seq<char>, i32>) -> Seq<char>
    decreases e, 0int,
{
    match e {
        ExprV::Number(n) => "mov rax, "@ + decimal(n as int),
        ExprV::Id(x) => "mov rax, "@ + slot_text(env[x] as int),
        ExprV::UnOp(op, a) => compile_spec(*a, si, env) + match op {
            Op1::Add1 => "\nadd rax, 1"@,
            Op1::Sub1 => "\nsub rax, 1"@,
        },
        ExprV::BinOp(op, l, r) => op2_text(
            op,
            compile_spec(*l, si, env),
            compile_spec(*r, si + 1, env),
            slot_offset(si),
        ),
        ExprV::Let(bs, body) => {
            let st = let_spec(bs, bs.len() as int, si, env);
            let bc = compile_spec(*body, st.si, st.env);
            if bs.len() == 0 { bc } else { st.code + "\n"@ + bc }
        },
    }
}

/// The first `i` bindings of a `let`: each is compiled in the environment
/// that binds the ones before it, and its value stored in the next slot.
pub open spec fn let_spec(bs: Seq<(Seq<char>, ExprV)>, i: int, si: int, env: Map<Seq<char>, i32>) -> LetState
    decreases bs, i,
{
    if i <= 0 || i > bs.len() {
        LetState { code: Seq::empty(), env: env, si: si }
    } else {
        let prev = let_spec(bs, i - 1, si, env);
        let ec = compile_spec(bs[i - 1].1, prev.si, prev.env);
        let off = slot_offset(prev.si);
        LetState {
            code: (if i == 1 { Seq::empty() } else { prev.code + "\n"@ }) + ec + "\nmov "@
                + slot_text(off) + ", rax"@,
            env: prev.env.insert(bs[i - 1].0, off as i32),
            si: prev.si + 1,
        }
    }
}

/// Whether every stack index that the code generator computes for an
/// expression at stack index `si`, and every byte offset that it computes
/// from one, fits in an `i32`.
pub open spec fn slots_fit(e: ExprV, si: int) -> bool
    decreases e, 0int,
{
    match e {
        ExprV::Number(_) | ExprV::Id(_) => true,
        ExprV::UnOp(_, a) => slots_fit(*a, si),
        ExprV::BinOp(_, l, r) => SI_MIN <= si <= SI_MAX && slots_fit(*l, si) && slots_fit(*r, si + 1),
        ExprV::Let(bs, body) => binds_fit(bs, bs.len() as int, si) && slots_fit(*body, si + bs.len()),
    }
}

/// Whether the first `i` bindings of a `let` at stack index `si` fit: binding
/// `k` is compiled at, and stored in, slot `si + k`.
pub open spec fn binds_fit(bs: Seq<(Seq<char>, ExprV)>, i: int, si: int) -> bool
    decreases bs, i,
{
    if i <= 0 || i > bs.len() {
        true
    } else {
        binds_fit(bs, i - 1, si) && SI_MIN <= si + i - 1 <= SI_MAX && slots_fit(bs[i - 1].1, si + i - 1)
    }
}

/// The names that a list of bindings binds.
pub open spec fn names_of(bs: Seq<(Seq<char>, ExprV)>) -> Set<Seq<char>> {
    Set::new(|x: Seq<char>| exists|k: int| #![trigger bs[k]] 0 <= k < bs.len() && bs[k].0 == x)
}

/// The first fault that the code generator meets in an expression, where the
/// names `bound` are in scope; `None` when there is none.
pub open spec fn scope_fault(e: ExprV, bound: Set<Seq<char>>) -> Option<ScopeFault>
    decreases e, 0int,
{
    match e {
        ExprV::Number(_) => None,
        ExprV::Id(x) => if bound.contains(x) { None } else { Some(ScopeFault::Unbound(x)) },
        ExprV::UnOp(_, a) => scope_fault(*a, bound),
        ExprV::BinOp(_, l, r) => {
            let f = scope_fault(*l, bound);
            if f is Some { f } else { scope_fault(*r, bound) }
        },
        ExprV::Let(bs, body) => {
            let f = binds_fault(bs, bs.len() as int, bound);
            if f is Some { f } else { scope_fault(*body, bound + names_of(bs)) }
        },
    }
}

/// The first fault in the first `i` bindings of a `let`.
pub open spec fn binds_fault(bs: Seq<(Seq<char>, ExprV)>, i: int, bound: Set<Seq<char>>) -> Option<ScopeFault>
    decreases bs, i,
{
    if i <= 0 || i > bs.len() {
        None
    } else {
        let f = binds_fault(bs, i - 1, bound);
        if f is Some {
            f
        } else if names_of(bs.take(i - 1)).contains(bs[i - 1].0) {
            Some(ScopeFault::DuplicateBinding)
        } else {
            scope_fault(bs[i - 1].1, bound + names_of(bs.take(i - 1)))
        }
    }
}

/// A longer prefix of a `let`'s bindings fits and is free of faults only
/// where the shorter one is.
pub proof fn lemma_binds_mono(bs: Seq<(Seq<char>, ExprV)>, i: int, j: int, si: int, bound: Set<Seq<char>>)
    requires
        0 <= i <= j <= bs.len(),
    ensures
        binds_fit(bs, j, si) ==> binds_fit(bs, i, si),
        binds_fault(bs, j, bound) is None ==> binds_fault(bs, i, bound) is None,
    decreases j,
{
    if i < j {
        lemma_binds_mono(bs, i, j - 1, si, bound);
    }
}

proof fn lemma_binds_fault_stays(bs: Seq<(Seq<char>, ExprV)>, i: int, j: int, bound: Set<Seq<char>>)
    requires
        0 <= i <= j <= bs.len(),
        binds_fault(bs, i, bound) is Some,
    ensures
        binds_fault(bs, j, bound) == binds_fault(bs, i, bound),
    decreases j,
{
    if i < j {
        lemma_binds_fault_stays(bs, i, j - 1, bound);
    }
}

/// One more binding adds its name to the names bound.
pub proof fn lemma_names_step(bs: Seq<(Seq<char>, ExprV)>, i: int)
    requires
        0 <= i < bs.len(),
    ensures
        names_of(bs.take(i + 1)) == names_of(bs.take(i)).insert(bs[i].0),
{
    assert(names_of(bs.take(i + 1)) =~= names_of(bs.take(i)).insert(bs[i].0)) by {
        assert forall|x: Seq<char>| names_of(bs.take(i + 1)).contains(x) implies names_of(bs.take(i)).insert(bs[i].0).contains(x) by {
            let k = choose|k: int| #![trigger bs.take(i + 1)[k]] 0 <= k < i + 1 && bs.take(i + 1)[k].0 == x;
            if k < i {
                assert(bs.take(i)[k].0 == x);
            }
        }
        assert forall|x: Seq<char>| names_of(bs.take(i)).insert(bs[i].0).contains(x) implies names_of(bs.take(i + 1)).contains(x) by {
            if x == bs[i].0 {
                assert(bs.take(i + 1)[i].0 == x);
            } else {
                let k = choose|k: int| #![trigger bs.take(i)[k]] 0 <= k < i && bs.take(i)[k].0 == x;
                assert(bs.take(i + 1)[k].0 == x);
            }
        }
    }
}

/// The byte offset below `rsp` of stack slot `si`.
pub fn stack_offset(si: i32) -> (off: i32)
    requires
        SI_MIN <= si <= SI_MAX,
    ensures
        off == slot_offset(si as int),
{
    si * 8
}

fn push_slot(out: &mut String, off: i32)
    ensures
        final(out)@ == old(out)@ + slot_text(off as int),
{
    out.append("[rsp - ");
    push_decimal(out, off as i64);
    out.append("]");
}

/// The code of an expression at stack index `si`, where `env` gives the
/// stack offsets of the variables in scope.
pub fn compile_to_instrs(e: &Expr, si: i32, env: &im::HashMap<String, i32>) -> (code: String)
    requires
        scope_fault(e@, env_slots(*env).dom()) is None,
        slots_fit(e@, si as int),
    ensures
        code@ == compile_spec(e@, si as int, env_slots(*env)),
    decreases e, 1int,
{
    match e {
        Expr::Number(n) => {
            let mut s = "mov rax, ".to_owned();
            push_decimal(&mut s, *n as i64);
            s
        },
        Expr::Id(name) => match env_get(env, name) {
            Some(offset) => {
                let mut s = "mov rax, ".to_owned();
                push_slot(&mut s, offset);
                s
            },
            None => {
                proof { assert(false); }
                String::new()
            },
        },
        Expr::UnOp(op, a) => {
            let mut s = compile_to_instrs(a, si, env);
            match op {
                Op1::Add1 => s.append("\nadd rax, 1"),
                Op1::Sub1 => s.append("\nsub rax, 1"),
            }
            s
        },
        Expr::BinOp(op, left, right) => {
            let left_code = compile_to_instrs(left, si, env);
            let right_code = compile_to_instrs(right, si + 1, env);
            let offset = stack_offset(si);
            let mut s = left_code;
            s.append("\nmov ");
            push_slot(&mut s, offset);
            s.append(", rax\n");
            s.append(right_code.as_str());
            match op {
                Op2::Plus => {
                    s.append("\nadd rax, ");
                    push_slot(&mut s, offset);
                },
                Op2::Minus => {
                    s.append("\nmov rbx, ");
                    push_slot(&mut s, offset);
                    s.append("\nsub rbx, rax\nmov rax, rbx");
                },
                Op2::Times => {
                    s.append("\nimul rax, ");
                    push_slot(&mut s, offset);
                },
            }
            s
        },
        Expr::Let(_, _) => compile_let(e, si, env),
    }
}

fn compile_let(e: &Expr, si: i32, env: &im::HashMap<String, i32>) -> (code: String)
    requires
        e is Let,
        scope_fault(e@, env_slots(*env).dom()) is None,
        slots_fit(e@, si as int),
    ensures
        code@ == compile_spec(e@, si as int, env_slots(*env)),
    decreases e, 0int,
{
    let (binds, body) = match e {
        Expr::Let(binds, body) => (binds, body),
        _ => {
            proof { assert(false); }
            return String::new();
        },
    };
    let ghost bvs = binds_view(binds@);
    let ghost bound = env_slots(*env).dom();
    proof {
        lemma_binds_view(binds@);
    }
    let n = binds.len();
    let mut instrs = String::new();
    let mut new_env = env_clone(env);
    let mut cur_si = si;
    let mut i: usize = 0;
    while i < n
        invariant
            n == binds.len(),
            bvs == binds_view(binds@),
            bvs.len() == n,
            forall|k: int| 0 <= k < n ==> #[trigger] bvs[k] == (binds@[k].0@, expr_view(binds@[k].1)),
            e@ == ExprV::Let(bvs, Box::new(body@)),
            *e == Expr::Let(*binds, *body),
            i <= n,
            cur_si == si + i,
            slots_fit(e@, si as int),
            bound == env_slots(*env).dom(),
            binds_fault(bvs, n as int, bound) is None,
            instrs@ == let_spec(bvs, i as int, si as int, env_slots(*env)).code,
            env_slots(new_env) == let_spec(bvs, i as int, si as int, env_slots(*env)).env,
            cur_si == let_spec(bvs, i as int, si as int, env_slots(*env)).si,
            env_slots(new_env).dom() == bound + names_of(bvs.take(i as int)),
        decreases n - i,
    {
        proof {
            lemma_binds_mono(bvs, i + 1, n as int, si as int, bound);
            assert(bvs.take(i + 1).take(i as int) =~= bvs.take(i as int));
            lemma_names_step(bvs, i as int);
            assert(decreases_to!(*e => e->Let_0));
            assert(decreases_to!(*binds => binds@[i as int]));
            assert(decreases_to!(binds@[i as int] => binds@[i as int].1));
        }
        let name = &binds[i].0;
        let ex = &binds[i].1;
        let expr_code = compile_to_instrs(ex, cur_si, &new_env);
        let offset = stack_offset(cur_si);
        if i > 0 {
            instrs.append("\n");
        }
        instrs.append(expr_code.as_str());
        instrs.append("\nmov ");
        push_slot(&mut instrs, offset);
        instrs.append(", rax");
        env_insert(&mut new_env, name.clone(), offset);
        cur_si += 1;
        i += 1;
    }
    proof {
        assert(bvs.take(n as int) =~= bvs);
    }
    let body_code = compile_to_instrs(body, cur_si, &new_env);
    if n == 0 {
        body_code
    } else {
        instrs.append("\n");
        instrs.append(body_code.as_str());
        instrs
    }
}

fn has_name(names: &Vec<String>, name: &String) -> (r: bool)
    ensures
        r == exists|k: int| 0 <= k < names.len() && (#[trigger] names@[k])@ == name@,
{
    let mut k: usize = 0;
    while k < names.len()
        invariant
            k <= names.len(),
            forall|j: int| 0 <= j < k ==> (#[trigger] names@[j])@ != name@,
        decreases names.len() - k,
    {
        if names[k] == *name {
            return true;
        }
        k += 1;
    }
    false
}

/// Finds the first reason, in the order in which [`compile_to_instrs`]
/// generates code, why it would stop on `e` in environment `env`.
pub fn check_scopes(e: &Expr, env: &im::HashMap<String, i32>) -> (r: Result<(), CompileError>)
    ensures
        r is Ok <==> scope_fault(e@, env_slots(*env).dom()) is None,
        r is Err ==> scope_fault(e@, env_slots(*env).dom()) == Some(fault_view(r->Err_0)),
    decreases e, 1int,
{
    match e {
        Expr::Number(_) => Ok(()),
        Expr::Id(name) => match env_get(env, name) {
            Some(_) => Ok(()),
            None => Err(CompileError::UnboundVariable(name.clone())),
        },
        Expr::UnOp(_, a) => check_scopes(a, env),
        Expr::BinOp(_, l, r) => {
            let f = check_scopes(l, env);
            if f.is_err() {
                return f;
            }
            check_scopes(r, env)
        },
        Expr::Let(_, _) => check_let_scopes(e, env),
    }
}

fn check_let_scopes(e: &Expr, env: &im::HashMap<String, i32>) -> (r: Result<(), CompileError>)
    requires
        e is Let,
    ensures
        r is Ok <==> scope_fault(e@, env_slots(*env).dom()) is None,
        r is Err ==> scope_fault(e@, env_slots(*env).dom()) == Some(fault_view(r->Err_0)),
    decreases e, 0int,
{
    let (binds, body) = match e {
        Expr::Let(binds, body) => (binds, body),
        _ => {
            proof { assert(false); }
            return Ok(());
        },
    };
    let ghost bvs = binds_view(binds@);
    let ghost bound = env_slots(*env).dom();
    proof {
        lemma_binds_view(binds@);
    }
    let n = binds.len();
    let mut names: Vec<String> = Vec::new();
    let mut new_env = env_clone(env);
    let mut i: usize = 0;
    while i < n
        invariant
            n == binds.len(),
            bvs == binds_view(binds@),
            bvs.len() == n,
            forall|k: int| 0 <= k < n ==> #[trigger] bvs[k] == (binds@[k].0@, expr_view(binds@[k].1)),
            e@ == ExprV::Let(bvs, Box::new(body@)),
            *e == Expr::Let(*binds, *body),
            i <= n,
            bound == env_slots(*env).dom(),
            binds_fault(bvs, i as int, bound) is None,
            names.len() == i,
            forall|k: int| 0 <= k < i ==> (#[trigger] names@[k])@ == bvs[k].0,
            env_slots(new_env).dom() == bound + names_of(bvs.take(i as int)),
        decreases n - i,
    {
        let ghost prefix = names_of(bvs.take(i as int));
        proof {
            assert(bvs.take(i + 1).take(i as int) =~= bvs.take(i as int));
            lemma_names_step(bvs, i as int);
            assert(decreases_to!(*e => e->Let_0));
            assert(decreases_to!(*binds => binds@[i as int]));
            assert(decreases_to!(binds@[i as int] => binds@[i as int].1));
        }
        let name = &binds[i].0;
        let ex = &binds[i].1;
        if has_name(&names, name) {
            proof {
                let k = choose|k: int| 0 <= k < names.len() && (#[trigger] names@[k])@ == name@;
                assert(bvs.take(i as int)[k].0 == bvs[i as int].0);
                assert(prefix.contains(bvs[i as int].0));
                lemma_binds_fault_stays(bvs, i + 1, n as int, bound);
            }
            return Err(CompileError::DuplicateBinding);
        }
        proof {
            assert(!prefix.contains(bvs[i as int].0)) by {
                if prefix.contains(bvs[i as int].0) {
                    let k = choose|k: int| #![trigger bvs.take(i as int)[k]] 0 <= k < i && bvs.take(i as int)[k].0 == bvs[i as int].0;
                    assert(names@[k]@ == name@);
                }
            }
        }
        let r = check_scopes(ex, &new_env);
        if r.is_err() {
            proof {
                lemma_binds_fault_stays(bvs, i + 1, n as int, bound);
            }
            return r;
        }
        names.push(name.clone());
        env_insert(&mut new_env, name.clone(), 0);
        i += 1;
    }
    proof {
        assert(bvs.take(n as int) =~= bvs);
    }
    check_scopes(body, &new_env)
}

/// Whether every stack index and offset that the code generator computes for
/// `e` at stack index `si` fits in an `i32`.
pub fn stack_fits(e: &Expr, si: i32) -> (r: bool)
    ensures
        r == slots_fit(e@, si as int),
    decreases e,
{
    match e {
        Expr::Number(_) | Expr::Id(_) => true,
        Expr::UnOp(_, a) => stack_fits(a, si),
        Expr::BinOp(_, l, r) => SI_MIN <= si && si <= SI_MAX && stack_fits(l, si) && stack_fits(r, si + 1),
        Expr::Let(binds, body) => {
            let ghost bvs = binds_view(binds@);
            proof { lemma_binds_view(binds@); }
            let n = binds.len();
            let mut i: usize = 0;
            while i < n
                invariant
                    n == binds.len(),
                    i <= n,
                    bvs == binds_view(binds@),
                    bvs.len() == n,
                    forall|k: int| 0 <= k < n ==> #[trigger] bvs[k] == (binds@[k].0@, expr_view(binds@[k].1)),
                    *e == Expr::Let(*binds, *body),
                    binds_fit(bvs, i as int, si as int),
                    i > 0 ==> si + i - 1 <= SI_MAX,
                decreases n - i,
            {
                proof {
                    assert(decreases_to!(*e => e->Let_0));
                    assert(decreases_to!(*binds => binds@[i as int]));
                    assert(decreases_to!(binds@[i as int] => binds@[i as int].1));
                    lemma_binds_mono(bvs, i + 1, n as int, si as int, Set::empty());
                }
                let idx: i128 = si as i128 + i as i128;
                if idx < SI_MIN as i128 || idx > SI_MAX as i128 {
                    return false;
                }
                if !stack_fits(&binds[i].1, idx as i32) {
                    return false;
                }
                i += 1;
            }
            let body_si: i128 = si as i128 + n as i128;
            proof {
                assert(n == 0 ==> body_si == si);
            }
            stack_fits(body, body_si as i32)
        },
    }
}

} // verus!
