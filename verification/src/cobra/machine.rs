//! What Cobra's generated code means: the instructions that its text spells.

use vstd::prelude::*;
use crate::text::decimal;
use crate::cobra::ast::{UnOp, BinOp, ExprV};
use crate::cobra::compile::{
    TRUE_VAL, FALSE_VAL, label, slot_offset, check_num_rax_text, check_num_rbx_text,
    overflow_guard_text, bool_from_jump_text, tag_test_text, comparison_jump, unop_text, binop_text,
    tag_number, tag_bool, compile_spec, let_spec, block_spec,
};

verus! {

/// The jumps that Cobra's code uses.
pub enum Jump {
    Jmp,
    Jz,
    Jnz,
    Jno,
    Je,
    Jl,
    Jg,
    Jle,
    Jge,
}

/// The mnemonic of a jump.
pub open spec fn jump_name(j: Jump) -> Seq<char> {
    match j {
        Jump::Jmp => "jmp"@,
        Jump::Jz => "jz"@,
        Jump::Jnz => "jnz"@,
        Jump::Jno => "jno"@,
        Jump::Je => "je"@,
        Jump::Jl => "jl"@,
        Jump::Jg => "jg"@,
        Jump::Jle => "jle"@,
        Jump::Jge => "jge"@,
    }
}

/// The lines that Cobra's code generator emits. A slot is given by its byte
/// offset below `rbp`; `Blank` is an empty line.
pub enum Instr {
    Blank,
    Label(Seq<char>),
    Jump(Jump, Seq<char>),
    MovRaxImm(int),
    MovRaxRdi,
    MovRaxSlot(int),
    MovSlotRax(int),
    MovRbxSlot(int),
    MovRaxRbx,
    MovRcxRbx,
    MovRdiImm(int),
    TestRaxOne,
    TestRbxOne,
    TestRcxOne,
    XorRcxRax,
    AddRaxTwo,
    SubRaxTwo,
    NegRax,
    SarRaxOne,
    AddRaxRbx,
    SubRbxRax,
    ImulRaxRbx,
    CmpRbxRax,
    CmpRaxImm(int),
    CallError,
}

/// The memory operand of stack offset `off`.
pub open spec fn slot_text(off: int) -> Seq<char> {
    "[rbp - "@ + decimal(off) + "]"@
}

/// The assembly line of an instruction.
pub open spec fn render_instr(i: Instr) -> Seq<char> {
    match i {
        Instr::Blank => Seq::empty(),
        Instr::Label(l) => l + ":"@,
        Instr::Jump(j, l) => jump_name(j) + " "@ + l,
        Instr::MovRaxImm(n) => "mov rax, "@ + decimal(n),
        Instr::MovRaxRdi => "mov rax, rdi"@,
        Instr::MovRaxSlot(k) => "mov rax, "@ + slot_text(k),
        Instr::MovSlotRax(k) => "mov "@ + slot_text(k) + ", rax"@,
        Instr::MovRbxSlot(k) => "mov rbx, "@ + slot_text(k),
        Instr::MovRaxRbx => "mov rax, rbx"@,
        Instr::MovRcxRbx => "mov rcx, rbx"@,
        Instr::MovRdiImm(n) => "mov rdi, "@ + decimal(n),
        Instr::TestRaxOne => "test rax, 1"@,
        Instr::TestRbxOne => "test rbx, 1"@,
        Instr::TestRcxOne => "test rcx, 1"@,
        Instr::XorRcxRax => "xor rcx, rax"@,
        Instr::AddRaxTwo => "add rax, 2"@,
        Instr::SubRaxTwo => "sub rax, 2"@,
        Instr::NegRax => "neg rax"@,
        Instr::SarRaxOne => "sar rax, 1"@,
        Instr::AddRaxRbx => "add rax, rbx"@,
        Instr::SubRbxRax => "sub rbx, rax"@,
        Instr::ImulRaxRbx => "imul rax, rbx"@,
        Instr::CmpRbxRax => "cmp rbx, rax"@,
        Instr::CmpRaxImm(n) => "cmp rax, "@ + decimal(n),
        Instr::CallError => "call _snek_error"@,
    }
}

/// The lines of a list of instructions, joined by newlines.
pub open spec fn render_code(is: Seq<Instr>) -> Seq<char>
    decreases is.len(),
{
    if is.len() == 0 {
        Seq::empty()
    } else if is.len() == 1 {
        render_instr(is[0])
    } else {
        render_code(is.drop_last()) + "\n"@ + render_instr(is.last())
    }
}

/// A fragment as lines: an empty fragment is one blank line.
pub open spec fn lines(is: Seq<Instr>) -> Seq<Instr> {
    if is.len() == 0 { seq![Instr::Blank] } else { is }
}

/// Joining two non-empty lists of lines joins their texts with a newline.
pub proof fn lemma_render_append(a: Seq<Instr>, b: Seq<Instr>)
    requires
        a.len() > 0,
        b.len() > 0,
    ensures
        render_code(a + b) == render_code(a) + "\n"@ + render_code(b),
    decreases b.len(),
{
    if b.len() == 1 {
        assert((a + b).drop_last() =~= a);
        assert((a + b).last() == b[0]);
    } else {
        lemma_render_append(a, b.drop_last());
        assert((a + b).drop_last() =~= a + b.drop_last());
        assert((a + b).last() == b.last());
        assert(render_code(a + b) =~= render_code(a) + "\n"@ + render_code(b));
    }
}

/// A fragment and its lines have the same text.
pub proof fn lemma_lines(a: Seq<Instr>)
    ensures
        render_code(lines(a)) == render_code(a),
        lines(a).len() > 0,
{
    if a.len() == 0 {
        assert(seq![Instr::Blank].len() == 1);
        assert(render_code(lines(a)) =~= render_code(a));
    }
}

/// Putting a fragment's lines before a non-empty list puts its text and a
/// newline before the list's text.
pub proof fn lemma_render_lines(a: Seq<Instr>, b: Seq<Instr>)
    requires
        b.len() > 0,
    ensures
        render_code(lines(a) + b) == render_code(a) + "\n"@ + render_code(b),
{
    lemma_lines(a);
    lemma_render_append(lines(a), b);
}

proof fn lemma_render_cons(i: Instr, b: Seq<Instr>)
    requires
        b.len() > 0,
    ensures
        render_code(seq![i] + b) == render_instr(i) + "\n"@ + render_code(b),
{
    assert(seq![i].len() == 1);
    lemma_render_append(seq![i], b);
}

proof fn lemma_small_decimals()
    ensures
        decimal(1) == "1"@,
        decimal(2) == "2"@,
        decimal(3) == "3"@,
{
    reveal_strlit("1");
    reveal_strlit("2");
    reveal_strlit("3");
    assert(decimal(1) =~= "1"@);
    assert(decimal(2) =~= "2"@);
    assert(decimal(3) =~= "3"@);
}


/// The lines of a tag check of `rax` (`test`) or `rbx`, at counter `c`.
pub open spec fn check_instrs(test: Instr, c: int) -> Seq<Instr> {
    let ok = label("num_ok"@, c);
    seq![test, Instr::Jump(Jump::Jz, ok), Instr::MovRdiImm(1), Instr::CallError, Instr::Label(ok)]
}

/// The lines of an overflow guard at counter `c`.
pub open spec fn overflow_instrs(c: int) -> Seq<Instr> {
    let ok = label("overflow_ok"@, c);
    seq![Instr::Jump(Jump::Jno, ok), Instr::MovRdiImm(2), Instr::CallError, Instr::Label(ok)]
}

/// The lines that set `rax` to `true` where jump `j` is taken and to `false`
/// otherwise, with labels of prefixes `pt` and `pd` at counter `c`.
pub open spec fn choose_bool_instrs(pt: Seq<char>, pd: Seq<char>, j: Jump, c: int) -> Seq<Instr> {
    let t = label(pt, c);
    let d = label(pd, c + 1);
    seq![
        Instr::Jump(j, t),
        Instr::MovRaxImm(FALSE_VAL as int),
        Instr::Jump(Jump::Jmp, d),
        Instr::Label(t),
        Instr::MovRaxImm(TRUE_VAL as int),
        Instr::Label(d),
    ]
}

proof fn lemma_render5(a: Instr, b: Instr, c: Instr, d: Instr, e: Instr)
    ensures
        render_code(seq![a, b, c, d, e]) == render_instr(a) + "\n"@ + render_instr(b) + "\n"@
            + render_instr(c) + "\n"@ + render_instr(d) + "\n"@ + render_instr(e),
{
    let s = seq![a, b, c, d, e];
    assert(s.drop_last() =~= seq![a, b, c, d]);
    assert(s.drop_last().drop_last() =~= seq![a, b, c]);
    assert(s.drop_last().drop_last().drop_last() =~= seq![a, b]);
    assert(s.drop_last().drop_last().drop_last().drop_last() =~= seq![a]);
    reveal_with_fuel(render_code, 6);
}

proof fn lemma_render2(a: Instr, b: Instr)
    ensures
        render_code(seq![a, b]) == render_instr(a) + "\n"@ + render_instr(b),
        render_code(seq![a]) == render_instr(a),
{
    let s = seq![a, b];
    assert(s.drop_last() =~= seq![a]);
    reveal_with_fuel(render_code, 3);
}

proof fn lemma_render4(a: Instr, b: Instr, c: Instr, d: Instr)
    ensures
        render_code(seq![a, b, c, d]) == render_instr(a) + "\n"@ + render_instr(b) + "\n"@
            + render_instr(c) + "\n"@ + render_instr(d),
{
    let s = seq![a, b, c, d];
    assert(s.drop_last() =~= seq![a, b, c]);
    assert(s.drop_last().drop_last() =~= seq![a, b]);
    assert(s.drop_last().drop_last().drop_last() =~= seq![a]);
    reveal_with_fuel(render_code, 5);
}

proof fn lemma_render6(a: Instr, b: Instr, c: Instr, d: Instr, e: Instr, f: Instr)
    ensures
        render_code(seq![a, b, c, d, e, f]) == render_instr(a) + "\n"@ + render_instr(b) + "\n"@
            + render_instr(c) + "\n"@ + render_instr(d) + "\n"@ + render_instr(e) + "\n"@ + render_instr(f),
{
    let s = seq![a, b, c, d, e, f];
    assert(s.drop_last() =~= seq![a, b, c, d, e]);
    lemma_render5(a, b, c, d, e);
}

/// The tag checks are the text of [`check_instrs`].
#[verifier::spinoff_prover]
#[verifier::rlimit(60)]
pub proof fn lemma_check_text(c: int)
    ensures
        check_num_rax_text(c) == render_code(check_instrs(Instr::TestRaxOne, c)),
        check_num_rbx_text(c) == render_code(check_instrs(Instr::TestRbxOne, c)),
{
    let ok = label("num_ok"@, c);
    lemma_small_decimals();
    lemma_render5(Instr::TestRaxOne, Instr::Jump(Jump::Jz, ok), Instr::MovRdiImm(1), Instr::CallError, Instr::Label(ok));
    lemma_render5(Instr::TestRbxOne, Instr::Jump(Jump::Jz, ok), Instr::MovRdiImm(1), Instr::CallError, Instr::Label(ok));
    reveal_strlit("test rax, 1\njz ");
    reveal_strlit("test rbx, 1\njz ");
    reveal_strlit("test rax, 1");
    reveal_strlit("test rbx, 1");
    reveal_strlit("\n");
    reveal_strlit("jz");
    reveal_strlit(" ");
    reveal_strlit("\nmov rdi, 1\ncall _snek_error\n");
    reveal_strlit("mov rdi, ");
    reveal_strlit("1");
    reveal_strlit("call _snek_error");
    assert(check_num_rax_text(c) =~= render_code(check_instrs(Instr::TestRaxOne, c)));
    assert(check_num_rbx_text(c) =~= render_code(check_instrs(Instr::TestRbxOne, c)));
}


/// The overflow guard is the text of [`overflow_instrs`].
#[verifier::spinoff_prover]
#[verifier::rlimit(60)]
pub proof fn lemma_overflow_text(c: int)
    ensures
        overflow_guard_text(c) == render_code(overflow_instrs(c)),
{
    let ok = label("overflow_ok"@, c);
    lemma_small_decimals();
    lemma_render4(Instr::Jump(Jump::Jno, ok), Instr::MovRdiImm(2), Instr::CallError, Instr::Label(ok));
    reveal_strlit("jno ");
    reveal_strlit("jno");
    reveal_strlit(" ");
    reveal_strlit("\n");
    reveal_strlit("\nmov rdi, 2\ncall _snek_error\n");
    reveal_strlit("mov rdi, ");
    reveal_strlit("2");
    reveal_strlit("call _snek_error");
    assert(overflow_guard_text(c) =~= render_code(overflow_instrs(c)));
}

/// Setting a boolean from a jump is the text of [`choose_bool_instrs`].
#[verifier::spinoff_prover]
#[verifier::rlimit(60)]
pub proof fn lemma_bool_text(j: Jump, c: int)
    ensures
        bool_from_jump_text(jump_name(j), c) == render_code(choose_bool_instrs("bool_true"@, "bool_done"@, j, c)),
{
    let t = label("bool_true"@, c);
    let d = label("bool_done"@, c + 1);
    lemma_render6(
        Instr::Jump(j, t),
        Instr::MovRaxImm(FALSE_VAL as int),
        Instr::Jump(Jump::Jmp, d),
        Instr::Label(t),
        Instr::MovRaxImm(TRUE_VAL as int),
        Instr::Label(d),
    );
    reveal_strlit(" ");
    reveal_strlit("\n");
    reveal_strlit("\nmov rax, ");
    reveal_strlit("mov rax, ");
    reveal_strlit("\njmp ");
    reveal_strlit("jmp");
    reveal_strlit(":\nmov rax, ");
    reveal_strlit(":");
    assert(bool_from_jump_text(jump_name(j), c) =~= render_code(choose_bool_instrs("bool_true"@, "bool_done"@, j, c)));
}

/// Testing the tag of `rax` into a boolean is a newline and the text of a
/// `test` followed by [`choose_bool_instrs`].
#[verifier::spinoff_prover]
#[verifier::rlimit(60)]
pub proof fn lemma_tag_test_text(pt: Seq<char>, pd: Seq<char>, j: Jump, c: int)
    ensures
        tag_test_text(pt, pd, jump_name(j), c) == "\n"@ + render_code(seq![Instr::TestRaxOne] + choose_bool_instrs(pt, pd, j, c)),
{
    let t = label(pt, c);
    let d = label(pd, c + 1);
    let body = choose_bool_instrs(pt, pd, j, c);
    lemma_render6(
        Instr::Jump(j, t),
        Instr::MovRaxImm(FALSE_VAL as int),
        Instr::Jump(Jump::Jmp, d),
        Instr::Label(t),
        Instr::MovRaxImm(TRUE_VAL as int),
        Instr::Label(d),
    );
    lemma_render_cons(Instr::TestRaxOne, body);
    reveal_strlit("\ntest rax, 1\n");
    reveal_strlit("test rax, 1");
    reveal_strlit(" ");
    reveal_strlit("\n");
    reveal_strlit("\nmov rax, ");
    reveal_strlit("mov rax, ");
    reveal_strlit("\njmp ");
    reveal_strlit("jmp");
    reveal_strlit(":\nmov rax, ");
    reveal_strlit(":");
    assert(tag_test_text(pt, pd, jump_name(j), c) =~= "\n"@ + render_code(seq![Instr::TestRaxOne] + body));
}


/// The lines of a unary operator after its operand, at counter `c`.
pub open spec fn unop_instrs(op: UnOp, c: int) -> Seq<Instr> {
    match op {
        UnOp::Add1 => check_instrs(Instr::TestRaxOne, c) + seq![Instr::AddRaxTwo] + overflow_instrs(c + 1),
        UnOp::Sub1 => check_instrs(Instr::TestRaxOne, c) + seq![Instr::SubRaxTwo] + overflow_instrs(c + 1),
        UnOp::Negate => check_instrs(Instr::TestRaxOne, c) + seq![Instr::NegRax] + overflow_instrs(c + 1),
        UnOp::IsNum => seq![Instr::TestRaxOne] + choose_bool_instrs("isnum_true"@, "isnum_done"@, Jump::Jz, c),
        UnOp::IsBool => seq![Instr::TestRaxOne] + choose_bool_instrs("isbool_true"@, "isbool_done"@, Jump::Jnz, c),
    }
}

/// The jump by which a comparison sets its result.
pub open spec fn comparison_kind(op: BinOp) -> Jump {
    match op {
        BinOp::Less => Jump::Jl,
        BinOp::Greater => Jump::Jg,
        BinOp::LessEqual => Jump::Jle,
        BinOp::GreaterEqual => Jump::Jge,
        _ => Jump::Je,
    }
}

/// The lines of a binary operator after its operands, whose left operand is
/// saved at offset `off`, at counter `c`.
pub open spec fn binop_instrs(op: BinOp, off: int, c: int) -> Seq<Instr> {
    let checks = check_instrs(Instr::TestRaxOne, c) + seq![Instr::MovRbxSlot(off)] + check_instrs(Instr::TestRbxOne, c + 1);
    match op {
        BinOp::Plus => checks + seq![Instr::AddRaxRbx] + overflow_instrs(c + 2),
        BinOp::Minus => checks + seq![Instr::SubRbxRax, Instr::MovRaxRbx] + overflow_instrs(c + 2),
        BinOp::Times => check_instrs(Instr::TestRaxOne, c) + seq![Instr::SarRaxOne, Instr::MovRbxSlot(off)]
            + check_instrs(Instr::TestRbxOne, c + 1) + seq![Instr::ImulRaxRbx] + overflow_instrs(c + 2),
        BinOp::Equal => {
            let ok = label("eq_type_ok"@, c);
            seq![
                Instr::MovRbxSlot(off),
                Instr::MovRcxRbx,
                Instr::XorRcxRax,
                Instr::TestRcxOne,
                Instr::Jump(Jump::Jz, ok),
                Instr::MovRdiImm(1),
                Instr::CallError,
                Instr::Label(ok),
                Instr::CmpRbxRax,
            ] + choose_bool_instrs("bool_true"@, "bool_done"@, Jump::Je, c + 1)
        },
        _ => checks + seq![Instr::CmpRbxRax] + choose_bool_instrs("bool_true"@, "bool_done"@, comparison_kind(op), c + 2),
    }
}

proof fn lemma_comparison_names(op: BinOp)
    ensures
        comparison_jump(op) == jump_name(comparison_kind(op)),
{
}

/// The text of a unary operator is the text of its operand's lines followed
/// by [`unop_instrs`].
#[verifier::spinoff_prover]
#[verifier::rlimit(60)]
pub proof fn lemma_unop_text(op: UnOp, a: Seq<Instr>, c: int)
    ensures
        unop_text(op, render_code(a), c) == render_code(lines(a) + unop_instrs(op, c)),
        unop_instrs(op, c).len() > 0,
{
    reveal_strlit("\n");
    match op {
        UnOp::IsNum => {
            lemma_tag_test_text("isnum_true"@, "isnum_done"@, Jump::Jz, c);
            lemma_render_lines(a, unop_instrs(op, c));
            assert(unop_text(op, render_code(a), c) =~= render_code(lines(a) + unop_instrs(op, c)));
        },
        UnOp::IsBool => {
            lemma_tag_test_text("isbool_true"@, "isbool_done"@, Jump::Jnz, c);
            lemma_render_lines(a, unop_instrs(op, c));
            assert(unop_text(op, render_code(a), c) =~= render_code(lines(a) + unop_instrs(op, c)));
        },
        _ => {
            let mid = match op {
                UnOp::Add1 => Instr::AddRaxTwo,
                UnOp::Sub1 => Instr::SubRaxTwo,
                _ => Instr::NegRax,
            };
            let ch = check_instrs(Instr::TestRaxOne, c);
            let ov = overflow_instrs(c + 1);
            lemma_check_text(c);
            lemma_overflow_text(c + 1);
            lemma_render_append(ch, seq![mid]);
            lemma_render_append(ch + seq![mid], ov);
            lemma_render_lines(a, ch + seq![mid] + ov);
            assert(render_code(seq![mid]) == render_instr(mid));
            reveal_strlit("\nadd rax, 2\n");
            reveal_strlit("add rax, 2");
            reveal_strlit("\nsub rax, 2\n");
            reveal_strlit("sub rax, 2");
            reveal_strlit("\nneg rax\n");
            reveal_strlit("neg rax");
            assert(unop_text(op, render_code(a), c) =~= render_code(lines(a) + unop_instrs(op, c)));
        },
    }
}


/// The text of a binary operator after its operands is a newline and the text
/// of its lines.
spec fn binop_tail_claim(op: BinOp, off: int, c: int) -> bool {
    binop_tail(op, slot_text(off), c) == "\n"@ + render_code(binop_instrs(op, off, c))
}

/// The text that follows the operands of a binary operator is the text of
/// [`binop_instrs`].
proof fn lemma_binop_tail_text(op: BinOp, off: int, c: int)
    ensures
        binop_instrs(op, off, c).len() > 0,
        binop_tail_claim(op, off, c),
{
    match op {
        BinOp::Plus => lemma_plus_tail_text(off, c),
        BinOp::Minus => lemma_minus_tail_text(off, c),
        BinOp::Times => lemma_times_tail_text(off, c),
        BinOp::Equal => lemma_equal_tail_text(off, c),
        _ => lemma_cmp_tail_text(op, off, c),
    }
}

proof fn lemma_checks_text(off: int, c: int)
    ensures
        render_code(check_instrs(Instr::TestRaxOne, c) + seq![Instr::MovRbxSlot(off)] + check_instrs(Instr::TestRbxOne, c + 1))
            == check_num_rax_text(c) + "\nmov rbx, "@ + slot_text(off) + "\n"@ + check_num_rbx_text(c + 1),
{
    reveal_strlit("\n");
    reveal_strlit("\nmov rbx, ");
    reveal_strlit("mov rbx, ");
    let cr = check_instrs(Instr::TestRaxOne, c);
    let cb = check_instrs(Instr::TestRbxOne, c + 1);
    lemma_check_text(c);
    lemma_check_text(c + 1);
    lemma_render2(Instr::MovRbxSlot(off), Instr::MovRbxSlot(off));
    lemma_render_append(cr, seq![Instr::MovRbxSlot(off)]);
    lemma_render_append(cr + seq![Instr::MovRbxSlot(off)], cb);
    assert(render_code(cr + seq![Instr::MovRbxSlot(off)] + cb) =~= check_num_rax_text(c) + "\nmov rbx, "@ + slot_text(off)
        + "\n"@ + check_num_rbx_text(c + 1));
}

#[verifier::spinoff_prover]
#[verifier::rlimit(80)]
proof fn lemma_plus_tail_text(off: int, c: int)
    ensures
        binop_tail_claim(BinOp::Plus, off, c),
{
    reveal_strlit("\n");
    let checks = check_instrs(Instr::TestRaxOne, c) + seq![Instr::MovRbxSlot(off)] + check_instrs(Instr::TestRbxOne, c + 1);
    lemma_checks_text(off, c);
    lemma_overflow_text(c + 2);
    lemma_render2(Instr::AddRaxRbx, Instr::AddRaxRbx);
    lemma_render_append(checks, seq![Instr::AddRaxRbx]);
    lemma_render_append(checks + seq![Instr::AddRaxRbx], overflow_instrs(c + 2));
    reveal_strlit("\nadd rax, rbx\n");
    reveal_strlit("add rax, rbx");
    reveal(binop_tail);
    assert(binop_tail(BinOp::Plus, slot_text(off), c) =~= "\n"@ + render_code(binop_instrs(BinOp::Plus, off, c)));
}

#[verifier::spinoff_prover]
#[verifier::rlimit(80)]
proof fn lemma_minus_tail_text(off: int, c: int)
    ensures
        binop_tail_claim(BinOp::Minus, off, c),
{
    reveal_strlit("\n");
    let checks = check_instrs(Instr::TestRaxOne, c) + seq![Instr::MovRbxSlot(off)] + check_instrs(Instr::TestRbxOne, c + 1);
    let mids = seq![Instr::SubRbxRax, Instr::MovRaxRbx];
    lemma_checks_text(off, c);
    lemma_overflow_text(c + 2);
    lemma_render2(Instr::SubRbxRax, Instr::MovRaxRbx);
    lemma_render_append(checks, mids);
    lemma_render_append(checks + mids, overflow_instrs(c + 2));
    reveal_strlit("\nsub rbx, rax\nmov rax, rbx\n");
    reveal_strlit("sub rbx, rax");
    reveal_strlit("mov rax, rbx");
    reveal(binop_tail);
    assert(binop_tail(BinOp::Minus, slot_text(off), c) =~= "\n"@ + render_code(binop_instrs(BinOp::Minus, off, c)));
}

#[verifier::spinoff_prover]
#[verifier::rlimit(80)]
proof fn lemma_times_tail_text(off: int, c: int)
    ensures
        binop_tail_claim(BinOp::Times, off, c),
{
    reveal_strlit("\n");
    let cr = check_instrs(Instr::TestRaxOne, c);
    let cb = check_instrs(Instr::TestRbxOne, c + 1);
    let m1 = seq![Instr::SarRaxOne, Instr::MovRbxSlot(off)];
    lemma_check_text(c);
    lemma_check_text(c + 1);
    lemma_overflow_text(c + 2);
    lemma_render2(Instr::SarRaxOne, Instr::MovRbxSlot(off));
    lemma_render2(Instr::ImulRaxRbx, Instr::ImulRaxRbx);
    lemma_render_append(cr, m1);
    lemma_render_append(cr + m1, cb);
    lemma_render_append(cr + m1 + cb, seq![Instr::ImulRaxRbx]);
    lemma_render_append(cr + m1 + cb + seq![Instr::ImulRaxRbx], overflow_instrs(c + 2));
    reveal_strlit("\nsar rax, 1\nmov rbx, ");
    reveal_strlit("sar rax, 1");
    reveal_strlit("mov rbx, ");
    reveal_strlit("\nimul rax, rbx\n");
    reveal_strlit("imul rax, rbx");
    reveal(binop_tail);
    assert(binop_tail(BinOp::Times, slot_text(off), c) =~= "\n"@ + render_code(binop_instrs(BinOp::Times, off, c)));
}

#[verifier::spinoff_prover]
#[verifier::rlimit(80)]
proof fn lemma_cmp_tail_text(op: BinOp, off: int, c: int)
    requires
        op != BinOp::Plus && op != BinOp::Minus && op != BinOp::Times && op != BinOp::Equal,
    ensures
        binop_tail_claim(op, off, c),
{
    reveal_strlit("\n");
    let checks = check_instrs(Instr::TestRaxOne, c) + seq![Instr::MovRbxSlot(off)] + check_instrs(Instr::TestRbxOne, c + 1);
    lemma_checks_text(off, c);
    lemma_comparison_names(op);
    lemma_bool_text(comparison_kind(op), c + 2);
    let b = choose_bool_instrs("bool_true"@, "bool_done"@, comparison_kind(op), c + 2);
    lemma_render2(Instr::CmpRbxRax, Instr::CmpRbxRax);
    lemma_render_append(checks, seq![Instr::CmpRbxRax]);
    lemma_render_append(checks + seq![Instr::CmpRbxRax], b);
    reveal_strlit("\ncmp rbx, rax\n");
    reveal_strlit("cmp rbx, rax");
    reveal(binop_tail);
    assert(binop_tail(op, slot_text(off), c) =~= "\n"@ + render_code(binop_instrs(op, off, c)));
}

#[verifier::spinoff_prover]
#[verifier::rlimit(80)]
proof fn lemma_equal_tail_text(off: int, c: int)
    ensures
        binop_instrs(BinOp::Equal, off, c).len() > 0,
        binop_tail_claim(BinOp::Equal, off, c),
{
    reveal_strlit("\n");
    let ok = label("eq_type_ok"@, c);
    let first = seq![
        Instr::MovRbxSlot(off),
        Instr::MovRcxRbx,
        Instr::XorRcxRax,
        Instr::TestRcxOne,
        Instr::Jump(Jump::Jz, ok),
        Instr::MovRdiImm(1),
        Instr::CallError,
        Instr::Label(ok),
        Instr::CmpRbxRax,
    ];
    let p5 = seq![Instr::MovRbxSlot(off), Instr::MovRcxRbx, Instr::XorRcxRax, Instr::TestRcxOne, Instr::Jump(Jump::Jz, ok)];
    let p4 = seq![Instr::MovRdiImm(1), Instr::CallError, Instr::Label(ok), Instr::CmpRbxRax];
    assert(first =~= p5 + p4);
    lemma_render5(Instr::MovRbxSlot(off), Instr::MovRcxRbx, Instr::XorRcxRax, Instr::TestRcxOne, Instr::Jump(Jump::Jz, ok));
    lemma_render4(Instr::MovRdiImm(1), Instr::CallError, Instr::Label(ok), Instr::CmpRbxRax);
    lemma_render_append(p5, p4);
    lemma_bool_text(Jump::Je, c + 1);
    let b = choose_bool_instrs("bool_true"@, "bool_done"@, Jump::Je, c + 1);
    lemma_render_append(first, b);
    lemma_small_decimals();
    reveal_strlit("\nmov rbx, ");
    reveal_strlit("mov rbx, ");
    reveal_strlit("\nmov rcx, rbx\nxor rcx, rax\ntest rcx, 1\njz ");
    reveal_strlit("mov rcx, rbx");
    reveal_strlit("xor rcx, rax");
    reveal_strlit("test rcx, 1");
    reveal_strlit("jz");
    reveal_strlit(" ");
    reveal_strlit("\nmov rdi, 1\ncall _snek_error\n");
    reveal_strlit("mov rdi, ");
    reveal_strlit("1");
    reveal_strlit("call _snek_error");
    reveal_strlit(":\ncmp rbx, rax\n");
    reveal_strlit(":");
    reveal_strlit("cmp rbx, rax");
    reveal_strlit("je");
    reveal(binop_tail);
    assert(binop_tail(BinOp::Equal, slot_text(off), c) =~= "\n"@ + render_code(binop_instrs(BinOp::Equal, off, c)));
}


/// The text of a binary operator after its right operand's code.
#[verifier::opaque]
spec fn binop_tail(op: BinOp, slot: Seq<char>, c: int) -> Seq<char> {
    match op {
        BinOp::Plus => "\n"@ + check_num_rax_text(c) + "\nmov rbx, "@ + slot + "\n"@
            + check_num_rbx_text(c + 1) + "\nadd rax, rbx\n"@ + overflow_guard_text(c + 2),
        BinOp::Minus => "\n"@ + check_num_rax_text(c) + "\nmov rbx, "@ + slot + "\n"@
            + check_num_rbx_text(c + 1) + "\nsub rbx, rax\nmov rax, rbx\n"@ + overflow_guard_text(c + 2),
        BinOp::Times => "\n"@ + check_num_rax_text(c) + "\nsar rax, 1\nmov rbx, "@ + slot
            + "\n"@ + check_num_rbx_text(c + 1) + "\nimul rax, rbx\n"@ + overflow_guard_text(c + 2),
        BinOp::Equal => {
            let ok = label("eq_type_ok"@, c);
            "\nmov rbx, "@ + slot + "\nmov rcx, rbx\nxor rcx, rax\ntest rcx, 1\njz "@ + ok
                + "\nmov rdi, 1\ncall _snek_error\n"@ + ok + ":\ncmp rbx, rax\n"@
                + bool_from_jump_text("je"@, c + 1)
        },
        _ => "\n"@ + check_num_rax_text(c) + "\nmov rbx, "@ + slot + "\n"@
            + check_num_rbx_text(c + 1) + "\ncmp rbx, rax\n"@ + bool_from_jump_text(comparison_jump(op), c + 2),
    }
}

#[verifier::spinoff_prover]
#[verifier::rlimit(80)]
proof fn lemma_binop_split(op: BinOp, lc: Seq<char>, rc: Seq<char>, off: int, c: int)
    ensures
        binop_text(op, lc, rc, off, c) == lc + "\nmov "@ + slot_text(off) + ", rax\n"@ + rc
            + binop_tail(op, slot_text(off), c),
{
    reveal(binop_tail);
    let slot = slot_text(off);
    let head = lc + "\nmov "@ + slot + ", rax\n"@ + rc;
    match op {
        BinOp::Equal => {
            let ok = label("eq_type_ok"@, c);
            assert(binop_text(op, lc, rc, off, c) =~= head + binop_tail(op, slot, c));
        },
        _ => {
            assert(binop_text(op, lc, rc, off, c) =~= head + binop_tail(op, slot, c));
        },
    }
}

#[verifier::spinoff_prover]
#[verifier::rlimit(80)]
proof fn lemma_binop_text(op: BinOp, l: Seq<Instr>, r: Seq<Instr>, off: int, c: int)
    ensures
        binop_text(op, render_code(l), render_code(r), off, c) == render_code(
            lines(l) + seq![Instr::MovSlotRax(off)] + lines(r) + binop_instrs(op, off, c),
        ),
{
    lemma_binop_tail_text(op, off, c);
    reveal_strlit("\n");
    reveal_strlit("\nmov ");
    reveal_strlit("mov ");
    reveal_strlit(", rax\n");
    reveal_strlit(", rax");
    let t = binop_instrs(op, off, c);
    let st = seq![Instr::MovSlotRax(off)];
    lemma_render2(Instr::MovSlotRax(off), Instr::MovSlotRax(off));
    lemma_render_lines(l, st);
    lemma_lines(r);
    lemma_render_append(lines(l) + st, lines(r));
    lemma_render_append(lines(l) + st + lines(r), t);
    let lc = render_code(l);
    let rc = render_code(r);
    let slot = slot_text(off);
    lemma_binop_split(op, lc, rc, off, c);
    let head = lc + "\nmov "@ + slot + ", rax\n"@ + rc;
    assert(render_code(lines(l) + st + lines(r) + t) =~= head + ("\n"@ + render_code(t)));
}

/// The lines of an expression's code: [`compile_spec`] spelled as
/// instructions, with the same counters.
pub open spec fn instrs_spec(e: ExprV, si: int, env: Map<Seq<char>, i32>, c: int, brk: Option<Seq<char>>) -> Seq<Instr>
    decreases e, 0int,
{
    match e {
        ExprV::Number(n) => seq![Instr::MovRaxImm(tag_number(n as int))],
        ExprV::Bool(b) => seq![Instr::MovRaxImm(tag_bool(b))],
        ExprV::Input => seq![Instr::MovRaxRdi],
        ExprV::Id(x) => seq![Instr::MovRaxSlot(env[x] as int)],
        ExprV::UnOp(op, a) => {
            let c1 = compile_spec(*a, si, env, c, brk).1;
            lines(instrs_spec(*a, si, env, c, brk)) + unop_instrs(op, c1)
        },
        ExprV::BinOp(op, l, r) => {
            let c1 = compile_spec(*l, si, env, c, brk).1;
            let c2 = compile_spec(*r, si + 1, env, c1, brk).1;
            lines(instrs_spec(*l, si, env, c, brk)) + seq![Instr::MovSlotRax(slot_offset(si))] + lines(
                instrs_spec(*r, si + 1, env, c1, brk),
            ) + binop_instrs(op, slot_offset(si), c2)
        },
        ExprV::Let(bs, body) => {
            let st = let_spec(bs, bs.len() as int, si, env, c, brk);
            let bi = instrs_spec(*body, st.si, st.env, st.counter, brk);
            if bs.len() == 0 { bi } else { let_instrs(bs, bs.len() as int, si, env, c, brk) + lines(bi) }
        },
        ExprV::If(cond, thn, els) => {
            let else_l = label("if_else"@, c);
            let done_l = label("if_done"@, c + 1);
            let c1 = compile_spec(*cond, si, env, c + 2, brk).1;
            let c2 = compile_spec(*thn, si, env, c1, brk).1;
            lines(instrs_spec(*cond, si, env, c + 2, brk)) + seq![
                Instr::CmpRaxImm(FALSE_VAL as int),
                Instr::Jump(Jump::Je, else_l),
            ] + lines(instrs_spec(*thn, si, env, c1, brk)) + seq![Instr::Jump(Jump::Jmp, done_l), Instr::Label(else_l)]
                + lines(instrs_spec(*els, si, env, c2, brk)) + seq![Instr::Label(done_l)]
        },
        ExprV::Block(es) => block_instrs(es, es.len() as int, si, env, c, brk),
        ExprV::Loop(body) => {
            let start_l = label("loop_start"@, c);
            let end_l = label("loop_end"@, c + 1);
            seq![Instr::Label(start_l)] + lines(instrs_spec(*body, si, env, c + 2, Some(end_l))) + seq![
                Instr::Jump(Jump::Jmp, start_l),
                Instr::Label(end_l),
            ]
        },
        ExprV::Break(a) => lines(instrs_spec(*a, si, env, c, brk)) + seq![Instr::Jump(Jump::Jmp, brk->0)],
        ExprV::SetVar(x, a) => lines(instrs_spec(*a, si, env, c, brk)) + seq![Instr::MovSlotRax(env[x] as int)],
    }
}

/// The lines of the first `i` bindings of a `let`: each binding's code, then
/// the store of its value into its slot.
pub open spec fn let_instrs(bs: Seq<(Seq<char>, ExprV)>, i: int, si: int, env: Map<Seq<char>, i32>, c: int, brk: Option<Seq<char>>) -> Seq<Instr>
    decreases bs, i,
{
    if i <= 0 || i > bs.len() {
        Seq::empty()
    } else {
        let prev = let_spec(bs, i - 1, si, env, c, brk);
        let_instrs(bs, i - 1, si, env, c, brk) + lines(instrs_spec(bs[i - 1].1, prev.si, prev.env, prev.counter, brk))
            + seq![Instr::MovSlotRax(slot_offset(prev.si))]
    }
}

/// The lines of the first `i` expressions of a block.
pub open spec fn block_instrs(es: Seq<ExprV>, i: int, si: int, env: Map<Seq<char>, i32>, c: int, brk: Option<Seq<char>>) -> Seq<Instr>
    decreases es, i,
{
    if i <= 0 || i > es.len() {
        Seq::empty()
    } else if i == 1 {
        instrs_spec(es[0], si, env, c, brk)
    } else {
        let c1 = block_spec(es, i - 1, si, env, c, brk).1;
        lines(block_instrs(es, i - 1, si, env, c, brk)) + lines(instrs_spec(es[i - 1], si, env, c1, brk))
    }
}

/// A fragment's lines followed by one instruction.
proof fn lemma_render_then(a: Seq<Instr>, i: Instr)
    ensures
        render_code(lines(a) + seq![i]) == render_code(a) + "\n"@ + render_instr(i),
{
    lemma_render2(i, i);
    lemma_render_lines(a, seq![i]);
}

#[verifier::spinoff_prover]
#[verifier::rlimit(60)]
proof fn lemma_if_text(ci: Seq<Instr>, ti: Seq<Instr>, ei: Seq<Instr>, else_l: Seq<char>, done_l: Seq<char>)
    ensures
        render_code(lines(ci) + seq![Instr::CmpRaxImm(FALSE_VAL as int), Instr::Jump(Jump::Je, else_l)] + lines(ti)
            + seq![Instr::Jump(Jump::Jmp, done_l), Instr::Label(else_l)] + lines(ei) + seq![Instr::Label(done_l)])
            == render_code(ci) + "\ncmp rax, "@ + decimal(FALSE_VAL as int) + "\nje "@ + else_l + "\n"@
            + render_code(ti) + "\njmp "@ + done_l + "\n"@ + else_l + ":\n"@ + render_code(ei) + "\n"@ + done_l
            + ":"@,
{
    let p1 = seq![Instr::CmpRaxImm(FALSE_VAL as int), Instr::Jump(Jump::Je, else_l)];
    let p2 = seq![Instr::Jump(Jump::Jmp, done_l), Instr::Label(else_l)];
    let p3 = seq![Instr::Label(done_l)];
    lemma_render2(Instr::CmpRaxImm(FALSE_VAL as int), Instr::Jump(Jump::Je, else_l));
    lemma_render2(Instr::Jump(Jump::Jmp, done_l), Instr::Label(else_l));
    lemma_render2(Instr::Label(done_l), Instr::Label(done_l));
    lemma_lines(ci);
    lemma_lines(ti);
    lemma_lines(ei);
    lemma_render_append(lines(ci), p1);
    lemma_render_append(lines(ci) + p1, lines(ti));
    lemma_render_append(lines(ci) + p1 + lines(ti), p2);
    lemma_render_append(lines(ci) + p1 + lines(ti) + p2, lines(ei));
    lemma_render_append(lines(ci) + p1 + lines(ti) + p2 + lines(ei), p3);
    reveal_strlit("\n");
    reveal_strlit("\ncmp rax, ");
    reveal_strlit("cmp rax, ");
    reveal_strlit("\nje ");
    reveal_strlit("je");
    reveal_strlit(" ");
    reveal_strlit("\njmp ");
    reveal_strlit("jmp");
    reveal_strlit(":\n");
    reveal_strlit(":");
    assert(render_code(lines(ci) + p1 + lines(ti) + p2 + lines(ei) + p3) =~= render_code(ci) + "\ncmp rax, "@
        + decimal(FALSE_VAL as int) + "\nje "@ + else_l + "\n"@ + render_code(ti) + "\njmp "@ + done_l + "\n"@
        + else_l + ":\n"@ + render_code(ei) + "\n"@ + done_l + ":"@);
}

#[verifier::spinoff_prover]
#[verifier::rlimit(60)]
proof fn lemma_loop_text(bi: Seq<Instr>, start_l: Seq<char>, end_l: Seq<char>)
    ensures
        render_code(seq![Instr::Label(start_l)] + lines(bi) + seq![Instr::Jump(Jump::Jmp, start_l), Instr::Label(end_l)])
            == start_l + ":\n"@ + render_code(bi) + "\njmp "@ + start_l + "\n"@ + end_l + ":"@,
{
    let p1 = seq![Instr::Label(start_l)];
    let p2 = seq![Instr::Jump(Jump::Jmp, start_l), Instr::Label(end_l)];
    lemma_render2(Instr::Label(start_l), Instr::Label(start_l));
    lemma_render2(Instr::Jump(Jump::Jmp, start_l), Instr::Label(end_l));
    lemma_lines(bi);
    lemma_render_append(p1, lines(bi));
    lemma_render_append(p1 + lines(bi), p2);
    reveal_strlit("\n");
    reveal_strlit(":\n");
    reveal_strlit(":");
    reveal_strlit("\njmp ");
    reveal_strlit("jmp");
    reveal_strlit(" ");
    assert(render_code(p1 + lines(bi) + p2) =~= start_l + ":\n"@ + render_code(bi) + "\njmp "@ + start_l + "\n"@
        + end_l + ":"@);
}

proof fn lemma_leaf_text(e: ExprV, si: int, env: Map<Seq<char>, i32>, c: int, brk: Option<Seq<char>>)
    requires
        e is Number || e is Bool || e is Input || e is Id,
    ensures
        compile_spec(e, si, env, c, brk).0 == render_code(instrs_spec(e, si, env, c, brk)),
{
    reveal_strlit("mov rax, ");
    reveal_strlit("mov rax, [rbp - ");
    reveal_strlit("[rbp - ");
    reveal_strlit("]");
    let is = instrs_spec(e, si, env, c, brk);
    assert(is.len() == 1);
    assert(render_code(is) == render_instr(is[0]));
    assert(compile_spec(e, si, env, c, brk).0 =~= render_instr(is[0]));
}

/// Code followed by a jump, as lines.
proof fn lemma_jump_after(ac: Seq<char>, ai: Seq<Instr>, target: Seq<char>)
    requires
        ac == render_code(ai),
    ensures
        ac + "\njmp "@ + target == render_code(lines(ai) + seq![Instr::Jump(Jump::Jmp, target)]),
{
    lemma_render_then(ai, Instr::Jump(Jump::Jmp, target));
    reveal_strlit("\njmp ");
    reveal_strlit("\n");
    reveal_strlit("jmp");
    reveal_strlit(" ");
    assert(ac + "\njmp "@ + target =~= render_code(ai) + "\n"@ + render_instr(Instr::Jump(Jump::Jmp, target)));
}

/// Code followed by a store of `rax` at offset `off`, as lines.
proof fn lemma_store_after(ac: Seq<char>, ai: Seq<Instr>, off: int)
    requires
        ac == render_code(ai),
    ensures
        ac + "\nmov [rbp - "@ + decimal(off) + "], rax"@ == render_code(lines(ai) + seq![Instr::MovSlotRax(off)]),
{
    lemma_render_then(ai, Instr::MovSlotRax(off));
    reveal_strlit("\nmov [rbp - ");
    reveal_strlit("\n");
    reveal_strlit("mov ");
    reveal_strlit("[rbp - ");
    reveal_strlit("]");
    reveal_strlit("], rax");
    reveal_strlit(", rax");
    assert(ac + "\nmov [rbp - "@ + decimal(off) + "], rax"@ =~= render_code(ai) + "\n"@ + render_instr(
        Instr::MovSlotRax(off),
    ));
}

/// Earlier bindings' code, a newline, and the next binding's code and store.
proof fn lemma_binding_after(pc: Seq<char>, li: Seq<Instr>, ec: Seq<char>, x: Seq<Instr>, off: int)
    requires
        pc == render_code(li),
        li.len() > 0,
        ec == render_code(x),
    ensures
        pc + "\n"@ + ec + "\nmov [rbp - "@ + decimal(off) + "], rax"@ == render_code(
            li + lines(x) + seq![Instr::MovSlotRax(off)],
        ),
{
    let st = seq![Instr::MovSlotRax(off)];
    lemma_store_after(ec, x, off);
    lemma_lines(x);
    lemma_render_append(li, lines(x) + st);
    assert(li + lines(x) + st =~= li + (lines(x) + st));
    assert(pc + "\n"@ + ec + "\nmov [rbp - "@ + decimal(off) + "], rax"@ =~= pc + "\n"@ + (ec + "\nmov [rbp - "@
        + decimal(off) + "], rax"@));
}

/// Two fragments joined by a newline, as lines.
proof fn lemma_join_lines(pc: Seq<char>, a: Seq<Instr>, ec: Seq<char>, b: Seq<Instr>)
    requires
        pc == render_code(a),
        ec == render_code(b),
    ensures
        pc + "\n"@ + ec == render_code(lines(a) + lines(b)),
{
    lemma_lines(b);
    lemma_render_lines(a, lines(b));
}

/// The code of every expression is the text of [`instrs_spec`]: the lines
/// that the code generator emits are exactly these instructions.
#[verifier::spinoff_prover]
#[verifier::rlimit(60)]
pub proof fn law_code_is_instrs(e: ExprV, si: int, env: Map<Seq<char>, i32>, c: int, brk: Option<Seq<char>>)
    ensures
        compile_spec(e, si, env, c, brk).0 == render_code(instrs_spec(e, si, env, c, brk)),
    decreases e, 0int,
{
    match e {
        ExprV::UnOp(op, a) => {
            law_code_is_instrs(*a, si, env, c, brk);
            let c1 = compile_spec(*a, si, env, c, brk).1;
            lemma_unop_text(op, instrs_spec(*a, si, env, c, brk), c1);
        },
        ExprV::BinOp(op, l, r) => {
            law_code_is_instrs(*l, si, env, c, brk);
            let c1 = compile_spec(*l, si, env, c, brk).1;
            law_code_is_instrs(*r, si + 1, env, c1, brk);
            let c2 = compile_spec(*r, si + 1, env, c1, brk).1;
            lemma_binop_text(op, instrs_spec(*l, si, env, c, brk), instrs_spec(*r, si + 1, env, c1, brk), slot_offset(si), c2);
        },
        ExprV::Let(bs, body) => {
            lemma_let_text(bs, bs.len() as int, si, env, c, brk);
            let st = let_spec(bs, bs.len() as int, si, env, c, brk);
            law_code_is_instrs(*body, st.si, st.env, st.counter, brk);
            if bs.len() > 0 {
                lemma_render_lines_after(let_instrs(bs, bs.len() as int, si, env, c, brk), instrs_spec(*body, st.si, st.env, st.counter, brk));
            }
        },
        ExprV::If(cond, thn, els) => {
            let else_l = label("if_else"@, c);
            let done_l = label("if_done"@, c + 1);
            law_code_is_instrs(*cond, si, env, c + 2, brk);
            let c1 = compile_spec(*cond, si, env, c + 2, brk).1;
            law_code_is_instrs(*thn, si, env, c1, brk);
            let c2 = compile_spec(*thn, si, env, c1, brk).1;
            law_code_is_instrs(*els, si, env, c2, brk);
            lemma_if_text(instrs_spec(*cond, si, env, c + 2, brk), instrs_spec(*thn, si, env, c1, brk),
                instrs_spec(*els, si, env, c2, brk), else_l, done_l);
        },
        ExprV::Block(es) => {
            lemma_block_text(es, es.len() as int, si, env, c, brk);
        },
        ExprV::Loop(body) => {
            let start_l = label("loop_start"@, c);
            let end_l = label("loop_end"@, c + 1);
            law_code_is_instrs(*body, si, env, c + 2, Some(end_l));
            lemma_loop_text(instrs_spec(*body, si, env, c + 2, Some(end_l)), start_l, end_l);
        },
        ExprV::Break(a) => {
            law_code_is_instrs(*a, si, env, c, brk);
            lemma_jump_after(compile_spec(*a, si, env, c, brk).0, instrs_spec(*a, si, env, c, brk), brk->0);
        },
        ExprV::SetVar(x, a) => {
            law_code_is_instrs(*a, si, env, c, brk);
            lemma_store_after(compile_spec(*a, si, env, c, brk).0, instrs_spec(*a, si, env, c, brk), env[x] as int);
        },
        _ => {
            lemma_leaf_text(e, si, env, c, brk);
        },
    }
}

/// A non-empty list followed by a fragment's lines.
proof fn lemma_render_lines_after(a: Seq<Instr>, b: Seq<Instr>)
    requires
        a.len() > 0,
    ensures
        render_code(a + lines(b)) == render_code(a) + "\n"@ + render_code(b),
{
    lemma_lines(b);
    lemma_render_append(a, lines(b));
}

#[verifier::spinoff_prover]
proof fn lemma_let_text(bs: Seq<(Seq<char>, ExprV)>, i: int, si: int, env: Map<Seq<char>, i32>, c: int, brk: Option<Seq<char>>)
    ensures
        1 <= i <= bs.len() ==> let_instrs(bs, i, si, env, c, brk).len() > 0 && let_spec(bs, i, si, env, c, brk).code
            == render_code(let_instrs(bs, i, si, env, c, brk)),
    decreases bs, i,
{
    if 1 <= i <= bs.len() {
        lemma_let_text(bs, i - 1, si, env, c, brk);
        let prev = let_spec(bs, i - 1, si, env, c, brk);
        let x = instrs_spec(bs[i - 1].1, prev.si, prev.env, prev.counter, brk);
        let ec = compile_spec(bs[i - 1].1, prev.si, prev.env, prev.counter, brk).0;
        law_code_is_instrs(bs[i - 1].1, prev.si, prev.env, prev.counter, brk);
        let off = slot_offset(prev.si);
        let li = let_instrs(bs, i - 1, si, env, c, brk);
        if i == 1 {
            lemma_store_after(ec, x, off);
            assert(li =~= Seq::<Instr>::empty());
            assert(let_instrs(bs, i, si, env, c, brk) =~= lines(x) + seq![Instr::MovSlotRax(off)]);
            assert(let_spec(bs, i, si, env, c, brk).code =~= ec + "\nmov [rbp - "@ + decimal(off) + "], rax"@);
        } else {
            lemma_binding_after(prev.code, li, ec, x, off);
        }
    }
}

#[verifier::spinoff_prover]
proof fn lemma_block_text(es: Seq<ExprV>, i: int, si: int, env: Map<Seq<char>, i32>, c: int, brk: Option<Seq<char>>)
    ensures
        block_spec(es, i, si, env, c, brk).0 == render_code(block_instrs(es, i, si, env, c, brk)),
    decreases es, i,
{
    if 1 <= i <= es.len() {
        lemma_block_text(es, i - 1, si, env, c, brk);
        let c1 = block_spec(es, i - 1, si, env, c, brk).1;
        law_code_is_instrs(es[i - 1], si, env, c1, brk);
        if i > 1 {
            lemma_join_lines(block_spec(es, i - 1, si, env, c, brk).0, block_instrs(es, i - 1, si, env, c, brk),
                compile_spec(es[i - 1], si, env, c1, brk).0, instrs_spec(es[i - 1], si, env, c1, brk));
        } else {
            assert(block_spec(es, 0, si, env, c, brk).1 == c);
        }
    }
}

} // verus!
