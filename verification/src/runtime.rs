//! What the run-time support of compiled Cobra programs computes: reading the
//! program's input, writing its result, and the messages of run-time errors.

use vstd::prelude::*;
use vstd::string::*;
use crate::text::{decimal, nat_digits, digit_char, push_decimal, str_eq};
use crate::cobra::compile::{TRUE_VAL, FALSE_VAL, tag_number, tag_bool};

verus! {

/// Whether a character is an ASCII decimal digit.
pub open spec fn is_digit(c: char) -> bool {
    '0' <= c && c <= '9'
}

/// The value of a digit character.
pub open spec fn digit_value(c: char) -> int {
    (c as int) - ('0' as int)
}

/// The value of a sequence of decimal digits, most significant first.
pub open spec fn digits_value(ds: Seq<char>) -> int
    decreases ds.len(),
{
    if ds.len() == 0 {
        0
    } else {
        digits_value(ds.drop_last()) * 10 + digit_value(ds.last())
    }
}

/// Whether every character is a digit.
pub open spec fn all_digits(ds: Seq<char>) -> bool {
    forall|i: int| 0 <= i < ds.len() ==> is_digit(#[trigger] ds[i])
}

/// The characters after an optional sign.
pub open spec fn unsigned_part(s: Seq<char>) -> Seq<char> {
    if s.len() > 0 && (s[0] == '+' || s[0] == '-') { s.skip(1) } else { s }
}

/// What `str::parse::<i64>` accepts: an optional `+` or `-`, then one or more
/// ASCII digits, whose value lies in the range of `i64`.
pub open spec fn parse_i64_spec(s: Seq<char>) -> Option<i64> {
    if s.len() == 0 {
        None
    } else {
        let neg = s[0] == '-';
        let ds = unsigned_part(s);
        if ds.len() == 0 || !all_digits(ds) {
            None
        } else {
            let v = if neg { -digits_value(ds) } else { digits_value(ds) };
            if i64::MIN <= v <= i64::MAX {
                Some(v as i64)
            } else {
                None
            }
        }
    }
}

/// The bound above which [`parse_i64`] stops accumulating digits.
pub const DIGITS_CAP: i128 = 9223372036854775809;

/// A partial value, held at [`DIGITS_CAP`] once it passes it.
pub open spec fn cap_value(v: int) -> int {
    if v <= DIGITS_CAP { v } else { DIGITS_CAP as int }
}

/// Reads a decimal integer as `str::parse::<i64>` does; `None` where that
/// reports an error.
pub fn parse_i64(s: &str) -> (r: Option<i64>)
    ensures
        r == parse_i64_spec(s@),
{
    let n = s.unicode_len();
    if n == 0 {
        return None;
    }
    let first = s.get_char(0);
    let neg = first == '-';
    let start: usize = if first == '+' || first == '-' { 1 } else { 0 };
    let ghost ds = unsigned_part(s@);
    assert(ds.len() == n - start);
    if start == n {
        return None;
    }
    let mut acc: i128 = 0;
    let mut i: usize = start;
    while i < n
        invariant
            start <= i <= n,
            n == s@.len(),
            n > 0,
            ds == unsigned_part(s@),
            ds.len() == n - start,
            forall|k: int| 0 <= k < ds.len() ==> #[trigger] ds[k] == s@[k + start],
            forall|k: int| 0 <= k < i - start ==> is_digit(#[trigger] ds[k]),
            acc == cap_value(digits_value(ds.take(i - start))),
            0 <= acc <= DIGITS_CAP,
        decreases n - i,
    {
        let c = s.get_char(i);
        if !('0' <= c && c <= '9') {
            proof {
                assert(ds[i - start] == c);
                assert(!is_digit(ds[i - start]));
                assert(!all_digits(ds));
                assert(parse_i64_spec(s@) is None);
            }
            return None;
        }
        proof {
            assert(ds.take(i - start + 1).drop_last() =~= ds.take(i - start));
            assert(ds.take(i - start + 1).last() == c);
            assert(digits_value(ds.take(i - start)) >= 0) by {
                lemma_digits_value_nonneg(ds.take(i - start));
            }
        }
        let d: i128 = (c as u32 - '0' as u32) as i128;
        let next = acc * 10 + d;
        acc = if next > DIGITS_CAP { DIGITS_CAP } else { next };
        i += 1;
    }
    proof {
        assert(ds.take(n - start) =~= ds);
    }
    let v: i128 = if neg { -acc } else { acc };
    if v < i64::MIN as i128 || v > i64::MAX as i128 {
        None
    } else {
        Some(v as i64)
    }
}

proof fn lemma_digits_value_nonneg(ds: Seq<char>)
    requires
        forall|i: int| 0 <= i < ds.len() ==> is_digit(#[trigger] ds[i]),
    ensures
        digits_value(ds) >= 0,
    decreases ds.len(),
{
    if ds.len() > 0 {
        lemma_digits_value_nonneg(ds.drop_last());
        assert(is_digit(ds[ds.len() - 1]));
    }
}

/// The run-time value that the program's input names: `true`, `false`, or a
/// number, shifted left by one bit (in 64-bit arithmetic).
pub open spec fn input_value(s: Seq<char>) -> i64 {
    if s == "true"@ {
        TRUE_VAL
    } else if s == "false"@ {
        FALSE_VAL
    } else {
        parse_i64_spec(s)->0 << 1
    }
}

/// Reads the input of a compiled program into its run-time value.
pub fn parse_input(input: &str) -> (v: i64)
    requires
        input@ == "true"@ || input@ == "false"@ || parse_i64_spec(input@) is Some,
    ensures
        v == input_value(input@),
{
    if str_eq(input, "true") {
        3
    } else if str_eq(input, "false") {
        1
    } else {
        match parse_i64(input) {
            Some(n) => n << 1,
            None => {
                proof { assert(false); }
                0
            },
        }
    }
}

/// The line that the runtime prints for a program's result `v`.
pub open spec fn value_text_spec(v: i64) -> Seq<char> {
    if v == 3 {
        "true"@
    } else if v == 1 {
        "false"@
    } else if v & 1 == 0 {
        decimal((v >> 1) as int)
    } else {
        "unknown value: "@ + decimal(v as int)
    }
}

/// The line that the runtime prints for a program's result `v`: the boolean
/// or the number that `v` holds.
pub fn value_text(v: i64) -> (s: String)
    ensures
        s@ == value_text_spec(v),
{
    if v == 3 {
        "true".to_owned()
    } else if v == 1 {
        "false".to_owned()
    } else if v & 1 == 0 {
        let mut s = String::new();
        push_decimal(&mut s, v >> 1);
        s
    } else {
        let mut s = "unknown value: ".to_owned();
        push_decimal(&mut s, v);
        s
    }
}

/// The message of a run-time error with code `errcode`.
pub open spec fn error_message_spec(errcode: i64) -> Seq<char> {
    if errcode == 1 {
        "invalid argument"@
    } else if errcode == 2 {
        "overflow"@
    } else {
        "an error occurred "@ + decimal(errcode as int)
    }
}

/// The message that the runtime prints for a run-time error with code
/// `errcode`: 1 for an operand of the wrong type, 2 for an overflow.
pub fn error_message(errcode: i64) -> (s: String)
    ensures
        s@ == error_message_spec(errcode),
{
    if errcode == 1 {
        "invalid argument".to_owned()
    } else if errcode == 2 {
        "overflow".to_owned()
    } else {
        let mut s = "an error occurred ".to_owned();
        push_decimal(&mut s, errcode);
        s
    }
}


proof fn lemma_digit_char(d: int)
    requires
        0 <= d < 10,
    ensures
        is_digit(digit_char(d)),
        digit_value(digit_char(d)) == d,
{
}

/// The decimal digits of a natural number are digits, at least one, and
/// read back as the number.
pub proof fn lemma_nat_digits(m: nat)
    ensures
        nat_digits(m).len() >= 1,
        all_digits(nat_digits(m)),
        digits_value(nat_digits(m)) == m,
    decreases m,
{
    lemma_digit_char((m % 10) as int);
    if m >= 10 {
        lemma_nat_digits(m / 10);
        let ds = nat_digits(m);
        assert(ds.drop_last() =~= nat_digits(m / 10));
        assert(ds.last() == digit_char((m % 10) as int));
        assert(digits_value(ds) == digits_value(nat_digits(m / 10)) * 10 + digit_value(digit_char((m % 10) as int)));
        assert((m / 10) * 10 + m % 10 == m);
        assert forall|i: int| 0 <= i < ds.len() implies is_digit(#[trigger] ds[i]) by {
            if i < ds.len() - 1 {
                assert(ds[i] == nat_digits(m / 10)[i]);
            }
        }
    } else {
        assert(nat_digits(m) =~= seq![digit_char(m as int)]);
        assert(nat_digits(m).drop_last() =~= Seq::<char>::empty());
        assert(digits_value(Seq::<char>::empty()) == 0);
        assert(nat_digits(m).last() == digit_char(m as int));
        assert(m % 10 == m);
    }
}

/// Reading back the decimal form of an `i64` gives the number: what
/// `Display` writes, `str::parse` reads.
pub proof fn law_decimal_roundtrip(n: i64)
    ensures
        parse_i64_spec(decimal(n as int)) == Some(n),
{
    if n < 0 {
        let m = (-n) as nat;
        lemma_nat_digits(m);
        let s = decimal(n as int);
        assert(s.skip(1) =~= nat_digits(m));
        assert(unsigned_part(s) == nat_digits(m));
    } else {
        lemma_nat_digits(n as nat);
        let s = decimal(n as int);
        assert(is_digit(s[0]));
        assert(unsigned_part(s) == s);
    }
}

/// Distinct integers have distinct decimal forms.
pub proof fn law_decimal_injective(a: i64, b: i64)
    requires
        decimal(a as int) == decimal(b as int),
    ensures
        a == b,
{
    law_decimal_roundtrip(a);
    law_decimal_roundtrip(b);
}

/// The tags tell numbers from booleans: a number's run-time value has its
/// lowest bit clear, a boolean's has it set.
pub proof fn law_tags_disjoint(n: i32, b: bool)
    ensures
        tag_number(n as int) % 2 == 0,
        tag_bool(b) % 2 == 1,
        tag_bool(true) != tag_bool(false),
{
}

/// The runtime prints the run-time value of a number literal as the number,
/// and the run-time value of a boolean as `true` or `false`.
pub proof fn law_print_tagged(n: i32, b: bool)
    ensures
        value_text_spec(tag_number(n as int) as i64) == decimal(n as int),
        value_text_spec(tag_bool(b) as i64) == (if b { "true"@ } else { "false"@ }),
{
    let w: i64 = n as i64;
    assert(-0x8000_0000 <= w < 0x8000_0000);
    assert((w * 2) as i64 & 1 == 0 && (w * 2) as i64 >> 1 == w) by (bit_vector)
        requires
            -0x8000_0000 <= w < 0x8000_0000,
    ;
}

/// The runtime reads an input number as the compiled code holds the same
/// number, and prints that value back as the input it read; it reads `true`
/// and `false` as the booleans' values and prints them back.
pub proof fn law_input_roundtrip(n: i64)
    requires
        -0x4000_0000_0000_0000 <= n < 0x4000_0000_0000_0000,
    ensures
        input_value(decimal(n as int)) == tag_number(n as int),
        value_text_spec(input_value(decimal(n as int))) == decimal(n as int),
        input_value("true"@) == tag_bool(true),
        input_value("false"@) == tag_bool(false),
        value_text_spec(input_value("true"@)) == "true"@,
        value_text_spec(input_value("false"@)) == "false"@,
{
    law_decimal_roundtrip(n);
    lemma_nat_digits(if n < 0 { (-n) as nat } else { n as nat });
    let s = decimal(n as int);
    reveal_strlit("true");
    reveal_strlit("false");
    assert("true"@.len() == 4);
    assert("false"@.len() == 5);
    assert(s != "true"@) by {
        if n >= 0 {
            assert(is_digit(s[0]));
        }
    }
    assert(s != "false"@) by {
        if n >= 0 {
            assert(is_digit(s[0]));
        }
    }
    assert((n << 1) == (n * 2) as i64 && ((n * 2) as i64) & 1 == 0 && ((n * 2) as i64) >> 1 == n
        && (n * 2) as i64 == n * 2) by (bit_vector)
        requires
            -0x4000_0000_0000_0000 <= n < 0x4000_0000_0000_0000,
    ;
}

} // verus!
