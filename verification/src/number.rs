//! The numeric literal grammar: exactly the strings that parse as a
//! double-precision float, per the documented grammar
//!
//! ```text
//! Float  ::= Sign? ( 'inf' | 'infinity' | 'nan' | Number )
//! Number ::= Count '.'? Exp? | '.' Count Exp? | Count '.' Count Exp?
//! Exp    ::= ('e' | 'E') Sign? Count
//! Count  ::= Digit+
//! ```
//!
//! with `inf`, `infinity` and `nan` matched ignoring ASCII case.

use vstd::prelude::*;
use vstd::string::*;

use crate::text::{all_digits, is_digit, lower_code, spec_eq_ignore_case, eq_ignore_case, first_idx, lemma_first_idx_from_chars, lemma_first_idx_range};

verus! {

/// An optional leading sign, dropped.
pub open spec fn spec_strip_sign(s: Seq<char>) -> Seq<char> {
    if s.len() > 0 && (s[0] == '+' || s[0] == '-') {
        s.drop_first()
    } else {
        s
    }
}

/// `inf`, `infinity` or `nan`, ignoring ASCII case.
pub open spec fn is_special_body(s: Seq<char>) -> bool {
    spec_eq_ignore_case(s, "inf"@) || spec_eq_ignore_case(s, "infinity"@) || spec_eq_ignore_case(
        s,
        "nan"@,
    )
}

/// Digits with at most one dot somewhere, and at least one digit.
pub open spec fn is_mantissa(s: Seq<char>) -> bool {
    let d = first_idx(s, |c: char| c == '.');
    if d == -1 {
        all_digits(s)
    } else {
        let left = s.subrange(0, d);
        let right = s.subrange(d + 1, s.len() as int);
        &&& (all_digits(left) || left.len() == 0)
        &&& (all_digits(right) || right.len() == 0)
        &&& (left.len() > 0 || right.len() > 0)
    }
}

/// An exponent: optional sign, then digits.
pub open spec fn is_exp_part(s: Seq<char>) -> bool {
    all_digits(spec_strip_sign(s))
}

/// A mantissa, optionally followed by an exponent marker and exponent.
pub open spec fn is_number_body(s: Seq<char>) -> bool {
    let e = first_idx(s, |c: char| c == 'e' || c == 'E');
    if e == -1 {
        is_mantissa(s)
    } else {
        is_mantissa(s.subrange(0, e)) && is_exp_part(s.subrange(e + 1, s.len() as int))
    }
}

/// The strings that parse as a double-precision float.
pub open spec fn spec_is_numeric(s: Seq<char>) -> bool {
    let body = spec_strip_sign(s);
    is_special_body(body) || is_number_body(body)
}

/// A numeric literal is never empty, and opens with a sign, a digit, a
/// dot, or a letter of `inf` or `nan` — never a quote or a bracket.
pub proof fn lemma_numeric_first_char(t: Seq<char>)
    requires
        spec_is_numeric(t),
    ensures
        t.len() > 0,
        t[0] == '+' || t[0] == '-' || is_digit(t[0]) || t[0] == '.' || lower_code(t[0] as u32)
            == 105 || lower_code(t[0] as u32) == 110,
{
    let body = spec_strip_sign(t);
    if is_special_body(body) {
        assert(body.len() > 0) by {
            reveal_strlit("inf");
            reveal_strlit("infinity");
            reveal_strlit("nan");
        }
        if t.len() > 0 && (t[0] == '+' || t[0] == '-') {
        } else {
            assert(body == t);
            proof_special_first(body);
        }
    } else {
        assert(is_number_body(body));
        lemma_number_body_first_char(body);
        if t.len() > 0 && (t[0] == '+' || t[0] == '-') {
        } else {
            assert(body == t);
        }
    }
}

proof fn proof_special_first(body: Seq<char>)
    requires
        is_special_body(body),
        body.len() > 0,
    ensures
        lower_code(body[0] as u32) == 105 || lower_code(body[0] as u32) == 110,
{
    reveal_strlit("inf");
    reveal_strlit("infinity");
    reveal_strlit("nan");
    if spec_eq_ignore_case(body, "inf"@) {
        assert(lower_code(body[0] as u32) == lower_code("inf"@[0] as u32));
    } else if spec_eq_ignore_case(body, "infinity"@) {
        assert(lower_code(body[0] as u32) == lower_code("infinity"@[0] as u32));
    } else {
        assert(lower_code(body[0] as u32) == lower_code("nan"@[0] as u32));
    }
}

/// A well-formed mantissa-with-exponent body opens with a digit or a dot.
proof fn lemma_number_body_first_char(body: Seq<char>)
    requires
        is_number_body(body),
    ensures
        body.len() > 0,
        is_digit(body[0]) || body[0] == '.',
{
    let e = first_idx(body, |c: char| c == 'e' || c == 'E');
    lemma_first_idx_range(body, |c: char| c == 'e' || c == 'E');
    let mant = if e == -1 {
        body
    } else {
        body.subrange(0, e)
    };
    assert(is_mantissa(mant));
    lemma_mantissa_first_char(mant);
    if e == -1 {
    } else {
        assert(mant.len() > 0);
        assert(body[0] == mant[0]);
    }
}

proof fn lemma_mantissa_first_char(mant: Seq<char>)
    requires
        is_mantissa(mant),
    ensures
        mant.len() > 0,
        is_digit(mant[0]) || mant[0] == '.',
{
    let d = first_idx(mant, |c: char| c == '.');
    lemma_first_idx_range(mant, |c: char| c == '.');
    if d == -1 {
        assert(all_digits(mant));
        assert(is_digit(mant[0]));
    } else {
        let left = mant.subrange(0, d);
        if left.len() > 0 {
            assert(all_digits(left));
            assert(left[0] == mant[0]);
            assert(is_digit(mant[0]));
        } else {
            assert(d == 0);
            assert(mant[0] == '.');
        }
    }
}

/// A numeric literal never ends in whitespace: its last character is a
/// digit, a dot, or a letter of `inf`, `infinity` or `nan`.
pub proof fn lemma_numeric_last_char(t: Seq<char>)
    requires
        spec_is_numeric(t),
    ensures
        t.len() > 0,
        !crate::text::is_space(t.last()),
{
    let body = spec_strip_sign(t);
    if is_special_body(body) {
        reveal_strlit("inf");
        reveal_strlit("infinity");
        reveal_strlit("nan");
        assert(body.len() > 0);
        assert(body.last() == t.last());
        if spec_eq_ignore_case(body, "inf"@) {
            assert(lower_code(body[body.len() - 1] as u32) == lower_code(
                "inf"@[body.len() - 1] as u32,
            ));
        } else if spec_eq_ignore_case(body, "infinity"@) {
            assert(lower_code(body[body.len() - 1] as u32) == lower_code(
                "infinity"@[body.len() - 1] as u32,
            ));
        } else {
            assert(lower_code(body[body.len() - 1] as u32) == lower_code(
                "nan"@[body.len() - 1] as u32,
            ));
        }
    } else {
        assert(is_number_body(body));
        lemma_number_body_last_char(body);
        assert(body.last() == t.last());
    }
}

proof fn lemma_number_body_last_char(body: Seq<char>)
    requires
        is_number_body(body),
    ensures
        body.len() > 0,
        is_digit(body.last()) || body.last() == '.',
{
    let e = first_idx(body, |c: char| c == 'e' || c == 'E');
    lemma_first_idx_range(body, |c: char| c == 'e' || c == 'E');
    if e == -1 {
        lemma_mantissa_last_char(body);
    } else {
        let expp = body.subrange(e + 1, body.len() as int);
        assert(is_exp_part(expp));
        let digits = spec_strip_sign(expp);
        assert(all_digits(digits));
        assert(digits.len() > 0);
        if expp.len() > 0 && (expp[0] == '+' || expp[0] == '-') {
            assert(digits.last() == expp.last());
        } else {
            assert(digits == expp);
        }
        assert(is_digit(digits.last()));
        assert(expp.len() > 0);
        assert(expp.last() == body.last());
    }
}

proof fn lemma_mantissa_last_char(mant: Seq<char>)
    requires
        is_mantissa(mant),
    ensures
        mant.len() > 0,
        is_digit(mant.last()) || mant.last() == '.',
{
    let d = first_idx(mant, |c: char| c == '.');
    lemma_first_idx_range(mant, |c: char| c == '.');
    if d == -1 {
        assert(all_digits(mant));
        assert(is_digit(mant.last()));
    } else {
        let right = mant.subrange(d + 1, mant.len() as int);
        if right.len() > 0 {
            assert(all_digits(right));
            assert(right.last() == mant.last());
            assert(is_digit(mant.last()));
        } else {
            assert(d == mant.len() - 1);
            assert(mant.last() == '.');
        }
    }
}

/// Whether every character is a decimal digit and there is at least one.
pub fn is_all_digits(s: &str) -> (r: bool)
    ensures
        r == all_digits(s@),
{
    let len = s.unicode_len();
    if len == 0 {
        return false;
    }
    let mut i: usize = 0;
    while i < len
        invariant
            0 <= i <= len,
            len == s@.len(),
            forall|j: int| 0 <= j < i ==> is_digit(#[trigger] s@[j]),
        decreases len - i,
    {
        let x = s.get_char(i) as u32;
        if !(48 <= x && x <= 57) {
            return false;
        }
        i = i + 1;
    }
    true
}

fn find_first_dot(s: &str) -> (r: Option<usize>)
    ensures
        ({
            let d = first_idx(s@, |c: char| c == '.');
            match r {
                Some(i) => d == i && i < s@.len(),
                None => d == -1,
            }
        }),
{
    let len = s.unicode_len();
    let mut i: usize = 0;
    while i < len
        invariant
            0 <= i <= len,
            len == s@.len(),
            forall|j: int| 0 <= j < i ==> s@[j] != '.',
        decreases len - i,
    {
        if s.get_char(i) == '.' {
            proof {
                lemma_first_idx_from_chars(s@, |c: char| c == '.', i as int);
            }
            return Some(i);
        }
        i = i + 1;
    }
    proof {
        lemma_first_idx_from_chars(s@, |c: char| c == '.', len as int);
    }
    None
}

fn find_first_exp(s: &str) -> (r: Option<usize>)
    ensures
        ({
            let e = first_idx(s@, |c: char| c == 'e' || c == 'E');
            match r {
                Some(i) => e == i && i < s@.len(),
                None => e == -1,
            }
        }),
{
    let len = s.unicode_len();
    let mut i: usize = 0;
    while i < len
        invariant
            0 <= i <= len,
            len == s@.len(),
            forall|j: int| 0 <= j < i ==> !(s@[j] == 'e' || s@[j] == 'E'),
        decreases len - i,
    {
        let c = s.get_char(i);
        if c == 'e' || c == 'E' {
            proof {
                lemma_first_idx_from_chars(s@, |c: char| c == 'e' || c == 'E', i as int);
            }
            return Some(i);
        }
        i = i + 1;
    }
    proof {
        lemma_first_idx_from_chars(s@, |c: char| c == 'e' || c == 'E', len as int);
    }
    None
}

fn check_mantissa(s: &str) -> (r: bool)
    ensures
        r == is_mantissa(s@),
{
    let len = s.unicode_len();
    match find_first_dot(s) {
        None => is_all_digits(s),
        Some(d) => {
            let left = s.substring_char(0, d);
            let right = s.substring_char(d + 1, len);
            let left_ok = left.unicode_len() == 0 || is_all_digits(left);
            let right_ok = right.unicode_len() == 0 || is_all_digits(right);
            let some_digit = left.unicode_len() > 0 || right.unicode_len() > 0;
            left_ok && right_ok && some_digit
        },
    }
}

fn check_exp(s: &str) -> (r: bool)
    ensures
        r == is_exp_part(s@),
{
    let len = s.unicode_len();
    let start: usize = if len > 0 {
        let c = s.get_char(0);
        if c == '+' || c == '-' {
            1
        } else {
            0
        }
    } else {
        0
    };
    let rest = s.substring_char(start, len);
    proof {
        assert(rest@ =~= spec_strip_sign(s@));
    }
    is_all_digits(rest)
}

/// Whether `s` is a numeric literal.
pub fn is_numeric(s: &str) -> (r: bool)
    ensures
        r == spec_is_numeric(s@),
{
    let len = s.unicode_len();
    let start: usize = if len > 0 {
        let c = s.get_char(0);
        if c == '+' || c == '-' {
            1
        } else {
            0
        }
    } else {
        0
    };
    let body = s.substring_char(start, len);
    proof {
        assert(body@ =~= spec_strip_sign(s@));
    }
    if eq_ignore_case(body, "inf") || eq_ignore_case(body, "infinity") || eq_ignore_case(
        body,
        "nan",
    ) {
        return true;
    }
    let blen = body.unicode_len();
    match find_first_exp(body) {
        None => check_mantissa(body),
        Some(e) => {
            let mant = body.substring_char(0, e);
            let expp = body.substring_char(e + 1, blen);
            check_mantissa(mant) && check_exp(expp)
        },
    }
}

} // verus!
