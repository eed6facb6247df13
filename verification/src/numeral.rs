//! The plain dot-decimal numeral: an optional sign, digits, and at most one
//! dot. The functions here say which character sequences are numerals and
//! what mantissa, scale and sign a numeral denotes.

use vstd::prelude::*;
use crate::digits::{is_digit, digits_val};

verus! {

/// Number of characters taken by the sign, zero or one.
pub open spec fn sign_len(s: Seq<char>) -> nat {
    if s.len() > 0 && (s.first() == '+' || s.first() == '-') {
        1
    } else {
        0
    }
}

/// True when the numeral carries a minus sign.
pub open spec fn is_negative(s: Seq<char>) -> bool {
    s.len() > 0 && s.first() == '-'
}

/// The numeral after its sign: digits and at most one dot.
pub open spec fn body(s: Seq<char>) -> Seq<char> {
    s.skip(sign_len(s) as int)
}

/// True when the body holds a dot.
pub open spec fn has_dot(b: Seq<char>) -> bool {
    exists|i: int| 0 <= i < b.len() && b[i] == '.'
}

/// The index of the dot; meaningful only when the body holds exactly one.
pub open spec fn dot_at(b: Seq<char>) -> int {
    choose|i: int| 0 <= i < b.len() && b[i] == '.'
}

/// A well-formed body: only digits and dots, at most one dot, and at least
/// one digit.
pub open spec fn valid_body(b: Seq<char>) -> bool {
    &&& forall|i: int| 0 <= i < b.len() ==> is_digit(b[i]) || b[i] == '.'
    &&& forall|i: int, j: int|
        0 <= i < b.len() && 0 <= j < b.len() && b[i] == '.' && b[j] == '.' ==> i == j
    &&& exists|i: int| 0 <= i < b.len() && is_digit(b[i])
}

/// A well-formed plain numeral: an optional sign followed by a well-formed
/// body.
pub open spec fn valid_numeral(s: Seq<char>) -> bool {
    valid_body(body(s))
}

/// The digits before the dot.
pub open spec fn int_part(b: Seq<char>) -> Seq<char> {
    if has_dot(b) {
        b.take(dot_at(b))
    } else {
        b
    }
}

/// The digits after the dot.
pub open spec fn frac_part(b: Seq<char>) -> Seq<char> {
    if has_dot(b) {
        b.skip(dot_at(b) + 1)
    } else {
        Seq::empty()
    }
}

/// How many places the denoted value is shifted right of the digits: the
/// count of fraction digits.
pub open spec fn scale_of(s: Seq<char>) -> nat {
    frac_part(body(s)).len()
}

/// The digits of the numeral with the dot elided, read as a natural number.
pub open spec fn mantissa_of(s: Seq<char>) -> nat {
    digits_val(int_part(body(s)) + frac_part(body(s)))
}

} // verus!
