//! Decimal digits: their values, powers of ten, and the decimal notation of a
//! natural number.

use vstd::prelude::*;

verus! {

/// True for the ten ASCII digit characters.
pub open spec fn is_digit(c: char) -> bool {
    '0' <= c && c <= '9'
}

/// The numeric value of an ASCII digit character.
pub open spec fn digit_val(c: char) -> nat {
    (c as nat - '0' as nat) as nat
}

/// The ASCII digit character for a value below ten.
pub open spec fn digit_char(d: nat) -> char {
    if d == 0 { '0' }
    else if d == 1 { '1' }
    else if d == 2 { '2' }
    else if d == 3 { '3' }
    else if d == 4 { '4' }
    else if d == 5 { '5' }
    else if d == 6 { '6' }
    else if d == 7 { '7' }
    else if d == 8 { '8' }
    else { '9' }
}

/// Ten to the power `n`.
pub open spec fn pow10(n: nat) -> nat
    decreases n,
{
    if n == 0 { 1 } else { 10 * pow10((n - 1) as nat) }
}

/// The value of a sequence of digit characters read in the usual way, most
/// significant digit first. Defined for any character sequence; meaningful
/// when every character is a digit.
pub open spec fn digits_val(s: Seq<char>) -> nat
    decreases s.len(),
{
    if s.len() == 0 {
        0
    } else {
        digits_val(s.drop_last()) * 10 + digit_val(s.last())
    }
}

/// The decimal notation of `n`: no sign, no leading zero except for zero
/// itself.
pub open spec fn dec_digits(n: nat) -> Seq<char>
    decreases n,
{
    if n < 10 {
        seq![digit_char(n)]
    } else {
        dec_digits(n / 10) + seq![digit_char(n % 10)]
    }
}

/// Powers of ten are positive.
pub proof fn lemma_pow10_pos(n: nat)
    ensures
        pow10(n) >= 1,
    decreases n,
{
    if n > 0 {
        lemma_pow10_pos((n - 1) as nat);
    }
}

/// Powers of ten grow with the exponent.
pub proof fn lemma_pow10_increases(m: nat, n: nat)
    requires
        m <= n,
    ensures
        pow10(m) <= pow10(n),
    decreases n,
{
    if m < n {
        lemma_pow10_increases(m, (n - 1) as nat);
        lemma_pow10_pos((n - 1) as nat);
    }
}

/// Reading the digits of `a` followed by those of `b` shifts the value of
/// `a` left by the length of `b`.
pub proof fn lemma_digits_val_append(a: Seq<char>, b: Seq<char>)
    ensures
        digits_val(a + b) == digits_val(a) * pow10(b.len()) + digits_val(b),
    decreases b.len(),
{
    if b.len() == 0 {
        assert(a + b =~= a);
        assert(pow10(b.len()) == 1);
        assert(digits_val(b) == 0);
        assert(digits_val(a + b) == digits_val(a) * pow10(b.len()) + digits_val(b));
    } else {
        lemma_digits_val_append(a, b.drop_last());
        assert((a + b).drop_last() =~= a + b.drop_last());
        assert((a + b).last() == b.last());
        let va = digits_val(a);
        let p = pow10((b.len() - 1) as nat);
        assert(pow10(b.len()) == 10 * p);
        assert(digits_val(a + b) == digits_val(a + b.drop_last()) * 10 + digit_val(b.last()));
        assert(digits_val(a + b.drop_last()) == va * p + digits_val(b.drop_last()));
        assert((va * p + digits_val(b.drop_last())) * 10 == (va * p) * 10 + digits_val(
            b.drop_last(),
        ) * 10) by (nonlinear_arith);
        assert((va * p) * 10 == va * (10 * p)) by (nonlinear_arith);
        assert(digits_val(b) == digits_val(b.drop_last()) * 10 + digit_val(b.last()));
        assert(digits_val(a + b) == va * (10 * p) + digits_val(b));
        assert(digits_val(a + b) == digits_val(a) * pow10(b.len()) + digits_val(b));
    }
}

/// A value read from some of the leading digits never exceeds the value read
/// from all of them.
pub proof fn lemma_digits_val_prefix(a: Seq<char>, b: Seq<char>)
    ensures
        digits_val(a + b) >= digits_val(a),
{
    lemma_digits_val_append(a, b);
    lemma_pow10_pos(b.len());
    let va = digits_val(a);
    let p = pow10(b.len());
    assert(va * p >= va * 1) by (nonlinear_arith)
        requires
            p >= 1,
            va >= 0,
    ;
}

/// Decimal notation round-trips: its digits are digit characters, there is
/// at least one, and they read back as the number itself.
pub proof fn lemma_dec_digits(n: nat)
    ensures
        dec_digits(n).len() >= 1,
        forall|i: int| 0 <= i < dec_digits(n).len() ==> is_digit(#[trigger] dec_digits(n)[i]),
        digits_val(dec_digits(n)) == n,
    decreases n,
{
    if n < 10 {
        assert(digits_val(dec_digits(n).drop_last()) == 0);
    } else {
        lemma_dec_digits(n / 10);
        let d = dec_digits(n / 10);
        let whole = dec_digits(n);
        assert(whole =~= d + seq![digit_char(n % 10)]);
        assert(whole.drop_last() =~= d);
        assert(digits_val(whole) == digits_val(d) * 10 + digit_val(digit_char(n % 10)));
    }
}

/// `digit_char` yields a digit character that reads back as the value it was
/// given.
pub proof fn lemma_digit_char_val(d: nat)
    requires
        d < 10,
    ensures
        is_digit(digit_char(d)),
        digit_val(digit_char(d)) == d,
{
}

/// Exponents add under multiplication of powers of ten.
pub proof fn lemma_pow10_adds(a: nat, b: nat)
    ensures
        pow10(a) * pow10(b) == pow10(a + b),
    decreases a,
{
    if a == 0 {
        assert(1 * pow10(b) == pow10(b)) by (nonlinear_arith);
    } else {
        lemma_pow10_adds((a - 1) as nat, b);
        let p = pow10((a - 1) as nat);
        assert((10 * p) * pow10(b) == 10 * (p * pow10(b))) by (nonlinear_arith);
    }
}

/// The one-character string for a digit value below ten.
pub fn digit_str(d: u8) -> (s: &'static str)
    requires
        d < 10,
    ensures
        s@ == seq![digit_char(d as nat)],
{
    proof {
        reveal_strlit("0");
        reveal_strlit("1");
        reveal_strlit("2");
        reveal_strlit("3");
        reveal_strlit("4");
        reveal_strlit("5");
        reveal_strlit("6");
        reveal_strlit("7");
        reveal_strlit("8");
        reveal_strlit("9");
    }
    let s: &'static str = match d {
        0 => "0",
        1 => "1",
        2 => "2",
        3 => "3",
        4 => "4",
        5 => "5",
        6 => "6",
        7 => "7",
        8 => "8",
        _ => "9",
    };
    proof {
        assert(s@ =~= seq![digit_char(d as nat)]);
    }
    s
}

} // verus!
