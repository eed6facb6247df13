//! The laws the parser and the renderer obey, proved once and for all:
//! a plain dot-decimal numeral is read at face value, a comma-decimal
//! numeral without dots is read with the comma as decimal point, and a
//! rendered price reads back as the rendered value, which is within half a
//! hundredth of the price.

use vstd::prelude::*;
use crate::digits::{
    dec_digits, digit_char, digit_val, digits_val, is_digit, lemma_digit_char_val,
    lemma_digits_val_append, lemma_dec_digits, lemma_pow10_adds, lemma_pow10_pos, pow10,
};
use crate::numeral::{
    body, frac_part, int_part, is_negative, mantissa_of, scale_of, sign_len, valid_body,
    valid_numeral,
};
use crate::parse::{lemma_dot_is_unique, numeral_ok, price_of, spec_parse, within_limits};
use crate::price::{Price, MANTISSA_LIMIT, SCALE_LIMIT};
use crate::render::{format_spec, round_cents, spec_cents};
use crate::text::{
    alt_form, is_space, lemma_alt_form_append, lemma_alt_form_plain, lemma_trim_of_trimmed, trim,
};

verus! {

/// A digit character is none of the characters the parser treats specially.
proof fn lemma_digit_is_plain(c: char)
    requires
        is_digit(c),
    ensures
        !is_space(c),
        c != '.',
        c != ',',
        c != '+',
        c != '-',
{
}

/// Parsing reads a plain dot-decimal numeral at face value.
///
/// Whenever the trimmed text is a well-formed plain numeral within the
/// bounds of `Price`, parsing the text succeeds and yields exactly the sign,
/// mantissa and scale that the standard decimal reading of the trimmed text
/// denotes; the comma-decimal reinterpretation is never consulted.
pub proof fn lemma_parse_plain_numeral(text: Seq<char>)
    requires
        valid_numeral(trim(text)),
        within_limits(trim(text)),
    ensures
        spec_parse(text) == Some(price_of(trim(text))),
        price_of(trim(text)).negative == is_negative(trim(text)),
        price_of(trim(text)).mantissa as nat == mantissa_of(trim(text)),
        price_of(trim(text)).scale as nat == scale_of(trim(text)),
{
}

/// Parsing reads `<int>,<frac>` with the comma as the decimal point.
///
/// For any two nonempty digit strings, the text made of the first, a comma
/// and the second is no plain numeral, and parsing it yields the positive
/// price whose digits are the two strings run together and whose scale is
/// the length of the second: the value `int.frac`.
pub proof fn lemma_parse_comma_decimal(ip: Seq<char>, fp: Seq<char>)
    requires
        ip.len() >= 1,
        fp.len() >= 1,
        forall|i: int| 0 <= i < ip.len() ==> is_digit(ip[i]),
        forall|i: int| 0 <= i < fp.len() ==> is_digit(fp[i]),
        digits_val(ip + fp) < MANTISSA_LIMIT,
        fp.len() <= SCALE_LIMIT,
    ensures
        spec_parse(ip + seq![','] + fp) == Some(
            Price {
                negative: false,
                mantissa: digits_val(ip + fp) as u128,
                scale: fp.len() as u32,
            },
        ),
{
    let s = ip + seq![','] + fp;
    assert(s.len() == ip.len() + 1 + fp.len());
    assert(s.first() == ip[0]);
    assert(s.last() == fp.last());
    lemma_digit_is_plain(ip[0]);
    lemma_digit_is_plain(fp.last());
    lemma_trim_of_trimmed(s);
    assert(trim(s) == s);

    // The plain pass fails: the comma is neither digit nor dot.
    assert(sign_len(s) == 0);
    assert(body(s) =~= s);
    let ci = ip.len() as int;
    assert(s[ci] == ',');
    assert(!(is_digit(s[ci]) || s[ci] == '.'));
    assert(!valid_body(s));

    // The reinterpretation turns the comma into the dot.
    lemma_alt_form_append(ip + seq![','], fp);
    lemma_alt_form_append(ip, seq![',']);
    lemma_alt_form_plain(ip);
    lemma_alt_form_plain(fp);
    assert(alt_form(seq![',']) =~= seq!['.']) by {
        reveal_with_fuel(alt_form, 3);
        assert(seq![','].drop_last() =~= Seq::<char>::empty());
    }
    let a = ip + seq!['.'] + fp;
    assert(alt_form(s) =~= a);

    // The reinterpretation is a well-formed numeral.
    assert(a.first() == ip[0]);
    assert(sign_len(a) == 0);
    let b = body(a);
    assert(b =~= a);
    assert(forall|i: int| 0 <= i < b.len() && i != ci ==> is_digit(#[trigger] b[i]));
    assert forall|i: int, j: int|
        0 <= i < b.len() && 0 <= j < b.len() && b[i] == '.' && b[j] == '.' implies i == j by {
        lemma_digit_is_plain(ip[0]);
        if i != ci {
            assert(is_digit(b[i]));
            lemma_digit_is_plain(b[i]);
        }
        if j != ci {
            assert(is_digit(b[j]));
            lemma_digit_is_plain(b[j]);
        }
    }
    assert(is_digit(b[0]));
    assert(valid_body(b));
    lemma_dot_is_unique(b, ci);
    assert(int_part(b) =~= ip);
    assert(frac_part(b) =~= fp);
    assert(mantissa_of(a) == digits_val(ip + fp));
    assert(scale_of(a) == fp.len());
    assert(numeral_ok(a));
    assert(!is_negative(a));
    assert(spec_parse(s) == Some(price_of(a)));
}

/// The price a rendered text denotes: the rendered hundredths over a scale
/// of two.
pub open spec fn rounded_price(p: Price) -> Price {
    Price { negative: p.negative, mantissa: spec_cents(p) as u128, scale: 2 }
}

/// Rendering a price and parsing the text back yields the rendered value,
/// rendering is idempotent, and the rendered value is within half a
/// hundredth of the price.
///
/// For any price within bounds whose rendered hundredths stay below the
/// parser's mantissa bound: parsing the rendered text succeeds and yields
/// exactly the rendered hundredths at scale two with the sign kept, so that
/// rendering the parsed price gives the first text again; and the rendered
/// magnitude `c/100` differs from the price's magnitude `m/10^scale` by at
/// most `1/200` — stated below multiplied through by `2 * 10^scale`.
pub proof fn lemma_render_reparse(p: Price)
    requires
        p.wf(),
        spec_cents(p) < MANTISSA_LIMIT,
    ensures
        spec_parse(format_spec(p)) == Some(rounded_price(p)),
        format_spec(rounded_price(p)) == format_spec(p),
        ({
            let c = spec_cents(p) as int;
            let m = p.mantissa as int;
            let ps = pow10(p.scale as nat) as int;
            -ps < 2 * (c * ps - 100 * m) <= ps
        }),
{
    let c = spec_cents(p);
    let f = format_spec(p);
    let w = c / 100;
    let d1 = digit_char((c / 10) % 10);
    let d0 = digit_char(c % 10);
    let u = dec_digits(w) + seq!['.'] + seq![d1, d0];
    lemma_dec_digits(w);
    lemma_digit_char_val((c / 10) % 10);
    lemma_digit_char_val(c % 10);

    // The rendered text carries no whitespace at either end.
    assert(u.first() == dec_digits(w)[0]);
    assert(is_digit(u.first()));
    lemma_digit_is_plain(u.first());
    assert(u.last() == d0);
    lemma_digit_is_plain(d0);
    if p.negative {
        assert(f =~= seq!['-'] + u);
        assert(f.first() == '-');
        assert(!is_space('-'));
    } else {
        assert(f =~= u);
    }
    lemma_trim_of_trimmed(f);
    assert(trim(f) == f);

    // Sign and body of the rendered text.
    if p.negative {
        assert(sign_len(f) == 1);
        assert(body(f) =~= u);
        assert(is_negative(f));
    } else {
        assert(sign_len(f) == 0);
        assert(body(f) =~= u);
        assert(!is_negative(f));
    }

    // The body is a well-formed numeral with the dot after the whole part.
    let li = dec_digits(w).len() as int;
    assert(u[li] == '.');
    assert(forall|i: int| 0 <= i < li ==> is_digit(#[trigger] u[i]));
    assert(u[li + 1] == d1 && u[li + 2] == d0);
    assert(forall|i: int| 0 <= i < u.len() && i != li ==> is_digit(#[trigger] u[i]));
    assert forall|i: int, j: int|
        0 <= i < u.len() && 0 <= j < u.len() && u[i] == '.' && u[j] == '.' implies i == j by {
        if i != li {
            lemma_digit_is_plain(u[i]);
        }
        if j != li {
            lemma_digit_is_plain(u[j]);
        }
    }
    assert(is_digit(u[0]));
    assert(valid_body(u));
    lemma_dot_is_unique(u, li);
    assert(int_part(u) =~= dec_digits(w));
    assert(frac_part(u) =~= seq![d1, d0]);

    // The digits read back as the rendered hundredths.
    lemma_digits_val_append(dec_digits(w), seq![d1, d0]);
    assert(digits_val(seq![d1, d0]) == digit_val(d1) * 10 + digit_val(d0)) by {
        reveal_with_fuel(digits_val, 4);
        assert(seq![d1, d0].drop_last() =~= seq![d1]);
        assert(seq![d1].drop_last() =~= Seq::<char>::empty());
    }
    assert(pow10(2) == 100) by {
        reveal_with_fuel(pow10, 3);
    }
    assert(digits_val(dec_digits(w)) == w);
    assert(mantissa_of(f) == w * 100 + (((c / 10) % 10) * 10 + c % 10));
    assert(c == (c / 100) * 100 + ((c / 10) % 10) * 10 + c % 10) by (nonlinear_arith);
    assert(mantissa_of(f) == c);
    assert(scale_of(f) == 2);
    assert(numeral_ok(f));
    assert(spec_parse(f) == Some(price_of(f)));
    assert(price_of(f) == rounded_price(p));

    // Rendering the reparsed price renders the same hundredths again.
    assert(pow10(0) == 1);
    assert(spec_cents(rounded_price(p)) == c * 1);
    assert(format_spec(rounded_price(p)) == format_spec(p));

    // The rendered hundredths are the nearest, ties away from zero.
    let m = p.mantissa as int;
    let ps = pow10(p.scale as nat) as int;
    if p.scale <= 2 {
        let q = pow10((2 - p.scale) as nat) as int;
        assert(c == m * q);
        lemma_pow10_adds((2 - p.scale) as nat, p.scale as nat);
        assert(q * ps == 100);
        assert((m * q) * ps == m * (q * ps)) by (nonlinear_arith);
        assert(c * ps == 100 * m);
        lemma_pow10_pos(p.scale as nat);
    } else {
        let k = (p.scale - 2) as nat;
        let h = pow10(k) as int;
        lemma_pow10_pos(k);
        assert(h >= 1);
        assert(h == 10 * pow10((k - 1) as nat));
        assert(h / 2 == 5 * pow10((k - 1) as nat));
        assert(h == 2 * (h / 2));
        let d = m + h / 2;
        assert(c == round_cents(p.mantissa as nat, p.scale as nat));
        assert(c as int == d / h);
        vstd::arithmetic::div_mod::lemma_fundamental_div_mod(d, h);
        vstd::arithmetic::div_mod::lemma_mod_division_less_than_divisor(d, h);
        assert(d == h * (d / h) + d % h && 0 <= d % h < h);
        let r = d % h;
        assert((d / h) * h == d - r) by (nonlinear_arith)
            requires
                d == h * (d / h) + r,
        ;
        assert((c as int) * h - m == h / 2 - r);
        assert(-h < 2 * ((c as int) * h - m) <= h);
        lemma_pow10_adds(2, k);
        assert(ps == 100 * h);
        assert((c as int) * (100 * h) == 100 * ((c as int) * h)) by (nonlinear_arith);
        assert(2 * ((c as int) * ps - 100 * m) == 100 * (2 * ((c as int) * h - m)));
    }
}

} // verus!
