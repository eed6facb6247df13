//! Rendering prices to two decimal places.
//!
//! A price is shown as its nearest number of hundredths, ties rounded away
//! from zero, written with a dot and exactly two fraction digits.

use vstd::prelude::*;
use crate::digits::{
    dec_digits, digit_char, digit_str, lemma_pow10_increases, lemma_pow10_pos, pow10,
};
use crate::price::{Price, MANTISSA_LIMIT};

verus! {

/// The mantissa rounded to hundredths of a unit: the closest count of
/// hundredths to `m / 10^scale`, ties away from zero.
pub open spec fn round_cents(m: nat, scale: nat) -> nat {
    if scale <= 2 {
        m * pow10((2 - scale) as nat)
    } else {
        (m + pow10((scale - 2) as nat) / 2) / pow10((scale - 2) as nat)
    }
}

/// The count of hundredths a price is shown as.
pub open spec fn spec_cents(p: Price) -> nat {
    round_cents(p.mantissa as nat, p.scale as nat)
}

/// The text of a price to two decimals: an optional minus sign, the whole
/// part in decimal notation, a dot, and two fraction digits.
pub open spec fn format_spec(p: Price) -> Seq<char> {
    let c = spec_cents(p);
    let unsigned = dec_digits(c / 100) + seq!['.'] + seq![
        digit_char((c / 10) % 10),
        digit_char(c % 10),
    ];
    if p.negative {
        seq!['-'] + unsigned
    } else {
        unsigned
    }
}

/// Ten to the power twenty-six, spelled out.
proof fn lemma_pow10_26()
    ensures
        pow10(26) == 0x52b7d2dcc80cd2e4000000,
{
    reveal_with_fuel(pow10, 27);
}

/// Ten to the power `n`, for small `n`.
pub fn pow10_exec(n: u32) -> (r: u128)
    requires
        n <= 26,
    ensures
        r as nat == pow10(n as nat),
{
    let mut r: u128 = 1;
    let mut i: u32 = 0;
    while i < n
        invariant
            i <= n <= 26,
            r as nat == pow10(i as nat),
        decreases n - i,
    {
        proof {
            lemma_pow10_increases((i + 1) as nat, 26);
            lemma_pow10_26();
        }
        r = r * 10;
        i = i + 1;
    }
    r
}

/// The decimal notation of a natural number.
pub fn format_nat(n: u128) -> (s: String)
    ensures
        s@ == dec_digits(n as nat),
    decreases n,
{
    if n < 10 {
        let mut s = String::new();
        s.append(digit_str(n as u8));
        proof {
            assert(s@ =~= dec_digits(n as nat));
        }
        s
    } else {
        let mut s = format_nat(n / 10);
        s.append(digit_str((n % 10) as u8));
        proof {
            assert(s@ =~= dec_digits(n as nat));
        }
        s
    }
}

/// Renders a price to two decimal places, as `format_spec` lays it out.
pub fn format_price(p: &Price) -> (s: String)
    requires
        p.wf(),
    ensures
        s@ == format_spec(*p),
{
    let cents: u128 = if p.scale <= 2 {
        let f = pow10_exec(2 - p.scale);
        proof {
            lemma_pow10_increases((2 - p.scale) as nat, 2);
            assert(pow10(2) == 100) by {
                reveal_with_fuel(pow10, 3);
            }
            assert(p.mantissa as nat * (f as nat) < 121 * MANTISSA_LIMIT * 100)
                by (nonlinear_arith)
                requires
                    p.mantissa < 121 * MANTISSA_LIMIT,
                    f as nat <= 100,
            ;
        }
        p.mantissa * f
    } else {
        let h = pow10_exec(p.scale - 2);
        proof {
            lemma_pow10_pos((p.scale - 2) as nat);
            lemma_pow10_increases((p.scale - 2) as nat, 26);
            lemma_pow10_26();
        }
        (p.mantissa + h / 2) / h
    };
    proof {
        assert(cents as nat == spec_cents(*p));
    }
    let whole = cents / 100;
    let d1 = ((cents / 10) % 10) as u8;
    let d0 = (cents % 10) as u8;
    let mut s = String::new();
    if p.negative {
        s.append("-");
    }
    let w = format_nat(whole);
    s.append(w.as_str());
    s.append(".");
    s.append(digit_str(d1));
    s.append(digit_str(d0));
    proof {
        reveal_strlit("-");
        reveal_strlit(".");
        assert(s@ =~= format_spec(*p));
    }
    s
}

} // verus!
