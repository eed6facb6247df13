//! Exact decimal prices and the value-added tax transform.
//!
//! A price is a signed decimal fixed-point value: `mantissa / 10^scale`,
//! negated when `negative` holds. Keeping the mantissa and scale exact lets
//! the tax transform and the two-decimal rendering be stated and proved
//! without rounding surprises.

use vstd::prelude::*;
use crate::digits::pow10;

verus! {

/// A parsed mantissa must stay below this bound, ten to the twenty-fourth.
pub const MANTISSA_LIMIT: u128 = 1000000000000000000000000;

/// A parsed numeral may carry at most this many fraction digits.
pub const SCALE_LIMIT: u32 = 24;

/// The tax rate, as a percentage of the net price.
pub const VAT_PERCENT: u32 = 21;

/// A signed decimal fixed-point number: `mantissa / 10^scale`, negated when
/// `negative` holds.
#[derive(Clone, Copy, Debug, PartialEq, Eq, Structural)]
pub struct Price {
    pub negative: bool,
    pub mantissa: u128,
    pub scale: u32,
}

impl Price {
    /// Bounds that every price coming straight out of the parser meets.
    pub open spec fn wf_parsed(self) -> bool {
        self.mantissa < MANTISSA_LIMIT && self.scale <= SCALE_LIMIT
    }

    /// Bounds wide enough for a parsed price and for its taxed total; all
    /// arithmetic and rendering stays exact within them.
    pub open spec fn wf(self) -> bool {
        self.mantissa < 121 * MANTISSA_LIMIT && self.scale <= SCALE_LIMIT + 2
    }

    /// The signed integer numerator of the price, over `10^scale`.
    pub open spec fn numerator(self) -> int {
        if self.negative {
            -(self.mantissa as int)
        } else {
            self.mantissa as int
        }
    }

    /// The denominator of the price.
    pub open spec fn denominator(self) -> int {
        pow10(self.scale as nat) as int
    }
}

/// A parsed price is within the total bounds as well.
pub proof fn lemma_parsed_is_wf(p: Price)
    requires
        p.wf_parsed(),
    ensures
        p.wf(),
{
}

/// The price with value-added tax applied, as the tax transform computes it.
pub open spec fn spec_with_vat(p: Price) -> Price {
    Price {
        negative: p.negative,
        mantissa: (p.mantissa * 121) as u128,
        scale: (p.scale + 2) as u32,
    }
}

/// Applies the value-added tax: the total is exactly the price times 121/100,
/// that is times 1.21. The numerator is multiplied by 121 and the
/// denominator by 100, so `total == price * 1.21` holds as an identity of
/// exact rationals.
pub fn with_vat(p: &Price) -> (t: Price)
    requires
        p.wf_parsed(),
    ensures
        t == spec_with_vat(*p),
        t.wf(),
        t.negative == p.negative,
        t.numerator() == 121 * p.numerator(),
        t.denominator() == 100 * p.denominator(),
{
    proof {
        assert(pow10((p.scale + 2) as nat) == 100 * pow10(p.scale as nat)) by {
            assert(pow10((p.scale + 2) as nat) == 10 * pow10((p.scale + 1) as nat));
            assert(pow10((p.scale + 1) as nat) == 10 * pow10(p.scale as nat));
        }
    }
    Price { negative: p.negative, mantissa: p.mantissa * 121, scale: p.scale + 2 }
}

} // verus!
