//! What one refresh tick shows for one clipboard reading.
//!
//! The state is a pure function of the clipboard text of that tick: no text
//! at all gives a warning, text that parses as a price gives the price and
//! its taxed total, and anything else gives an error notice.

use vstd::prelude::*;
use crate::digits::dec_digits;
use crate::parse::{parse_price, spec_parse};
use crate::price::{spec_with_vat, with_vat, Price, VAT_PERCENT};
use crate::render::{format_nat, format_price, format_spec};

verus! {

/// The outcome of one tick: the clipboard held no text, held text that is
/// not a price, or held a price, paired here with its taxed total.
#[derive(Clone, Copy, Debug, PartialEq, Eq, Structural)]
pub enum DisplayState {
    NoClipboardText,
    InvalidFormat,
    Converted(Price, Price),
}

impl DisplayState {
    /// Any price carried by the state is within the bounds that parsing and
    /// the tax transform keep, and the total belongs to the price.
    pub open spec fn wf(self) -> bool {
        self matches DisplayState::Converted(p, t) ==> p.wf_parsed() && t.wf() && t
            == spec_with_vat(p)
    }
}

/// The state a clipboard reading leads to: `None` stands for a clipboard
/// without text.
pub open spec fn spec_display_state(text: Option<Seq<char>>) -> DisplayState {
    match text {
        Option::None => DisplayState::NoClipboardText,
        Option::Some(s) => match spec_parse(s) {
            Option::None => DisplayState::InvalidFormat,
            Option::Some(p) => DisplayState::Converted(p, spec_with_vat(p)),
        },
    }
}

/// Computes the display state for one tick from the clipboard text, if the
/// clipboard held any.
pub fn display_state(text: Option<&str>) -> (r: DisplayState)
    ensures
        r == spec_display_state(
            match text {
                Option::Some(t) => Option::Some(t@),
                Option::None => Option::None,
            },
        ),
        r.wf(),
{
    match text {
        Option::None => DisplayState::NoClipboardText,
        Option::Some(t) => match parse_price(t) {
            Option::None => DisplayState::InvalidFormat,
            Option::Some(p) => {
                let total = with_vat(&p);
                DisplayState::Converted(p, total)
            },
        },
    }
}

/// The notice shown when the clipboard holds no text.
pub fn empty_clipboard_text() -> (s: String)
    ensures
        s@ == "Clipboard is empty or does not contain text."@,
{
    let mut s = String::new();
    s.append("Clipboard is empty or does not contain text.");
    s
}

/// The notice shown when the clipboard text is not a price.
pub fn invalid_format_text() -> (s: String)
    ensures
        s@ == "Invalid price format in clipboard."@,
{
    let mut s = String::new();
    s.append("Invalid price format in clipboard.");
    s
}

/// The arrow between the price and its total, naming the tax percentage.
pub fn vat_arrow_text() -> (s: String)
    ensures
        s@ == " == +"@ + dec_digits(VAT_PERCENT as nat) + "% ==> "@,
{
    let mut s = String::new();
    s.append(" == +");
    let percent = format_nat(VAT_PERCENT as u128);
    s.append(percent.as_str());
    s.append("% ==> ");
    s
}

/// The full line of text a state is shown as.
pub open spec fn spec_state_text(st: DisplayState) -> Seq<char> {
    match st {
        DisplayState::NoClipboardText => "Clipboard is empty or does not contain text."@,
        DisplayState::InvalidFormat => "Invalid price format in clipboard."@,
        DisplayState::Converted(p, t) => format_spec(p) + " == +"@ + dec_digits(
            VAT_PERCENT as nat,
        ) + "% ==> "@ + format_spec(t),
    }
}

/// Renders a state as one line of text: the two notices verbatim, or the
/// price, the tax arrow, and the total.
pub fn state_text(st: &DisplayState) -> (s: String)
    requires
        st.wf(),
    ensures
        s@ == spec_state_text(*st),
{
    match st {
        DisplayState::NoClipboardText => empty_clipboard_text(),
        DisplayState::InvalidFormat => invalid_format_text(),
        DisplayState::Converted(p, t) => {
            proof {
                crate::price::lemma_parsed_is_wf(*p);
            }
            let mut s = format_price(p);
            let arrow = vat_arrow_text();
            s.append(arrow.as_str());
            let total = format_price(t);
            s.append(total.as_str());
            s
        },
    }
}

} // verus!
