use auto_vat::display::{
    display_state, empty_clipboard_text, invalid_format_text, state_text, vat_arrow_text,
    DisplayState,
};
use auto_vat::parse::parse_price;
use auto_vat::price::{with_vat, Price};
use auto_vat::render::format_price;

#[test]
fn hundred_gains_twenty_one_percent() {
    let price = parse_price("100").unwrap();
    let total = with_vat(&price);
    assert_eq!(format_price(&price), "100.00");
    assert_eq!(format_price(&total), "121.00");
}

#[test]
fn comma_decimal_price_and_total() {
    let price = parse_price("1.234,56").unwrap();
    let total = with_vat(&price);
    assert_eq!(format_price(&price), "1234.56");
    // 1234.56 * 1.21 == 1493.8176, shown to the nearest hundredth.
    assert_eq!(format_price(&total), "1493.82");
}

#[test]
fn words_give_the_invalid_format_state() {
    assert_eq!(display_state(Some("abc")), DisplayState::InvalidFormat);
}

#[test]
fn missing_text_gives_the_no_text_state() {
    assert_eq!(display_state(None), DisplayState::NoClipboardText);
}

#[test]
fn empty_text_gives_the_invalid_format_state() {
    assert_eq!(display_state(Some("")), DisplayState::InvalidFormat);
}

#[test]
fn converted_state_carries_price_and_total() {
    let state = display_state(Some("12.50"));
    match state {
        DisplayState::Converted(price, total) => {
            assert_eq!(price, Price { negative: false, mantissa: 1250, scale: 2 });
            assert_eq!(total, Price { negative: false, mantissa: 151250, scale: 4 });
            assert_eq!(format_price(&total), "15.13");
        }
        other => panic!("expected a conversion, got {:?}", other),
    }
}

#[test]
fn reparsing_the_rendered_price_is_stable() {
    // A third fraction digit is rounded once; after that, rendering and
    // parsing reproduce each other.
    let price = parse_price("1.234").unwrap();
    let shown = format_price(&price);
    assert_eq!(shown, "1.23");
    let again = parse_price(&shown).unwrap();
    assert_eq!(again, Price { negative: false, mantissa: 123, scale: 2 });
    assert_eq!(format_price(&again), "1.23");
}

#[test]
fn rendering_rounds_ties_away_from_zero() {
    let price = parse_price("1.005").unwrap();
    assert_eq!(format_price(&price), "1.01");
    let negative = parse_price("-1.005").unwrap();
    assert_eq!(format_price(&negative), "-1.01");
}

#[test]
fn rendering_pads_and_truncates_to_two_decimals() {
    assert_eq!(format_price(&parse_price("7").unwrap()), "7.00");
    assert_eq!(format_price(&parse_price(".5").unwrap()), "0.50");
    assert_eq!(format_price(&parse_price("2.999").unwrap()), "3.00");
    assert_eq!(format_price(&parse_price("-0.001").unwrap()), "-0.00");
}

#[test]
fn negative_price_total() {
    let price = parse_price("-1.5").unwrap();
    let total = with_vat(&price);
    assert_eq!(format_price(&price), "-1.50");
    // -1.5 * 1.21 == -1.815; the tie rounds away from zero.
    assert_eq!(format_price(&total), "-1.82");
}

#[test]
fn notice_texts() {
    assert_eq!(empty_clipboard_text(), "Clipboard is empty or does not contain text.");
    assert_eq!(invalid_format_text(), "Invalid price format in clipboard.");
    assert_eq!(vat_arrow_text(), " == +21% ==> ");
}

#[test]
fn state_text_lines() {
    assert_eq!(
        state_text(&display_state(Some("100"))),
        "100.00 == +21% ==> 121.00"
    );
    assert_eq!(
        state_text(&display_state(Some("1.234,56"))),
        "1234.56 == +21% ==> 1493.82"
    );
    assert_eq!(
        state_text(&display_state(None)),
        "Clipboard is empty or does not contain text."
    );
    assert_eq!(
        state_text(&display_state(Some("abc"))),
        "Invalid price format in clipboard."
    );
}

#[test]
fn total_mantissa_is_exactly_times_121() {
    let price = parse_price("0.417").unwrap();
    let total = with_vat(&price);
    assert_eq!(total.mantissa, 417 * 121);
    assert_eq!(total.scale, price.scale + 2);
    // 0.417 * 1.21 == 0.50457: rounding the total differs from taxing the
    // rounded price, so the full precision is kept until rendering.
    assert_eq!(format_price(&total), "0.50");
}
