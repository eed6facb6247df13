use auto_vat::parse::parse_price;
use auto_vat::price::Price;

fn price(negative: bool, mantissa: u128, scale: u32) -> Price {
    Price { negative, mantissa, scale }
}

#[test]
fn plain_integer() {
    assert_eq!(parse_price("100"), Some(price(false, 100, 0)));
}

#[test]
fn plain_dot_decimal() {
    assert_eq!(parse_price("12.50"), Some(price(false, 1250, 2)));
}

#[test]
fn plain_decimal_trimmed() {
    assert_eq!(parse_price("  12.50\n"), Some(price(false, 1250, 2)));
}

#[test]
fn ambiguous_dot_is_decimal_point() {
    // The plain pass wins: one dot reads as the decimal point, never as a
    // thousands separator.
    assert_eq!(parse_price("1.234"), Some(price(false, 1234, 3)));
}

#[test]
fn comma_decimal_with_thousands_dot() {
    assert_eq!(parse_price("1.234,56"), Some(price(false, 123456, 2)));
}

#[test]
fn comma_decimal_plain() {
    assert_eq!(parse_price("7,5"), Some(price(false, 75, 1)));
}

#[test]
fn signs() {
    assert_eq!(parse_price("+3"), Some(price(false, 3, 0)));
    assert_eq!(parse_price("-1.5"), Some(price(true, 15, 1)));
    assert_eq!(parse_price("-1.234,56"), Some(price(true, 123456, 2)));
}

#[test]
fn dot_edges() {
    assert_eq!(parse_price("12."), Some(price(false, 12, 0)));
    assert_eq!(parse_price(".5"), Some(price(false, 5, 1)));
    assert_eq!(parse_price(",5"), Some(price(false, 5, 1)));
}

#[test]
fn many_dots_read_as_thousands_separators() {
    // Both dots are removed by the second pass.
    assert_eq!(parse_price("1.2.3"), Some(price(false, 123, 0)));
}

#[test]
fn rejects_words() {
    assert_eq!(parse_price("abc"), None);
}

#[test]
fn rejects_empty_and_signs_alone() {
    assert_eq!(parse_price(""), None);
    assert_eq!(parse_price("   "), None);
    assert_eq!(parse_price("+"), None);
    assert_eq!(parse_price("-"), None);
    assert_eq!(parse_price("."), None);
    assert_eq!(parse_price(","), None);
}

#[test]
fn rejects_two_commas() {
    assert_eq!(parse_price("1,2,3"), None);
}

#[test]
fn rejects_exponent_notation() {
    assert_eq!(parse_price("1e3"), None);
}

#[test]
fn rejects_inner_space() {
    assert_eq!(parse_price("1 2"), None);
}

#[test]
fn rejects_too_many_digits() {
    // Twenty-five digits reach the mantissa bound.
    assert_eq!(parse_price("9999999999999999999999999"), None);
    // Twenty-four do not.
    assert_eq!(
        parse_price("999999999999999999999999"),
        Some(price(false, 999999999999999999999999, 0))
    );
}

#[test]
fn rejects_too_many_fraction_digits() {
    // Twenty-four fraction digits are the most the plain pass keeps.
    assert_eq!(parse_price("0.000000000000000000000001"), Some(price(false, 1, 24)));
    // A twenty-fifth exceeds the scale bound, so the plain pass fails and
    // the second pass reads the dot as a thousands separator.
    assert_eq!(parse_price("0.0000000000000000000000001"), Some(price(false, 1, 0)));
    // With a comma the second pass is held to the same scale bound.
    assert_eq!(parse_price("0,0000000000000000000000001"), None);
}

#[test]
fn leading_zeros_carry_no_weight() {
    assert_eq!(parse_price("007"), Some(price(false, 7, 0)));
    assert_eq!(parse_price("000000000000000000000000000000001"), Some(price(false, 1, 0)));
}
