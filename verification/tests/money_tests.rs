use catalog_store::money::{format_money, format_money_wire, parse_price, parse_wire, MoneyError};

#[test]
fn parse_grouped_comma_decimal() {
    assert_eq!(parse_price("1.234,50"), Ok(123450));
}

#[test]
fn parse_plain_point_decimal() {
    assert_eq!(parse_price("1234.50"), Ok(123450));
}

#[test]
fn parse_empty_is_invalid() {
    assert_eq!(parse_price(""), Err(MoneyError::InvalidFormat));
}

#[test]
fn parse_text_is_invalid() {
    assert_eq!(parse_price("abc"), Err(MoneyError::InvalidFormat));
}

#[test]
fn parse_two_commas_is_invalid() {
    assert_eq!(parse_price("1,2,3"), Err(MoneyError::InvalidFormat));
}

#[test]
fn parse_integer_only() {
    assert_eq!(parse_price("7"), Ok(700));
}

#[test]
fn parse_comma_decimal_simple() {
    assert_eq!(parse_price("0,5"), Ok(50));
}

#[test]
fn parse_rounds_third_fraction_digit_up() {
    assert_eq!(parse_price("1,005"), Ok(101));
    assert_eq!(parse_price("1,004"), Ok(100));
}

#[test]
fn parse_largest_cents() {
    // u64::MAX cents
    assert_eq!(parse_price("184467440737095516,15"), Ok(u64::MAX));
    assert_eq!(
        parse_price("184467440737095516,16"),
        Err(MoneyError::InvalidFormat)
    );
}

#[test]
fn format_display_groups_thousands() {
    assert_eq!(format_money(123450), "1.234,50");
}

#[test]
fn format_display_small() {
    assert_eq!(format_money(50), "0,50");
    assert_eq!(format_money(0), "0,00");
}

#[test]
fn format_display_large_grouping() {
    assert_eq!(format_money(123456789), "1.234.567,89");
}

#[test]
fn format_wire_has_no_grouping() {
    assert_eq!(format_money_wire(123450), "1234,50");
}

#[test]
fn wire_round_trip() {
    let text = format_money_wire(987654321);
    assert_eq!(parse_wire(&text), Some(987654321));
}
