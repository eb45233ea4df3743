use catalog_store::dates::{current_date, format_iso, one_month_before, Date};
use catalog_store::textutil::{str_lex_lt, trim};

fn day(year: u16, month: u8, d: u8) -> Date {
    Date { year, month, day: d }
}

#[test]
fn iso_format_pads_fields() {
    assert_eq!(format_iso(day(2026, 10, 11)), "2026-10-11");
    assert_eq!(format_iso(day(987, 3, 5)), "0987-03-05");
}

#[test]
fn one_month_before_simple() {
    assert_eq!(one_month_before(day(2026, 10, 11)), day(2026, 9, 11));
}

#[test]
fn one_month_before_january_wraps_year() {
    assert_eq!(one_month_before(day(2025, 1, 15)), day(2024, 12, 15));
}

#[test]
fn one_month_before_clamps_day_to_month_length() {
    assert_eq!(one_month_before(day(2024, 3, 31)), day(2024, 2, 29));
    assert_eq!(one_month_before(day(2023, 3, 31)), day(2023, 2, 28));
    assert_eq!(one_month_before(day(2026, 7, 31)), day(2026, 6, 30));
}

#[test]
fn current_date_renders_as_iso() {
    let t = current_date();
    let text = format_iso(t);
    assert_eq!(text.len(), 10);
    assert_eq!(&text[4..5], "-");
    assert_eq!(&text[7..8], "-");
}

#[test]
fn iso_dates_sort_lexicographically() {
    assert!(str_lex_lt("2026-09-01", "2026-09-11"));
    assert!(str_lex_lt("2025-12-31", "2026-01-01"));
    assert!(!str_lex_lt("2026-10-11", "2026-10-11"));
}

#[test]
fn trim_removes_surrounding_whitespace() {
    assert_eq!(trim("  x y \t"), "x y");
    assert_eq!(trim(""), "");
    assert_eq!(trim(" \u{a0} "), "");
}
