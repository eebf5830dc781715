//! The attribute store, numeric text and indentation helpers.

use ramaui::attributes::get_attribute;
use ramaui::attributes::AttributeStore;
use ramaui::strnum::format_i32;
use ramaui::strnum::format_u64;
use ramaui::strnum::parse_i32;
use ramaui::ui_elements::tabs;

#[test]
fn attribute_round_trip() {
    let mut store = AttributeStore::new();
    store.set("Window.Title", "hello");
    assert_eq!(store.get("Window.Title").map(|s| s.as_str()), Some("hello"));
}

#[test]
fn attribute_missing_is_none() {
    let store = AttributeStore::new();
    assert!(store.get("Width").is_none());
    assert_eq!(store.get_or("Width", "77"), "77");
}

#[test]
fn attribute_upsert_overwrites() {
    let mut store = AttributeStore::new();
    store.set("k", "one");
    store.set("k", "two");
    assert_eq!(store.get("k").map(|s| s.as_str()), Some("two"));
}

#[test]
fn attribute_free_function_defaults() {
    let mut store = AttributeStore::new();
    store.set("Label.Text", "hi");
    assert_eq!(get_attribute(&store, "Label.Text", ""), "hi");
    assert_eq!(get_attribute(&store, "Label.Width", "100"), "100");
}

#[test]
fn parse_plain_numbers() {
    assert_eq!(parse_i32("0"), Some(0));
    assert_eq!(parse_i32("123"), Some(123));
    assert_eq!(parse_i32("+5"), Some(5));
    assert_eq!(parse_i32("-42"), Some(-42));
    assert_eq!(parse_i32("007"), Some(7));
}

#[test]
fn parse_rejects_junk() {
    assert_eq!(parse_i32(""), None);
    assert_eq!(parse_i32("abc"), None);
    assert_eq!(parse_i32("12a"), None);
    assert_eq!(parse_i32("-"), None);
    assert_eq!(parse_i32("+"), None);
    assert_eq!(parse_i32("1 2"), None);
}

#[test]
fn parse_range_edges() {
    assert_eq!(parse_i32("2147483647"), Some(i32::MAX));
    assert_eq!(parse_i32("2147483648"), None);
    assert_eq!(parse_i32("-2147483648"), Some(i32::MIN));
    assert_eq!(parse_i32("-2147483649"), None);
    assert_eq!(parse_i32("99999999999999999999"), None);
}

#[test]
fn format_numbers() {
    assert_eq!(format_u64(0), "0");
    assert_eq!(format_u64(100), "100");
    assert_eq!(format_u64(90210), "90210");
    assert_eq!(format_i32(0), "0");
    assert_eq!(format_i32(-17), "-17");
    assert_eq!(format_i32(i32::MIN), "-2147483648");
}

#[test]
fn format_then_parse_is_identity() {
    for v in [0, 1, -1, 100, -2147483648, 2147483647] {
        assert_eq!(parse_i32(format_i32(v).as_str()), Some(v));
    }
}

#[test]
fn tabs_by_depth() {
    assert_eq!(tabs(0), "");
    assert_eq!(tabs(1), "   ");
    assert_eq!(tabs(2), "      ");
    assert_eq!(tabs(-3), "");
}
