use prism::text::{
    contains, decimal_text, hex_text, is_empty, join, same_text, split, strip_suffix, text_less,
};

#[test]
fn a_text_splits_and_joins_back() {
    assert_eq!(split("a_b__c", '_'), ["a", "b", "", "c"]);
    assert_eq!(split("", '_'), [""]);
    assert_eq!(split("none", '_'), ["none"]);
    assert_eq!(join(&split("a_b__c", '_'), "_"), "a_b__c");
    assert_eq!(join(&Vec::new(), ", "), "");
    assert_eq!(join(&vec!["one"], ", "), "one");
}

#[test]
fn text_orders_by_its_first_difference() {
    assert!(text_less("", "a"));
    assert!(text_less("a", "ab"));
    assert!(text_less("ab", "b"));
    assert!(!text_less("b", "ab"));
    assert!(!text_less("a", "a"));
    assert!(text_less("z", "\u{e9}"));
}

#[test]
fn text_is_looked_into() {
    assert!(same_text("a", "a"));
    assert!(!same_text("a", "b"));
    assert!(is_empty(""));
    assert!(!is_empty(" "));
    assert!(contains("oteldemo.CartService", "CartService"));
    assert!(contains("anything", ""));
    assert!(!contains("Cart", "CartService"));
    assert_eq!(strip_suffix("a.parquet", ".parquet"), "a");
    assert_eq!(strip_suffix("a.parquet.parquet", ".parquet"), "a.parquet");
    assert_eq!(strip_suffix("a.json", ".parquet"), "a.json");
    assert_eq!(strip_suffix("et", ".parquet"), "et");
}

#[test]
fn numbers_and_bytes_have_their_text() {
    assert_eq!(decimal_text(0), "0");
    assert_eq!(decimal_text(-10), "-10");
    assert_eq!(decimal_text(i64::MAX), "9223372036854775807");
    assert_eq!(decimal_text(i64::MIN), "-9223372036854775808");
    assert_eq!(hex_text(&[0, 9, 10, 255]), "00090aff");
    assert_eq!(hex_text(&[]), "");
}
