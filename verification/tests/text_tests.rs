use mdview::text::{chars_of, decimal, spaces_string};

#[test]
fn decimal_digits() {
    assert_eq!(decimal(0), "0");
    assert_eq!(decimal(7), "7");
    assert_eq!(decimal(12345), "12345");
    assert_eq!(decimal(u64::MAX), "18446744073709551615");
}

#[test]
fn characters_of_a_string() {
    assert_eq!(chars_of("héllo"), vec!['h', 'é', 'l', 'l', 'o']);
    assert!(chars_of("").is_empty());
}

#[test]
fn strings_of_spaces() {
    assert_eq!(spaces_string(0), "");
    assert_eq!(spaces_string(3), "   ");
}
