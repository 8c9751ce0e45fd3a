use authenticate_ldap::text::{characters, contains, decimal, hex, replace, same};

#[test]
fn numbers_are_written_in_decimal_and_in_hexadecimal() {
    assert_eq!(decimal(0), "0");
    assert_eq!(decimal(-7), "-7");
    assert_eq!(decimal(1203), "1203");
    assert_eq!(decimal(i64::MAX), i64::MAX.to_string());
    assert_eq!(decimal(i64::MIN), i64::MIN.to_string());
    assert_eq!(hex(0x00), "0x00");
    assert_eq!(hex(0x0a), "0x0a");
    assert_eq!(hex(0xf9), "0xf9");
}

#[test]
fn a_pattern_is_found_where_it_stands() {
    assert!(contains("a{x}b", "{x}"));
    assert!(contains("{x}", "{x}"));
    assert!(contains("{{x}", "{x}"));
    assert!(!contains("{x", "{x}"));
    assert!(!contains("", "{x}"));
    assert!(contains("", ""));
}

#[test]
fn a_pattern_is_replaced_from_left_to_right_and_once() {
    for (text, pattern, with) in [
        ("a{x}b{x}", "{x}", "\u{e9}"),
        ("aaa", "aa", "b"),
        ("{x}", "{x}", "{x}{x}"),
        ("none", "{x}", "y"),
        ("", "{x}", "y"),
        ("{{x}}", "{x}", ""),
    ] {
        assert_eq!(replace(text, pattern, with), text.replace(pattern, with));
    }
    assert_eq!(replace("aaa", "aa", "b"), "ba");
}

#[test]
fn characters_are_told_apart() {
    assert_eq!(characters("a\u{20ac}"), ['a', '\u{20ac}']);
    assert!(same("ldap", "ldap"));
    assert!(!same("ldap", "LDAP"));
    assert!(!same("", "ldap"));
}
