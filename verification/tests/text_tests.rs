use vocrab::text::{
    char_is_whitespace, decimal_string, parse_usize, str_ends_with, str_eq, string_from_chars, to_chars, trim,
    without_char,
};

#[test]
fn trim_removes_unicode_whitespace() {
    assert_eq!(trim("  a b \n"), "a b");
    assert_eq!(trim("\u{85}x\u{3000}"), "x");
    assert_eq!(trim("\t\r\n"), "");
    assert_eq!(trim("\u{200b}x"), "\u{200b}x");
    assert_eq!(trim(""), "");
    assert_eq!(trim(" \u{e9}t\u{e9} \u{2003}"), "\u{e9}t\u{e9}");
    assert_eq!(trim("a \u{a0} b"), "a \u{a0} b");
}

#[test]
fn whitespace_agrees_with_std() {
    for c in (0u32..0x3100).filter_map(char::from_u32) {
        assert_eq!(char_is_whitespace(c), c.is_whitespace(), "{:?}", c);
    }
    for s in ["", " ", "\u{feff}x", "\u{180e}y\u{180e}", "\u{2029}z\u{1680}", "x\u{85}"] {
        assert_eq!(trim(s), s.trim());
    }
}

#[test]
fn decimal_string_writes_like_to_string() {
    for n in [0usize, 7, 10, 65, 99, 100, 12345, usize::MAX] {
        assert_eq!(decimal_string(n), n.to_string());
    }
}

#[test]
fn parse_usize_accepts_plus_and_digits_only() {
    assert_eq!(parse_usize("42"), Some(42));
    assert_eq!(parse_usize("+7"), Some(7));
    assert_eq!(parse_usize("007"), Some(7));
    assert_eq!(parse_usize(""), None);
    assert_eq!(parse_usize("+"), None);
    assert_eq!(parse_usize("-0"), None);
    assert_eq!(parse_usize("1 "), None);
    assert_eq!(parse_usize("99999999999999999999999"), None);
    assert_eq!(parse_usize("18446744073709551615"), "18446744073709551615".parse::<usize>().ok());
    assert_eq!(parse_usize("18446744073709551616"), None);
    assert_eq!(parse_usize("12a"), None);
    assert_eq!(parse_usize("++1"), None);
}

#[test]
fn string_helpers() {
    assert!(str_eq("abc", "abc"));
    assert!(!str_eq("abc", "abd"));
    assert!(str_ends_with("unit.cbor", ".cbor"));
    assert!(!str_ends_with("cbor", ".cbor"));
    assert_eq!(without_char("1r2r", 'r'), "12");
    assert_eq!(to_chars("h\u{e9}"), vec!['h', '\u{e9}']);
    assert_eq!(string_from_chars(&['o', 'k']), "ok");
}
