use mindmap::text::{decimal_string, is_float_text, lines_of, parse_u64, str_contains, trimmed};

#[test]
fn trimming_uses_unicode_whitespace() {
    assert_eq!(trimmed("  a b \t\n"), "a b");
    assert_eq!(trimmed("\u{3000}x\u{a0}"), "x");
    assert_eq!(trimmed("   "), "");
}

#[test]
fn lines_like_std() {
    assert_eq!(lines_of("a\nb\r\nc"), vec!["a", "b", "c"]);
    assert_eq!(lines_of("a\n"), vec!["a"]);
    assert_eq!(lines_of("\n\nx\r"), vec!["", "", "x\r"]);
    assert!(lines_of("").is_empty());
}

#[test]
fn substring_search() {
    assert!(str_contains("pineapple", "apple"));
    assert!(str_contains("x", ""));
    assert!(!str_contains("app", "apple"));
}

#[test]
fn numbers() {
    assert_eq!(parse_u64("+42"), Some(42));
    assert_eq!(parse_u64("18446744073709551615"), Some(u64::MAX));
    assert_eq!(parse_u64("18446744073709551616"), None);
    assert_eq!(parse_u64("4a"), None);
    assert_eq!(parse_u64(""), None);
    assert_eq!(decimal_string(1200), "1200");
}

#[test]
fn float_notation_like_std() {
    for s in ["18", "18.5", "+2", "-0.5", ".5", "5.", "1e3", "1E-3", "2.5e+10", "inf", "-Infinity", "NaN", "+INF"] {
        assert!(is_float_text(s), "{s}");
        assert!(s.parse::<f32>().is_ok(), "{s}");
    }
    for s in ["", "big", ".", "+", "1.2.3", "1e", "e5", " 18", "18 ", "1,5", "--1", "infin", "0x10", "1e+"] {
        assert!(!is_float_text(s), "{s}");
        assert!(s.parse::<f32>().is_err(), "{s}");
    }
}
