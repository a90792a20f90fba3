use velox::text::{decimal, find_char, parse_usize, split_char, str_eq, trim};

#[test]
fn trim_removes_surrounding_whitespace() {
    assert_eq!(trim("  hello world \r\n"), "hello world");
    assert_eq!(trim("\t\u{a0}x\u{3000}"), "x");
    assert_eq!(trim("   "), "");
    assert_eq!(trim(""), "");
    assert_eq!(trim("a b"), "a b");
}

#[test]
fn find_char_first_occurrence() {
    assert_eq!(find_char("a:b:c", ':'), Some(1));
    assert_eq!(find_char("abc", ':'), None);
    assert_eq!(find_char("é:x", ':'), Some(1));
    assert_eq!(find_char("", ':'), None);
}

#[test]
fn split_char_keeps_empty_pieces() {
    assert_eq!(split_char("a&b", '&'), vec!["a", "b"]);
    assert_eq!(split_char("/users/42/", '/'), vec!["", "users", "42", ""]);
    assert_eq!(split_char("", '/'), vec![""]);
    assert_eq!(split_char("x", '/'), vec!["x"]);
}

#[test]
fn parse_usize_accepts_what_std_accepts() {
    assert_eq!(parse_usize("0"), Some(0));
    assert_eq!(parse_usize("42"), Some(42));
    assert_eq!(parse_usize("+7"), Some(7));
    assert_eq!(parse_usize("007"), Some(7));
    assert_eq!(parse_usize(""), None);
    assert_eq!(parse_usize("+"), None);
    assert_eq!(parse_usize("-1"), None);
    assert_eq!(parse_usize("1a"), None);
    assert_eq!(parse_usize(" 1"), None);
    assert_eq!(parse_usize("18446744073709551615"), Some(usize::MAX));
    assert_eq!(parse_usize("18446744073709551616"), None);
    for s in ["0", "12", "+3", "", "x", "99999999999999999999", "-0"] {
        assert_eq!(parse_usize(s), s.parse::<usize>().ok());
    }
}

#[test]
fn decimal_matches_to_string() {
    for n in [0usize, 5, 9, 10, 404, 1000, usize::MAX] {
        assert_eq!(decimal(n), n.to_string());
    }
}

#[test]
fn decimal_parses_back() {
    for n in [0usize, 1, 17, 65535, usize::MAX] {
        assert_eq!(parse_usize(&decimal(n)), Some(n));
    }
}

#[test]
fn str_eq_compares_characters() {
    assert!(str_eq("abc", "abc"));
    assert!(!str_eq("abc", "abd"));
    assert!(!str_eq("abc", "ab"));
    assert!(str_eq("", ""));
}
