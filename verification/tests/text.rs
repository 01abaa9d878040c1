use my_rust_shell::text::{
    decimal_string, nonempty_lines_of, parse_usize, split_on, split_once, join_words,
};

#[test]
fn decimal_round_trip() {
    for n in [0usize, 7, 10, 99, 12345, usize::MAX] {
        let s = decimal_string(n);
        assert_eq!(s, format!("{n}"));
        assert_eq!(parse_usize(&s), Some(n));
    }
}

#[test]
fn parse_usize_cases() {
    assert_eq!(parse_usize("42"), Some(42));
    assert_eq!(parse_usize("+42"), Some(42));
    assert_eq!(parse_usize("007"), Some(7));
    assert_eq!(parse_usize(""), None);
    assert_eq!(parse_usize("+"), None);
    assert_eq!(parse_usize("-1"), None);
    assert_eq!(parse_usize("1 "), None);
    assert_eq!(parse_usize("18446744073709551616"), None);
    for s in ["", "+", "-0", "12a", "+5", "00", "340282366920938463463374607431768211456"] {
        assert_eq!(parse_usize(s), s.parse::<usize>().ok(), "{s:?}");
    }
}

#[test]
fn lines_like_std() {
    for s in ["a\nb", "a\r\nb\r\n", "\n\nx\n", "a\rb\r", "", "\r\n", "x\r"] {
        let expected: Vec<String> = s.lines().filter(|l| !l.is_empty()).map(|l| l.to_string()).collect();
        assert_eq!(nonempty_lines_of(s), expected, "{s:?}");
    }
}

#[test]
fn split_like_std() {
    for s in ["a:b", "", ":", "::x:", "abc"] {
        let expected: Vec<String> = s.split(':').map(|l| l.to_string()).collect();
        assert_eq!(split_on(s, ':'), expected, "{s:?}");
        assert_eq!(join_words(&split_on(s, ':'), ":"), s);
    }
    assert_eq!(split_once("a=b=c", '='), Some(("a".to_string(), "b=c".to_string())));
    assert_eq!(split_once("abc", '='), None);
    assert_eq!(split_once("=", '='), Some((String::new(), String::new())));
}

#[test]
fn whitespace_matches_std() {
    for u in 0u32..0x110000 {
        if let Some(c) = char::from_u32(u) {
            assert_eq!(my_rust_shell::text::is_whitespace(c), c.is_whitespace(), "{u:#x}");
        }
    }
}
