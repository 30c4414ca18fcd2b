use switrs_courier::decimal::{decimal_of, parse_i32, parse_u8, parse_usize};
use switrs_courier::text::{lines_of, nth_word, same_text, split3_at, split_once_at, trimmed};

#[test]
fn lines_like_str_lines() {
    for s in ["", "a", "a\n", "a\r\nb\n", "a\n\nb", "\n", "a\r", "a\rb\r\n", "\r\n\r\n", "x\ny\r"] {
        let expected: Vec<String> = s.lines().map(|l| l.to_string()).collect();
        assert_eq!(lines_of(s), expected, "lines of {:?}", s);
    }
}

#[test]
fn trim_like_str_trim() {
    for s in ["", "  ", " a ", "\t a b \r\n", "\u{3000}x\u{a0}", "x", "\u{85}y\u{2029}"] {
        assert_eq!(trimmed(s), s.trim(), "trim of {:?}", s);
    }
}

#[test]
fn words_like_split_whitespace() {
    let line = "GET /?code=abc&state=xyz HTTP/1.1\r\n";
    assert_eq!(nth_word(line, 0).as_deref(), Some("GET"));
    assert_eq!(nth_word(line, 1).as_deref(), Some("/?code=abc&state=xyz"));
    assert_eq!(nth_word(line, 2).as_deref(), Some("HTTP/1.1"));
    assert_eq!(nth_word(line, 3), None);
    assert_eq!(nth_word("   ", 0), None);
}

#[test]
fn splitting() {
    assert_eq!(split_once_at("a/b/c", '/'), ("a".to_string(), Some("b/c".to_string())));
    assert_eq!(split_once_at("abc", '/'), ("abc".to_string(), None));
    assert_eq!(split3_at("12/01/2023", '/'), vec!["12", "01", "2023"]);
    assert_eq!(split3_at("1/2/3/4", '/'), vec!["1", "2", "3/4"]);
    assert_eq!(split3_at("1/2", '/'), vec!["1", "2"]);
    assert_eq!(split3_at("", '/'), vec![""]);
    assert!(same_text("abc", "abc"));
    assert!(!same_text("abc", "abd"));
    assert!(!same_text("abc", "ab"));
}

#[test]
fn integers_like_from_str() {
    for s in ["0", "+5", "-5", "", "+", "-", "007", "255", "256", "18446744073709551615",
        "18446744073709551616", "1 ", "٣", "2147483647", "2147483648", "-2147483648", "-2147483649"]
    {
        assert_eq!(parse_usize(s), s.parse::<usize>().ok(), "usize {:?}", s);
        assert_eq!(parse_u8(s), s.parse::<u8>().ok(), "u8 {:?}", s);
        assert_eq!(parse_i32(s), s.parse::<i32>().ok(), "i32 {:?}", s);
    }
}

#[test]
fn decimal_round_trip() {
    for n in [0usize, 7, 10, 27, 12345, usize::MAX] {
        let text = decimal_of(n);
        assert_eq!(text, n.to_string());
        assert_eq!(parse_usize(&text), Some(n));
    }
}
