use tanuki::text::{
    chars_of, join_strings, nfkc, normalize, parse_unsigned_chars, split_lines, split_whitespace, str_contains,
    str_eq, to_lowercase, trim_chars,
};

fn parse_u32(s: &str) -> Option<u64> {
    parse_unsigned_chars(&chars_of(s), 10, u32::MAX as u64)
}

fn parse_hex_u64(s: &str) -> Option<u64> {
    parse_unsigned_chars(&chars_of(s), 16, u64::MAX)
}

#[test]
fn split_lines_matches_str_lines() {
    for s in ["", "\n", "x", "a\r\nb\n\nc\r", "one\ntwo\n", "\r\n\r\n", "tail\r"] {
        let expected: Vec<String> = s.lines().map(|l| l.to_string()).collect();
        assert_eq!(split_lines(s), expected, "input {:?}", s);
    }
}

#[test]
fn split_whitespace_matches_std() {
    for s in ["", "  ", "a b", " lead trail ", "tab\tand\u{3000}ideographic", "x\n\ny"] {
        let expected: Vec<String> = s.split_whitespace().map(|w| w.to_string()).collect();
        assert_eq!(split_whitespace(s), expected, "input {:?}", s);
    }
}

#[test]
fn decimal_parsing_matches_str_parse() {
    for s in ["42", "+7", "", "+", "-1", "4294967295", "4294967296", "007", "1 2", " 3", "99999999999999999999"] {
        let expected = s.parse::<u32>().ok().map(|v| v as u64);
        assert_eq!(parse_u32(s), expected, "input {:?}", s);
    }
}

#[test]
fn hex_parsing_matches_from_str_radix() {
    for s in ["f4a45524", "F4A45524", "+ff", "", "1g", "ffffffffffffffff", "10000000000000000", "0"] {
        let expected = u64::from_str_radix(s, 16).ok();
        assert_eq!(parse_hex_u64(s), expected, "input {:?}", s);
    }
    assert_eq!(parse_hex_u64("f4a45524"), Some(4104410404));
}

#[test]
fn containment_and_equality() {
    assert!(str_contains("hello", "ll"));
    assert!(str_contains("hello", ""));
    assert!(!str_contains("", "a"));
    assert!(!str_contains("hello", "lo!"));
    assert!(str_contains("所有権について", "所有権"));
    assert!(str_eq("abc", "abc"));
    assert!(!str_eq("abc", "abd"));
}

#[test]
fn trimming_and_joining() {
    let t: String = trim_chars(&chars_of("\u{3000} x y \n")).into_iter().collect();
    assert_eq!(t, "x y");
    let parts = vec!["a".to_string(), "b".to_string(), "c".to_string()];
    assert_eq!(join_strings(&parts, "\n"), "a\nb\nc");
    assert_eq!(join_strings(&Vec::new(), ", "), "");
}

#[test]
fn normalization_lowercases_then_folds_compatibility_forms() {
    assert_eq!(to_lowercase("ÄBC"), "äbc");
    assert_eq!(nfkc("ｶﾀｶﾅ"), "カタカナ");
    assert_eq!(normalize("ＡＢＣ１２３"), "abc123");
}
