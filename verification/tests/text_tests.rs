use sub::text::{chars_of, decimal_chars, parse_usize_chars, split_chars, trim_str};

fn s(v: &[char]) -> String {
    v.iter().collect()
}

#[test]
fn trim_removes_unicode_whitespace() {
    assert_eq!(s(&trim_str("  a b \t\n")), "a b");
    assert_eq!(s(&trim_str("\u{3000}x\u{a0}")), "x");
    assert_eq!(s(&trim_str("\u{200b}x")), "\u{200b}x");
    assert_eq!(s(&trim_str("   ")), "");
    for t in [" \u{85}q\u{2028} ", "\r\nz\u{1680}", "w"] {
        assert_eq!(s(&trim_str(t)), t.trim());
    }
}

#[test]
fn parse_usize_like_std() {
    for t in ["0", "42", "+7", "", "+", "-1", "1a", " 1", "007", "18446744073709551615", "18446744073709551616"] {
        assert_eq!(parse_usize_chars(&chars_of(t)), t.parse::<usize>().ok(), "{:?}", t);
    }
}

#[test]
fn split_like_std() {
    for t in ["a,b,,c", "", ",", "abc", "a,"] {
        let parts: Vec<String> = split_chars(&chars_of(t), ',').iter().map(|p| s(p)).collect();
        let expected: Vec<String> = t.split(',').map(|p| p.to_string()).collect();
        assert_eq!(parts, expected);
    }
}

#[test]
fn decimal_like_to_string() {
    for n in [0u64, 9, 10, 12345, u64::MAX] {
        assert_eq!(s(&decimal_chars(n)), n.to_string());
    }
}
