use paru::text::{is_whitespace, parse_usize, str_eq, str_lt, to_ascii_lowercase};

#[test]
fn white_space_agrees_with_std() {
    for u in 0u32..=0x10ffff {
        if let Some(c) = char::from_u32(u) {
            assert_eq!(is_whitespace(c), c.is_whitespace(), "{:x}", u);
        }
    }
}

#[test]
fn usize_parsing_agrees_with_std() {
    let max = usize::MAX.to_string();
    let over = format!("{}0", max);
    let cases = [
        "", "+", "-", "0", "+0", "-0", "007", "12a", " 1", "1 ", "++1", "+12", &max, &over, "18446744073709551616",
        "\u{661}",
    ];
    for s in cases {
        assert_eq!(parse_usize(s), s.parse::<usize>().ok(), "{:?}", s);
    }
}

#[test]
fn string_order_and_equality_agree_with_std() {
    let words = ["", "a", "ab", "b", "\u{e9}", "e", "z", "\u{1f600}", "aa", "A"];
    for a in words {
        for b in words {
            assert_eq!(str_lt(a, b), a < b);
            assert_eq!(str_eq(a, b), a == b);
        }
    }
}

#[test]
fn ascii_lowercase_agrees_with_std() {
    for s in ["ABC", "MiXeD \u{c9}t\u{e9}", "", "123-Z"] {
        assert_eq!(to_ascii_lowercase(s), s.to_ascii_lowercase());
    }
}
