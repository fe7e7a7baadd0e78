use logitray::text::{
    collapse_whitespace, compare_str, contains, eq_ignore_ascii_case, format_hex4, parse_decimal,
    str_eq, strip_prefix, strip_suffix, trim, Order,
};

fn v(s: &str) -> Vec<char> {
    s.chars().collect()
}

#[test]
fn whitespace_is_collapsed_and_trimmed() {
    assert_eq!(collapse_whitespace(&v("  a \t b\u{3000}c  ")), v("a b c"));
    assert_eq!(collapse_whitespace(&v("")), v(""));
    assert_eq!(trim(&v("\n x y \u{a0}")), v("x y"));
}

#[test]
fn affixes_and_substrings() {
    assert_eq!(strip_suffix(&v("abc"), &v("bc")), Some(v("a")));
    assert_eq!(strip_suffix(&v("abc"), &v("x")), None);
    assert_eq!(strip_prefix("poll:60", "poll:"), Some("60".to_string()));
    assert_eq!(strip_prefix("po", "poll:"), None);
    assert!(contains(&v("hello"), &v("ll")));
    assert!(contains(&v("hello"), &v("")));
    assert!(!contains(&v("hello"), &v("lo!")));
}

#[test]
fn ordering_matches_str_ordering() {
    let words = ["", "a", "ab", "b", "B", "é", "z", "aa"];
    for x in words {
        for y in words {
            let expected = match x.cmp(y) {
                std::cmp::Ordering::Less => Order::Less,
                std::cmp::Ordering::Equal => Order::Equal,
                std::cmp::Ordering::Greater => Order::Greater,
            };
            assert_eq!(compare_str(x, y), expected);
            assert_eq!(str_eq(x, y), x == y);
        }
    }
}

#[test]
fn numbers_format_and_parse() {
    assert_eq!(format_hex4(0xabc), "0abc");
    assert_eq!(parse_decimal("0", 255), Some(0));
    assert_eq!(parse_decimal("255", 255), Some(255));
    assert_eq!(parse_decimal("256", 255), None);
    assert_eq!(parse_decimal("+7", 255), Some(7));
    assert_eq!(parse_decimal("+", 255), None);
    assert_eq!(parse_decimal("-1", 255), None);
    assert_eq!(parse_decimal("1a", 255), None);
    assert_eq!(parse_decimal("007", 9), Some(7));
    assert!(eq_ignore_ascii_case("TEXT", "text"));
    assert!(!eq_ignore_ascii_case("TEXT", "tex"));
}
