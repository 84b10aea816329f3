use language_evolution::text::{i32_to_text, integer_to_text, parse_i32, parse_i64, split_at_char, trim};

#[test]
fn trim_removes_unicode_white_space_at_both_ends() {
    assert_eq!(trim("  12\n"), "12");
    assert_eq!(trim("\t\u{3000}a b\u{2028}"), "a b");
    assert_eq!(trim("   "), "");
    assert_eq!(trim(""), "");
    assert_eq!(trim("x"), "x");
}

#[test]
fn split_keeps_empty_pieces() {
    assert_eq!(split_at_char("web,api", ','), vec!["web".to_string(), "api".to_string()]);
    assert_eq!(split_at_char("", ','), vec!["".to_string()]);
    assert_eq!(split_at_char(",a,", ','), vec!["".to_string(), "a".to_string(), "".to_string()]);
    assert_eq!(split_at_char("[.]", ','), vec!["[.]".to_string()]);
}

#[test]
fn parse_i64_follows_from_str() {
    assert_eq!(parse_i64("42"), Some(42));
    assert_eq!(parse_i64("+7"), Some(7));
    assert_eq!(parse_i64("-15"), Some(-15));
    assert_eq!(parse_i64("9223372036854775807"), Some(i64::MAX));
    assert_eq!(parse_i64("-9223372036854775808"), Some(i64::MIN));
    assert_eq!(parse_i64("9223372036854775808"), None);
    assert_eq!(parse_i64("99999999999999999999999"), None);
    assert_eq!(parse_i64(""), None);
    assert_eq!(parse_i64("-"), None);
    assert_eq!(parse_i64("+"), None);
    assert_eq!(parse_i64(" 1"), None);
    assert_eq!(parse_i64("1.5"), None);
    assert_eq!(parse_i64("12%"), None);
    for s in ["0", "-0", "+0", "123", "-123", "0012", "x", "--1"] {
        assert_eq!(parse_i64(s), s.parse::<i64>().ok(), "{}", s);
    }
}

#[test]
fn parse_i32_follows_from_str() {
    assert_eq!(parse_i32("2147483647"), Some(i32::MAX));
    assert_eq!(parse_i32("-2147483648"), Some(i32::MIN));
    assert_eq!(parse_i32("2147483648"), None);
    assert_eq!(parse_i32("-2147483649"), None);
    assert_eq!(parse_i32("17"), Some(17));
    assert_eq!(parse_i32("abc"), None);
}

#[test]
fn integers_are_written_in_decimal() {
    assert_eq!(integer_to_text(0), "0");
    assert_eq!(integer_to_text(7), "7");
    assert_eq!(integer_to_text(-42), "-42");
    assert_eq!(integer_to_text(1000), "1000");
    assert_eq!(integer_to_text(i64::MIN), i64::MIN.to_string());
    assert_eq!(integer_to_text(i64::MAX), i64::MAX.to_string());
    assert_eq!(i32_to_text(-1), "-1");
}

#[test]
fn written_integers_parse_back() {
    for n in [0i64, 1, -1, 9, 10, -10, 123456789, i64::MAX, i64::MIN] {
        assert_eq!(parse_i64(&integer_to_text(n)), Some(n));
    }
}

#[test]
fn split_pieces_join_back_without_separators() {
    for s in ["web,api", "", ",", "a,,b", "x"] {
        let pieces = split_at_char(s, ',');
        assert_eq!(pieces.join(","), s);
        assert!(pieces.iter().all(|p| !p.contains(',')));
    }
}
