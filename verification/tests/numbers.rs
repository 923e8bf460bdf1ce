use resp_replica::protocol::framing::{crlf_at, find_byte, find_crlf, has_prefix, text_of};
use resp_replica::protocol::number::{format_i64, format_u64, is_float_text, parse_i64, parse_u64};
use resp_replica::protocol::text::{decimal_string, parse_u64_text, same_text};

#[test]
fn format_unsigned() {
    assert_eq!(format_u64(0), b"0");
    assert_eq!(format_u64(7), b"7");
    assert_eq!(format_u64(10), b"10");
    assert_eq!(format_u64(1234567890), b"1234567890");
    assert_eq!(format_u64(u64::MAX), b"18446744073709551615");
}

#[test]
fn format_signed() {
    assert_eq!(format_i64(0), b"0");
    assert_eq!(format_i64(-1), b"-1");
    assert_eq!(format_i64(i64::MAX), b"9223372036854775807");
    assert_eq!(format_i64(i64::MIN), b"-9223372036854775808");
}

#[test]
fn parse_signed() {
    assert_eq!(parse_i64(b"0"), Some(0));
    assert_eq!(parse_i64(b"-0"), Some(0));
    assert_eq!(parse_i64(b"+12"), Some(12));
    assert_eq!(parse_i64(b"007"), Some(7));
    assert_eq!(parse_i64(b"-9223372036854775808"), Some(i64::MIN));
    assert_eq!(parse_i64(b"9223372036854775807"), Some(i64::MAX));
    assert_eq!(parse_i64(b"9223372036854775808"), None);
    assert_eq!(parse_i64(b"-9223372036854775809"), None);
    assert_eq!(parse_i64(b"99999999999999999999999999"), None);
    assert_eq!(parse_i64(b""), None);
    assert_eq!(parse_i64(b"-"), None);
    assert_eq!(parse_i64(b"+"), None);
    assert_eq!(parse_i64(b"1a"), None);
    assert_eq!(parse_i64(b" 1"), None);
    assert_eq!(parse_i64(b"--1"), None);
}

#[test]
fn parse_unsigned() {
    assert_eq!(parse_u64(b"0"), Some(0));
    assert_eq!(parse_u64(b"+5"), Some(5));
    assert_eq!(parse_u64(b"18446744073709551615"), Some(u64::MAX));
    assert_eq!(parse_u64(b"18446744073709551616"), None);
    assert_eq!(parse_u64(b"-0"), None);
    assert_eq!(parse_u64(b"-1"), None);
    assert_eq!(parse_u64(b""), None);
    assert_eq!(parse_u64(b"12x"), None);
}

#[test]
fn parsing_agrees_with_the_standard_library() {
    for text in ["0", "-0", "+0", "17", "-17", "+17", "", "+", "-", "1_0", "٣", "0017", "9223372036854775808"] {
        assert_eq!(parse_i64(text.as_bytes()), text.parse::<i64>().ok());
        assert_eq!(parse_u64(text.as_bytes()), text.parse::<u64>().ok());
    }
}

#[test]
fn format_then_parse_gives_the_number_back() {
    for n in [0i64, 1, -1, 9, 10, -10, 99, 100, 12345, -98765, i64::MAX, i64::MIN] {
        assert_eq!(parse_i64(&format_i64(n)), Some(n));
    }
    for n in [0u64, 9, 10, 4294967296, u64::MAX] {
        assert_eq!(parse_u64(&format_u64(n)), Some(n));
    }
}

#[test]
fn float_literals() {
    for text in ["1", "1.", ".1", "1.5", "-1.5", "+1.5", "1e1", "1E1", "1e+1", "1e-1", "1.e1", ".1e1", "inf", "+inf", "-inf", "INF", "infinity", "-Infinity", "nan", "NAN", "+nan"] {
        assert!(is_float_text(text.as_bytes()), "{}", text);
        assert!(text.parse::<f64>().is_ok(), "{}", text);
    }
    for text in ["", "+", "-", ".", "e", "e1", ".e1", "1e", "1e+", "1.1.1", "1 ", " 1", "in", "infinit", "na", "nanx", "1f", "0x1", "1,5", "++1"] {
        assert!(!is_float_text(text.as_bytes()), "{}", text);
        assert!(text.parse::<f64>().is_err(), "{}", text);
    }
}

#[test]
fn decimal_text_helpers() {
    assert_eq!(decimal_string(0), "0");
    assert_eq!(decimal_string(6379), "6379");
    assert_eq!(decimal_string(u64::MAX), "18446744073709551615");
    assert_eq!(parse_u64_text("100"), Some(100));
    assert_eq!(parse_u64_text("1e2"), None);
}

#[test]
fn same_text_compares_whole_texts() {
    assert!(same_text("PING", "PING"));
    assert!(!same_text("PING", "ping"));
    assert!(!same_text("PING", "PIN"));
    assert!(!same_text("", "x"));
    assert!(same_text("", ""));
    assert!(same_text("h\u{e9}", "h\u{e9}"));
}

#[test]
fn finding_the_line_end() {
    assert_eq!(find_crlf(b"ab\r\ncd\r\n", 0), Some(2));
    assert_eq!(find_crlf(b"ab\r\ncd\r\n", 2), Some(2));
    assert_eq!(find_crlf(b"ab\r\ncd\r\n", 3), Some(6));
    assert_eq!(find_crlf(b"ab\r\ncd\r\n", 7), None);
    assert_eq!(find_crlf(b"a\rb\n", 0), None);
    assert_eq!(find_crlf(b"\r\r\n", 0), Some(1));
    assert_eq!(find_crlf(b"", 0), None);
    assert_eq!(find_crlf(b"\r\n", 5), None);
    assert!(crlf_at(b"x\r\n", 1));
    assert!(!crlf_at(b"x\r\n", 0));
    assert!(!crlf_at(b"x\r\n", 2));
    assert!(!crlf_at(b"x\r\n", 9));
}

#[test]
fn finding_bytes_and_prefixes() {
    assert_eq!(find_byte(b"a b c", 32, 0), Some(1));
    assert_eq!(find_byte(b"a b c", 32, 2), Some(3));
    assert_eq!(find_byte(b"a b c", 32, 4), None);
    assert_eq!(find_byte(b"abc", 32, 9), None);
    assert!(has_prefix(b"+FULLRESYNC x", 0, 13, b"+FULL"));
    assert!(!has_prefix(b"+FULLRESYNC x", 1, 13, b"+FULL"));
    assert!(has_prefix(b"abc", 1, 3, b"bc"));
    assert!(!has_prefix(b"abc", 1, 2, b"bc"));
    assert!(has_prefix(b"abc", 1, 1, b""));
}

#[test]
fn text_of_reads_utf8_only() {
    assert_eq!(text_of(b"xhellox", 1, 6), Some("hello".to_string()));
    assert_eq!(text_of("h\u{e9}".as_bytes(), 0, 3), Some("h\u{e9}".to_string()));
    assert_eq!(text_of(b"\xff", 0, 1), None);
    assert_eq!(text_of("h\u{e9}".as_bytes(), 0, 2), None);
    assert_eq!(text_of(b"abc", 1, 1), Some(String::new()));
}
