//! Numbers written in decimal.
use pg_whitelist_proxy::decimal::{append_decimal, parse_u64};

#[test]
fn numbers_are_read() {
    for (text, number) in [
        ("0", Some(0)),
        ("42", Some(42)),
        ("+42", Some(42)),
        ("0042", Some(42)),
        ("18446744073709551615", Some(u64::MAX)),
        ("18446744073709551616", None),
        ("99999999999999999999", None),
        ("", None),
        ("+", None),
        ("++1", None),
        ("-1", None),
        ("1 ", None),
        ("\u{661}", None),
    ] {
        assert_eq!(parse_u64(text), number, "{text:?}");
    }
}

#[test]
fn numbers_are_written_and_read_back() {
    for number in [0, 7, 10, 1000, 1234567890, u64::MAX] {
        let mut text = String::from("=");
        append_decimal(&mut text, number);

        assert_eq!(text, format!("={number}"));
        assert_eq!(parse_u64(&text[1..]), Some(number));
    }
}
