use noyalib::scalar::{looks_like_integer, looks_like_number, parses_as_float, try_parse_integer};

#[test]
fn integers_in_three_bases() {
    assert_eq!(try_parse_integer("42"), Some(42));
    assert_eq!(try_parse_integer("-17"), Some(-17));
    assert_eq!(try_parse_integer("+7"), Some(7));
    assert_eq!(try_parse_integer("0x1F"), Some(31));
    assert_eq!(try_parse_integer("0XfF"), Some(255));
    assert_eq!(try_parse_integer("0o17"), Some(15));
    assert_eq!(try_parse_integer("0O7"), Some(7));
    assert_eq!(try_parse_integer("007"), Some(7));
}

#[test]
fn integer_range_edges() {
    assert_eq!(try_parse_integer("9223372036854775807"), Some(i64::MAX));
    assert_eq!(try_parse_integer("-9223372036854775808"), Some(i64::MIN));
    assert_eq!(try_parse_integer("9223372036854775808"), None);
    assert_eq!(try_parse_integer("0x8000000000000000"), None);
    assert_eq!(try_parse_integer("99999999999999999999999"), None);
}

#[test]
fn integer_rejections() {
    assert_eq!(try_parse_integer(""), None);
    assert_eq!(try_parse_integer("-"), None);
    assert_eq!(try_parse_integer("1_000"), None);
    assert_eq!(try_parse_integer("0x"), None);
    assert_eq!(try_parse_integer("0x1G"), None);
    assert_eq!(try_parse_integer("0o8"), None);
    assert_eq!(try_parse_integer("12a"), None);
    // The radix prefixes hand the rest to `i64::from_str_radix`,
    // which itself takes a sign.
    assert_eq!(try_parse_integer("0x-5"), Some(-5));
    assert_eq!(try_parse_integer("0o+7"), Some(7));
}

#[test]
fn integer_shapes() {
    assert!(looks_like_integer("123"));
    assert!(looks_like_integer("-123456789012345678901234567890"));
    assert!(!looks_like_integer("+"));
    assert!(!looks_like_integer(""));
    assert!(!looks_like_integer("1.0"));
}

#[test]
fn floats() {
    assert!(parses_as_float("1.5"));
    assert!(parses_as_float("-.5"));
    assert!(parses_as_float("5."));
    assert!(parses_as_float("1e3"));
    assert!(parses_as_float("2.5E-3"));
    assert!(!parses_as_float("."));
    assert!(!parses_as_float("1e"));
    assert!(!parses_as_float("12"));
    assert!(!parses_as_float("1.2.3"));
    assert!(!parses_as_float("inf"));
    assert!(!parses_as_float(""));
}

#[test]
fn numbers_among_plain_scalars() {
    for s in [".inf", "-.Inf", "+.INF", ".nan", ".NaN", "12", "0x1f", "1.5e3", "-0", "123456789012345678901234567890"] {
        assert!(looks_like_number(s), "{s}");
    }
    for s in ["", "abc", "-", "+.nan", "nan", "1e", "0x1G", "1.2.3", "v1.0"] {
        assert!(!looks_like_number(s), "{s}");
    }
}
