use noyalib::borrowed::{
    from_str_borrowed, from_str_borrowed_with_config, from_tokens_with_config, resolve_scalar, BorrowedMapping,
    BorrowedValue, Number,
};
use noyalib::config::ParserConfig;
use noyalib::error::Error;
use noyalib::parser::token::{ScalarStyle, ScanError, Span, Token, TokenKind};

fn tok(kind: TokenKind) -> Token {
    Token { kind, span: Span { start: 0, end: 0 } }
}

#[test]
fn mapping_of_scalars() {
    let yaml = "name: noyalib\nversion: 1\n";
    let value =
        from_str_borrowed(yaml)
            .unwrap();
    let m = value.as_mapping().unwrap();
    assert_eq!(m.get("name").unwrap().as_str(), Some("noyalib"));
    assert_eq!(m.get("version").unwrap().as_i64(), Some(1));
    assert_eq!(m.len(), 2);
    assert!(m.get("missing").is_none());
}

#[test]
fn query_with_wildcard_and_descent() {
    let yaml = "items:\n  - name: a\n  - name: b\n";
    let v = from_str_borrowed(yaml).unwrap();
    let names: Vec<_> = v.query("items[*].name").iter().map(|x| x.as_str().unwrap()).collect();
    assert_eq!(names, vec!["a", "b"]);
    let deep: Vec<_> = v.query("..name").iter().map(|x| x.as_str().unwrap()).collect();
    assert_eq!(deep, vec!["a", "b"]);
    assert_eq!(v.query("items[1].name").len(), 1);
    assert!(v.query("items[7]").is_empty());
    assert_eq!(v.query("").len(), 1);
}

#[test]
fn get_path_walks_keys_and_indices() {
    let yaml = "items:\n  - name: a\n  - name: b\n";
    let v = from_str_borrowed(yaml).unwrap();
    assert_eq!(v.get_path("items[1].name").unwrap().as_str(), Some("b"));
    assert_eq!(v.get_path("items[*].name").unwrap().as_str(), Some("a"));
    assert!(v.get_path("items.name").is_none());
    assert!(v.get_path("nothing").is_none());
}

#[test]
fn nested_get_path() {
    // a:\n  b: 2\n
    let v = from_str_borrowed("a:\n  b: 2\n").unwrap();
    assert_eq!(v.get_path("a.b").unwrap().as_i64(), Some(2));
}

#[test]
fn strict_config_accepts_small_documents() {
    let cfg = ParserConfig::strict();
    let v = from_str_borrowed_with_config("k: 1\n", &cfg).unwrap();
    assert!(v.as_mapping().is_some());
}

#[test]
fn duplicate_key_keeps_first_place_and_last_value() {
    let v = from_str_borrowed("a: 1\nb: 2\na: 3\n")
        .unwrap();
    let m = v.as_mapping().unwrap();
    assert_eq!(m.len(), 2);
    assert_eq!(m.entries()[0].0, "a");
    assert_eq!(m.entries()[0].1.as_i64(), Some(3));
    assert_eq!(m.entries()[1].0, "b");
}

#[test]
fn too_long_document_is_refused() {
    let cfg = ParserConfig::new().max_document_length(3);
    match from_str_borrowed_with_config("k: 1\n", &cfg) {
        Err(Error::Parse(m)) => assert_eq!(m, "document exceeds maximum length of 3 bytes"),
        other => panic!("unexpected {other:?}"),
    }
}

#[test]
fn nesting_beyond_max_depth_is_refused() {
    // [[1]]
    let cfg = ParserConfig::new().max_depth(1);
    match from_str_borrowed_with_config("[[1]]", &cfg) {
        Err(Error::RecursionLimitExceeded { depth }) => assert_eq!(depth, 2),
        other => panic!("unexpected {other:?}"),
    }
}

#[test]
fn aliases_are_refused() {
    // - &a 1\n- *a\n
    match from_str_borrowed("- &a 1\n- *a\n") {
        Err(Error::Invalid(m)) => {
            assert_eq!(m, "aliases not supported in borrowed mode; use from_str::<Value> instead")
        }
        other => panic!("unexpected {other:?}"),
    }
}

#[test]
fn scan_errors_are_located_in_the_input() {
    let tokens = vec![tok(TokenKind::StreamStart), tok(TokenKind::BlockMappingStart)];
    let input = "a: 1\nb";
    let e = ScanError { message: "could not find expected ':'".to_string(), index: 5 };
    match from_tokens_with_config(input, tokens, e, &ParserConfig::default()) {
        Err(Error::ParseWithLocation { message, location }) => {
            assert_eq!(message, "could not find expected ':'");
            assert_eq!(location.line(), 2);
            assert_eq!(location.column(), 1);
        }
        other => panic!("unexpected {other:?}"),
    }
}

#[test]
fn empty_stream_is_null() {
    let v = from_str_borrowed("").unwrap();
    assert!(v.is_null());
}

#[test]
fn scalars_resolve_by_plain_spelling() {
    let r = |s: &str| resolve_scalar(s.to_string(), ScalarStyle::Plain);
    assert!(r("").is_null());
    assert!(r("~").is_null());
    assert!(r("NULL").is_null());
    assert_eq!(r("True").as_bool(), Some(true));
    assert_eq!(r("FALSE").as_bool(), Some(false));
    assert_eq!(r("tRUE").as_str(), Some("tRUE"));
    assert_eq!(r("-42").as_i64(), Some(-42));
    assert_eq!(r("+7").as_i64(), Some(7));
    assert_eq!(r("3.25"), BorrowedValue::Number(Number::Float("3.25".to_string())));
    assert_eq!(r("1e3"), BorrowedValue::Number(Number::Float("1e3".to_string())));
    assert_eq!(r("-.Inf"), BorrowedValue::Number(Number::Float("-.Inf".to_string())));
    assert_eq!(r(".NaN"), BorrowedValue::Number(Number::Float(".NaN".to_string())));
    // Too large for i64, read as a float.
    assert_eq!(
        r("99999999999999999999"),
        BorrowedValue::Number(Number::Float("99999999999999999999".to_string()))
    );
    assert_eq!(r("0x1F").as_str(), Some("0x1F"));
    assert_eq!(r("hello").as_str(), Some("hello"));
    assert_eq!(r("1.2.3").as_str(), Some("1.2.3"));
    let q = resolve_scalar("true".to_string(), ScalarStyle::SingleQuoted);
    assert_eq!(q.as_str(), Some("true"));
}

#[test]
fn mapping_insert_replaces_in_place() {
    let mut m = BorrowedMapping::new();
    assert!(m.is_empty());
    assert!(m.insert("x".to_string(), BorrowedValue::Bool(true)).is_none());
    assert!(m.insert("y".to_string(), BorrowedValue::Null).is_none());
    let old = m.insert("x".to_string(), BorrowedValue::Bool(false));
    assert_eq!(old, Some(BorrowedValue::Bool(true)));
    assert_eq!(m.len(), 2);
    assert_eq!(m.entries()[0].0, "x");
    assert_eq!(m.get("x").unwrap().as_bool(), Some(false));
}

#[test]
fn accessors_of_other_kinds_are_none() {
    let v = BorrowedValue::Sequence(vec![BorrowedValue::Null]);
    assert_eq!(v.as_sequence().unwrap().len(), 1);
    assert!(v.as_mapping().is_none());
    assert!(v.as_str().is_none());
    assert!(v.as_i64().is_none());
    assert!(v.as_bool().is_none());
    assert!(!v.is_null());
    assert_eq!(Number::Integer(42).as_i64(), Some(42));
    assert_eq!(Number::Float("1.5".to_string()).as_i64(), None);
}
