use noyalib::error::{closest_name, Error, Location};
use std::sync::Arc;

#[test]
fn test_location_from_index() {
    let source = "line1\nline2\nline3";
    let loc0 = Location::from_index(source, 0);
    assert_eq!(loc0.line(), 1);
    assert_eq!(loc0.column(), 1);
    let loc6 = Location::from_index(source, 6);
    assert_eq!(loc6.line(), 2);
    assert_eq!(loc6.column(), 1);
    let loc9 = Location::from_index(source, 9);
    assert_eq!(loc9.line(), 2);
    assert_eq!(loc9.column(), 4);
}

#[test]
fn location_counts_characters_not_bytes() {
    let source = "é: x\nü";
    let loc = Location::from_index(source, 3);
    assert_eq!((loc.line(), loc.column()), (1, 3));
    let far = Location::from_index(source, 100);
    assert_eq!((far.line(), far.column(), far.index()), (2, 2, 100));
}

#[test]
fn test_error_into_shared() {
    let error = Error::Parse("test error".to_string());
    let shared = error.into_shared();
    assert_eq!(shared.to_string(), "YAML parse error: test error");
}

#[test]
fn test_error_from_shared() {
    let original = Error::Parse("test error".to_string());
    let shared = original.into_shared();
    let error = Error::from_shared(Arc::clone(&shared));
    assert!(error.is_shared());
    assert_eq!(error.to_string(), "YAML parse error: test error");
}

#[test]
fn test_error_is_shared() {
    let error = Error::Parse("test".to_string());
    assert!(!error.is_shared());
    let shared_error = Error::from_shared(error.into_shared());
    assert!(shared_error.is_shared());
}

#[test]
fn test_error_as_inner() {
    let error = Error::Parse("test".to_string());
    assert!(error.as_inner().is_none());
    let shared_error = Error::from_shared(error.into_shared());
    let inner = shared_error.as_inner().unwrap();
    assert_eq!(inner.to_string(), "YAML parse error: test");
}

#[test]
fn test_shared_error_location() {
    let location = Location::new(10, 5, 100);
    let error = Error::ParseWithLocation { message: "test".to_string(), location };
    let shared = Error::from_shared(error.into_shared());
    let loc = shared.location().unwrap();
    assert_eq!(loc.line(), 10);
    assert_eq!(loc.column(), 5);
    assert_eq!(loc.index(), 100);
}

#[test]
fn test_double_into_shared() {
    let error = Error::Parse("test".to_string());
    let shared1 = error.into_shared();
    let shared_error = Error::from_shared(Arc::clone(&shared1));
    let shared2 = shared_error.into_shared();
    assert!(Arc::ptr_eq(&shared1, &shared2));
}

#[test]
fn test_new_error_types() {
    let errors: Vec<Error> = vec![
        Error::RepetitionLimitExceeded,
        Error::UnknownAnchor("test_anchor".to_string()),
        Error::ScalarInMerge,
        Error::TaggedInMerge,
        Error::ScalarInMergeElement,
        Error::SequenceInMergeElement,
        Error::EmptyTag,
        Error::FailedToParseNumber("abc".to_string()),
        Error::EndOfStream,
        Error::MoreThanOneDocument,
    ];
    for error in errors {
        let msg = error.to_string();
        assert!(!msg.is_empty(), "Error message should not be empty: {:?}", error);
    }
}

#[test]
fn error_display_texts() {
    let loc = Location::new(3, 7, 20);
    let e = Error::ParseWithLocation { message: "bad".to_string(), location: loc };
    assert_eq!(e.to_string(), "YAML parse error at line 3, column 7: bad");
    let e = Error::TypeMismatch { expected: "int", found: "string".to_string() };
    assert_eq!(e.to_string(), "type mismatch: expected int, found string");
    let e = Error::RecursionLimitExceeded { depth: 129 };
    assert_eq!(e.to_string(), "recursion limit exceeded at depth 129");
    assert_eq!(Error::Custom("plain".to_string()).to_string(), "plain");
    assert_eq!(loc.to_string(), "line 3, column 7");
}

#[test]
fn error_parse_at_computes_location() {
    let e = Error::parse_at("oops".to_string(), "a: 1\nb: [\n", 8);
    let loc = e.location().unwrap();
    assert_eq!((loc.line(), loc.column(), loc.index()), (2, 4, 8));
    let e = Error::deserialize_at("bad".to_string(), "x", 0);
    assert!(matches!(e, Error::DeserializeWithLocation { .. }));
    assert_eq!(e.location().unwrap().line(), 1);
}

#[test]
fn format_with_source_renders_excerpt() {
    let src = "name: test\nport: not_a_number\n";
    let e = Error::parse_at("invalid port".to_string(), src, 17);
    let out = e.format_with_source(src);
    let expected = "error: YAML parse error at line 2, column 7: invalid port\n   --> line 2:7\n    |\n  2 | port: not_a_number\n    |       ^";
    assert_eq!(out, expected);
}

#[test]
fn format_with_source_falls_back_without_location() {
    let e = Error::EndOfStream;
    assert_eq!(e.format_with_source("a: 1\n"), "unexpected end of YAML stream");
    let e = Error::ParseWithLocation { message: "m".to_string(), location: Location::new(9, 1, 0) };
    assert_eq!(e.format_with_source("a: 1\n"), e.to_string());
}

#[test]
fn format_with_source_strips_carriage_return() {
    let e = Error::ParseWithLocation { message: "m".to_string(), location: Location::new(1, 1, 0) };
    let out = e.format_with_source("ab\r\ncd");
    assert!(out.contains("  1 | ab\n"));
}

#[test]
fn closest_name_suggests_near_typos() {
    assert_eq!(closest_name("loger", &["logger", "other"]), Some("logger"));
    assert_eq!(closest_name("abc", &["abd", "abe"]), Some("abd"));
    assert_eq!(closest_name("ab", &["xyz"]), None);
    assert_eq!(closest_name("config", &["confg", "conf"]), Some("confg"));
    assert_eq!(closest_name("x", &[]), None);
}

#[test]
fn diagnostic_codes_look_through_sharing() {
    assert_eq!(Error::Parse("x".to_string()).code(), "noyalib::parse");
    assert_eq!(Error::EndOfStream.code(), "noyalib::eof");
    assert_eq!(Error::EmptyTag.code(), "noyalib::error");
    let shared = Error::from_shared(Error::DuplicateKey("k".to_string()).into_shared());
    assert_eq!(shared.code(), "noyalib::duplicate_key");
    assert_eq!(
        shared.to_string(),
        Error::DuplicateKey("k".to_string()).to_string()
    );
}

#[test]
fn diagnostic_help_and_labels() {
    assert_eq!(
        Error::RepetitionLimitExceeded.help().as_deref(),
        Some("Increase ParserConfig::max_alias_expansions or reduce alias usage")
    );
    assert_eq!(Error::EmptyTag.help(), None);
    let at = Location::new(2, 3, 10);
    let e = Error::UnknownAnchorAt {
        name: "bsae".to_string(),
        location: at,
        suggestion: Some(("base".to_string(), Location::new(1, 1, 4))),
    };
    assert_eq!(e.help().as_deref(), Some("did you mean '&base'?"));
    assert_eq!(
        e.labels(),
        Some(vec![
            (10, "unknown anchor 'bsae'".to_string()),
            (4, "did you mean this anchor '&base'?".to_string()),
        ])
    );
    let plain = Error::UnknownAnchorAt { name: "x".to_string(), location: at, suggestion: None };
    assert_eq!(plain.help().as_deref(), Some("Define the anchor (&name) before referencing it"));
    assert_eq!(plain.labels(), Some(vec![(10, "unknown anchor 'x'".to_string())]));
    let located = Error::ParseWithLocation { message: "m".to_string(), location: at };
    assert_eq!(located.labels(), Some(vec![(10, "here".to_string())]));
    assert_eq!(Error::Parse("m".to_string()).labels(), None);
}
