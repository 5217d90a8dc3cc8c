use noyalib::borrowed::from_str_borrowed;
use noyalib::cst::builder::document_boundaries;
use noyalib::parser::scanner::{scan_records, tokenize};
use noyalib::parser::token::{ScalarStyle, TokenKind};

fn kinds(input: &str) -> Vec<String> {
    let (tokens, _) = tokenize(input);
    tokens.iter().map(|t| format!("{:?}", t.kind)).collect()
}

fn scalars(input: &str) -> Vec<(ScalarStyle, String)> {
    let (tokens, _) = tokenize(input);
    tokens
        .into_iter()
        .filter_map(|t| match t.kind {
            TokenKind::Scalar(style, text) => Some((style, text)),
            _ => None,
        })
        .collect()
}

#[test]
fn test_scanner_two_key_mapping() {
    let tokens = kinds("name: test\nitem: Unit\n");
    let expected = vec![
        "StreamStart",
        "BlockMappingStart",
        "Key",
        "Scalar(Plain, \"name\")",
        "Value",
        "Scalar(Plain, \"test\")",
        "Key",
        "Scalar(Plain, \"item\")",
        "Value",
        "Scalar(Plain, \"Unit\")",
        "BlockEnd",
        "StreamEnd",
    ];
    for (i, exp) in expected.iter().enumerate() {
        assert!(i < tokens.len() && tokens[i].contains(exp), "token {i}: {tokens:?}");
    }
}

#[test]
fn token_spans_cover_their_text() {
    let input = "key: value\n";
    let (tokens, end) = tokenize(input);
    for t in &tokens {
        assert!(t.span.start <= t.span.end && t.span.end <= input.len());
    }
    let value = tokens
        .iter()
        .find(|t| matches!(&t.kind, TokenKind::Scalar(_, s) if s == "value"))
        .unwrap();
    // A plain scalar read up to its line break takes the break with it.
    assert_eq!(&input[value.span.start..value.span.end], "value\n");
    assert_eq!(end.index, input.len());
}

#[test]
fn flow_sequence_tokens() {
    let tokens = kinds("[a, b]");
    assert_eq!(
        tokens,
        vec![
            "StreamStart",
            "FlowSequenceStart",
            "Scalar(Plain, \"a\")",
            "FlowEntry",
            "Scalar(Plain, \"b\")",
            "FlowSequenceEnd",
            "StreamEnd",
        ]
    );
}

#[test]
fn quoted_scalars_are_unescaped() {
    let s = scalars("a: 'it''s'\nb: \"x\\ty\\u00e9\"\n");
    assert_eq!(s[1], (ScalarStyle::SingleQuoted, "it's".to_string()));
    assert_eq!(s[3], (ScalarStyle::DoubleQuoted, "x\ty\u{e9}".to_string()));
}

#[test]
fn multi_line_plain_scalar_folds() {
    let s = scalars("a: one\n  two\n\n  three\n");
    assert_eq!(s[1], (ScalarStyle::Plain, "one two\nthree".to_string()));
}

#[test]
fn block_scalars_keep_or_fold_lines() {
    let s = scalars("lit: |\n  a\n  b\nfold: >\n  a\n  b\nstrip: |-\n  x\n");
    assert_eq!(s[1], (ScalarStyle::Literal, "a\nb\n".to_string()));
    assert_eq!(s[3], (ScalarStyle::Folded, "a b\n".to_string()));
    assert_eq!(s[5], (ScalarStyle::Literal, "x".to_string()));
}

#[test]
fn anchors_aliases_and_tags() {
    let tokens = kinds("a: &x !!str 1\nb: *x\n");
    assert!(tokens.contains(&"Anchor(\"x\")".to_string()));
    assert!(tokens.contains(&"Tag(\"!!\", \"str\")".to_string()));
    assert!(tokens.contains(&"Alias(\"x\")".to_string()));
}

#[test]
fn scanning_errors_stop_the_stream() {
    let (_, e) = tokenize("a: 'open");
    assert_eq!(e.message, "unterminated single-quoted string");
    assert_eq!(e.index, 8);
    let (_, e) = tokenize("a: \"\\q\"");
    assert_eq!(e.message, "unknown escape character '\\q'");
    let (_, e) = tokenize("x: [a]]");
    assert_eq!(e.message, "unexpected ']' outside of any flow sequence");
}

#[test]
fn records_comments_and_trivia() {
    let (trivia, tokens, comments) = scan_records("# top\nk: v  # note\n").unwrap();
    assert_eq!(comments.len(), 2);
    assert_eq!(comments[0].text, " top");
    assert!(!comments[0].inline);
    assert_eq!(comments[1].text, " note");
    assert!(comments[1].inline);
    assert!(!trivia.is_empty());
    assert!(!tokens.is_empty());
}

#[test]
fn parsing_from_text_builds_values() {
    let v = from_str_borrowed("list: [1, two, {k: v}]\n").unwrap();
    assert_eq!(v.get_path("list[0]").unwrap().as_i64(), Some(1));
    assert_eq!(v.get_path("list[1]").unwrap().as_str(), Some("two"));
    assert_eq!(v.get_path("list[2].k").unwrap().as_str(), Some("v"));
}

#[test]
fn error_exposes_location_line_column() {
    let err = from_str_borrowed("a: [unclosed").unwrap_err();
    let loc = err.location().expect("parse error must carry a location");
    assert!(loc.line() >= 1);
    assert!(loc.column() >= 1);
    let _: usize = loc.index();
}

#[test]
fn document_boundaries_split_at_markers() {
    let input = "a: 1\n---\nb: 2\n";
    let ranges = document_boundaries(input).unwrap();
    assert_eq!(ranges, vec![(0, 5), (5, input.len())]);
    assert_eq!(document_boundaries("x: 1\n").unwrap(), vec![(0, 5)]);
}
