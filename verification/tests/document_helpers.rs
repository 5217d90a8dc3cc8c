use noyalib::cst::builder::{assemble, RecordedToken, RecordedTokenKind, ScannedComment, Trivia, TriviaKind};
use noyalib::cst::document::{
    can_use_block_literal, column_of_preceding_dash, dominant_sibling_value_kind, end_of_line,
    entry_indent_column, entry_value_scalar_kind, format_block_literal, format_double_quoted,
    format_single_quoted, format_string_for_site, is_block_site, is_plain_safe, leaf_kind_at,
    line_extent, locate_preceding_dash, require_single_line, trim_trailing_blank, SiteContext,
};
use noyalib::cst::{GreenChild, GreenNode, SyntaxKind};
use noyalib::error::Error;

#[test]
fn plain_safety() {
    for s in ["hello", "a b", "x:y", "a#b", "naïve", "key-value", "1.2.3"] {
        assert!(is_plain_safe(s), "{s}");
    }
    for s in [
        "", "null", "~", "True", "no", "OFF", "12", "-3", ".inf", "0x1f", "1e5", "-x", "?x",
        ":x", "#c", "&a", "*a", "!t", "|", ">", "'q", "\"q", "%d", "@a", "`b", " lead", "trail ",
        "tab\t", "a: b", "a #b", "line\nbreak", "bell\u{7}", "del\u{7f}",
    ] {
        assert!(!is_plain_safe(s), "{s:?}");
    }
}

#[test]
fn quoting() {
    assert_eq!(format_single_quoted("it's"), "'it''s'");
    assert_eq!(format_single_quoted(""), "''");
    assert_eq!(format_double_quoted("a\"b\\c"), "\"a\\\"b\\\\c\"");
    assert_eq!(format_double_quoted("l1\nl2\r\t"), "\"l1\\nl2\\r\\t\"");
    assert_eq!(format_double_quoted("\u{8}\u{c}\u{1}\u{1f}"), "\"\\b\\f\\u0001\\u001F\"");
    assert_eq!(format_double_quoted("é✓"), "\"é✓\"");
}

#[test]
fn block_literals() {
    assert!(can_use_block_literal("a\nb"));
    assert!(can_use_block_literal("a\nb\n"));
    assert!(can_use_block_literal("a\n\nb"));
    assert!(!can_use_block_literal(""));
    assert!(!can_use_block_literal("a\nb\n\n"));
    assert!(!can_use_block_literal("a\n b"));
    assert!(!can_use_block_literal("\ta"));
    assert!(!can_use_block_literal("a\u{1}b"));
    assert_eq!(format_block_literal("a\nb", 0), "|-\n  a\n  b");
    assert_eq!(format_block_literal("a\nb\n", 2), "|\n    a\n    b");
    assert!(is_block_site(SyntaxKind::FoldedScalar));
    assert!(!is_block_site(SyntaxKind::Comment));
}

#[test]
fn line_arithmetic() {
    let src = "a: 1  \n  - x\nlast";
    assert_eq!(trim_trailing_blank(src, 0, 7), (0, 4));
    assert_eq!(trim_trailing_blank(src, 5, 7), (5, 5));
    assert_eq!(end_of_line(src, 0), 7);
    assert_eq!(end_of_line(src, 7), 13);
    assert_eq!(end_of_line(src, 14), 17);
    assert_eq!(locate_preceding_dash(src, 11), Some(9));
    assert_eq!(locate_preceding_dash(src, 3), None);
    assert_eq!(column_of_preceding_dash(src, 11), Some(2));
    assert_eq!(line_extent(src, 9, 12), (7, 13));
    assert_eq!(line_extent(src, 14, 17), (13, 17));
    assert_eq!(entry_indent_column(src, 11), 2);
    assert_eq!(entry_indent_column(src, 100), 0);
    assert!(require_single_line(src, 0, 6).is_ok());
    match require_single_line(src, 0, 8) {
        Err(Error::Parse(m)) => {
            assert_eq!(m, "remove: multi-line / nested-value entries are not yet supported")
        }
        _ => panic!("expected a refusal"),
    }
}

fn site(kind: SyntaxKind, neighbour: Option<SyntaxKind>) -> SiteContext {
    SiteContext { kind, neighbour, entry_col: 2 }
}

#[test]
fn spelling_at_a_site() {
    let plain = SyntaxKind::PlainScalar;
    let ok = |s: &str, c: SiteContext| format_string_for_site(s, &c).ok().unwrap();
    assert_eq!(ok("hello", site(plain, None)), "hello");
    assert_eq!(ok("yes", site(plain, None)), "\"yes\"");
    assert_eq!(ok("hello", site(plain, Some(SyntaxKind::SingleQuotedScalar))), "'hello'");
    assert_eq!(ok("hello", site(plain, Some(SyntaxKind::DoubleQuotedScalar))), "\"hello\"");
    assert_eq!(ok("a\nb", site(plain, None)), "|-\n    a\n    b");
    assert_eq!(ok("a\n b", site(plain, Some(SyntaxKind::SingleQuotedScalar))), "\"a\\n b\"");
    assert_eq!(ok("x", site(SyntaxKind::SingleQuotedScalar, None)), "'x'");
    match format_string_for_site("x", &site(SyntaxKind::FoldedScalar, None)) {
        Err(Error::Parse(m)) => assert!(m.starts_with("set_value: existing block scalar")),
        _ => panic!("expected a refusal"),
    }
    match format_string_for_site("a\n b", &site(SyntaxKind::LiteralScalar, None)) {
        Err(Error::Parse(m)) => assert!(m.starts_with("set_value: existing block scalar")),
        _ => panic!("expected a refusal"),
    }
    match format_string_for_site("x", &site(SyntaxKind::Comment, None)) {
        Err(Error::Parse(m)) => assert_eq!(m, "set_value: target site is not a scalar leaf"),
        _ => panic!("expected a refusal"),
    }
}

fn tok(kind: RecordedTokenKind, start: usize, end: usize) -> RecordedToken {
    RecordedToken { start, end, kind }
}

fn triv(kind: TriviaKind, start: usize, end: usize) -> Trivia {
    Trivia { start, end, kind }
}

/// The tree of `a: 'x' # c\nb: "y"\n` as the scanner records it.
fn mapping_tree() -> GreenNode {
    let tokens = vec![
        tok(RecordedTokenKind::BlockMapStart, 0, 0),
        tok(RecordedTokenKind::SyntheticKey, 0, 0),
        tok(RecordedTokenKind::PlainScalar, 0, 1),
        tok(RecordedTokenKind::ColonIndicator, 1, 2),
        tok(RecordedTokenKind::SingleQuotedScalar, 3, 6),
        tok(RecordedTokenKind::SyntheticKey, 11, 11),
        tok(RecordedTokenKind::PlainScalar, 11, 12),
        tok(RecordedTokenKind::ColonIndicator, 12, 13),
        tok(RecordedTokenKind::DoubleQuotedScalar, 14, 17),
        tok(RecordedTokenKind::BlockEnd, 18, 18),
    ];
    let trivia = vec![
        triv(TriviaKind::Whitespace, 2, 3),
        triv(TriviaKind::Whitespace, 6, 7),
        triv(TriviaKind::Newline, 10, 11),
        triv(TriviaKind::Whitespace, 13, 14),
        triv(TriviaKind::Newline, 17, 18),
    ];
    let comments = vec![ScannedComment { start: 7, end: 10, text: "# c".to_string(), inline: true }];
    assemble(trivia, tokens, comments)
}

#[test]
fn assembled_tree_reproduces_the_source() {
    let src = "a: 'x' # c\nb: \"y\"\n";
    let root = mapping_tree();
    assert_eq!(root.kind(), SyntaxKind::Document);
    assert_eq!(root.text_len(), src.len());
    assert_eq!(root.text(src), src);
    assert_eq!(root.children().len(), 1);
    let mapping = match &root.children()[0] {
        GreenChild::Node(n) => n,
        _ => panic!("expected the mapping node"),
    };
    assert_eq!(mapping.kind(), SyntaxKind::BlockMapping);
    assert_eq!(mapping.children().len(), 2);
    let copy = root.clone();
    assert_eq!(copy.text(src), src);
}

#[test]
fn leaf_lookup_and_entry_values() {
    let root = mapping_tree();
    assert_eq!(leaf_kind_at(&root, 0), Some(SyntaxKind::PlainScalar));
    assert_eq!(leaf_kind_at(&root, 4), Some(SyntaxKind::SingleQuotedScalar));
    assert_eq!(leaf_kind_at(&root, 8), Some(SyntaxKind::Comment));
    assert_eq!(leaf_kind_at(&root, 10), Some(SyntaxKind::Newline));
    assert_eq!(leaf_kind_at(&root, 15), Some(SyntaxKind::DoubleQuotedScalar));
    assert_eq!(leaf_kind_at(&root, 18), None);
    let mapping = match &root.children()[0] {
        GreenChild::Node(n) => n,
        _ => panic!("expected the mapping node"),
    };
    let first = match &mapping.children()[0] {
        GreenChild::Node(n) => n,
        _ => panic!("expected an entry"),
    };
    assert_eq!(first.kind(), SyntaxKind::MappingEntry);
    assert_eq!(entry_value_scalar_kind(first), Some(SyntaxKind::SingleQuotedScalar));
    // One single-quoted and one double-quoted sibling: no dominant style.
    assert_eq!(dominant_sibling_value_kind(mapping, None), None);
    assert_eq!(dominant_sibling_value_kind(mapping, Some(1)), None);
}

#[test]
fn dominant_style_needs_two_agreeing_siblings() {
    let entry = |kind: SyntaxKind| {
        GreenChild::Node(GreenNode::new(
            SyntaxKind::MappingEntry,
            vec![
                GreenChild::Token { kind: SyntaxKind::PlainScalar, len: 1 },
                GreenChild::Token { kind: SyntaxKind::ColonIndicator, len: 1 },
                GreenChild::Token { kind: SyntaxKind::Whitespace, len: 1 },
                GreenChild::Token { kind, len: 3 },
            ],
        ))
    };
    let mapping = GreenNode::new(
        SyntaxKind::BlockMapping,
        vec![
            entry(SyntaxKind::SingleQuotedScalar),
            entry(SyntaxKind::SingleQuotedScalar),
            entry(SyntaxKind::PlainScalar),
        ],
    );
    assert_eq!(dominant_sibling_value_kind(&mapping, Some(2)), Some(SyntaxKind::SingleQuotedScalar));
    assert_eq!(dominant_sibling_value_kind(&mapping, Some(0)), None);
    assert_eq!(mapping.text_len(), 18);
}
