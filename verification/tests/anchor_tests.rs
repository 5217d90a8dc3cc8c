use noyalib::anchors::{format_id, AnchorRegistry, AnchorState, ArcAnchorRegistry, RcAnchor, TrackOutcome};
use noyalib::cst::anchor::{aliases, aliases_of, anchors, is_trivia_or_property, is_valid_anchor_name};
use noyalib::cst::builder::{assemble, RecordedToken, RecordedTokenKind, Trivia, TriviaKind};
use noyalib::cst::{GreenChild, GreenNode, SyntaxKind};
use std::rc::Rc;
use std::sync::Arc;

#[test]
fn registry_resolves_what_was_registered() {
    let mut reg = AnchorRegistry::<String>::new();
    assert!(reg.is_empty());
    let rc = reg.register("shared".into(), "hello".into());
    let alias = reg.resolve("shared").unwrap();
    assert!(Rc::ptr_eq(&rc, &alias));
    assert_eq!(reg.len(), 1);
    assert!(reg.resolve("other").is_none());
    let again = reg.register("shared".into(), "bye".into());
    assert_eq!(reg.len(), 1);
    assert_eq!(*reg.resolve("shared").unwrap(), "bye");
    assert!(Rc::ptr_eq(&again, &reg.resolve("shared").unwrap()));
    reg.register("second".into(), "x".into());
    assert_eq!(reg.len(), 2);
    reg.clear();
    assert!(reg.is_empty());
    assert!(reg.resolve("shared").is_none());
}

#[test]
fn arc_registry_shares_one_allocation() {
    let mut reg = ArcAnchorRegistry::<String>::new();
    let arc = reg.register("shared".into(), "hello".into());
    let alias = reg.resolve("shared").unwrap();
    assert!(Arc::ptr_eq(&arc, &alias));
    assert_eq!(reg.len(), 1);
    let default: ArcAnchorRegistry<u8> = ArcAnchorRegistry::default();
    assert!(default.is_empty());
}

#[test]
fn tracking_anchors_then_aliases() {
    let mut state = AnchorState::new();
    assert_eq!(state.track(0x1000), TrackOutcome::New(1));
    assert_eq!(state.track(0x2000), TrackOutcome::New(2));
    assert_eq!(state.track(0x1000), TrackOutcome::Existing(1));
    assert_eq!(state.peek(0x2000), Some(2));
    assert_eq!(state.peek(0x3000), None);
    assert_eq!(state.track(0x3000), TrackOutcome::New(3));
}

#[test]
fn anchor_ids_are_zero_padded() {
    assert_eq!(format_id(1), "id001");
    assert_eq!(format_id(42), "id042");
    assert_eq!(format_id(999), "id999");
    assert_eq!(format_id(1234), "id1234");
    assert_eq!(format_id(0), "id000");
}

#[test]
fn rc_anchor_unwraps() {
    let a = RcAnchor(Rc::new(5));
    assert_eq!(*a.into_inner(), 5);
}

fn tok(kind: RecordedTokenKind, start: usize, end: usize) -> RecordedToken {
    RecordedToken { start, end, kind }
}

#[test]
fn marks_listed_in_source_order() {
    // "a: &x 1\nb: *x\nc: *y\n"
    let src = "a: &x 1\nb: *x\nc: *y\n";
    let t = |k, s, e| tok(k, s, e);
    let tokens = vec![
        t(RecordedTokenKind::BlockMapStart, 0, 0),
        t(RecordedTokenKind::SyntheticKey, 0, 0),
        t(RecordedTokenKind::PlainScalar, 0, 1),
        t(RecordedTokenKind::ColonIndicator, 1, 2),
        t(RecordedTokenKind::AnchorMark, 3, 5),
        t(RecordedTokenKind::PlainScalar, 6, 7),
        t(RecordedTokenKind::SyntheticKey, 8, 8),
        t(RecordedTokenKind::PlainScalar, 8, 9),
        t(RecordedTokenKind::ColonIndicator, 9, 10),
        t(RecordedTokenKind::AliasMark, 11, 13),
        t(RecordedTokenKind::SyntheticKey, 14, 14),
        t(RecordedTokenKind::PlainScalar, 14, 15),
        t(RecordedTokenKind::ColonIndicator, 15, 16),
        t(RecordedTokenKind::AliasMark, 17, 19),
        t(RecordedTokenKind::BlockEnd, 20, 20),
    ];
    let w = |s, e| Trivia { start: s, end: e, kind: TriviaKind::Whitespace };
    let nl = |s, e| Trivia { start: s, end: e, kind: TriviaKind::Newline };
    let trivia = vec![w(2, 3), w(5, 6), nl(7, 8), w(10, 11), nl(13, 14), w(16, 17), nl(19, 20)];
    let root = assemble(trivia, tokens, Vec::new());
    assert_eq!(root.text(src), src);
    let found = anchors(&root, src);
    assert_eq!(found.len(), 1);
    assert_eq!(found[0].name, "x");
    assert_eq!(found[0].mark_span, (3, 5));
    let refs = aliases(&root, src);
    assert_eq!(refs.len(), 2);
    assert_eq!((refs[0].name.as_str(), refs[0].mark_span), ("x", (11, 13)));
    assert_eq!((refs[1].name.as_str(), refs[1].mark_span), ("y", (17, 19)));
    let xs = aliases_of(&root, src, "x");
    assert_eq!(xs.len(), 1);
    assert_eq!(xs[0], refs[0]);
    assert!(aliases_of(&root, src, "z").is_empty());
}

#[test]
fn anchor_names_and_properties() {
    assert!(is_valid_anchor_name("base-1"));
    assert!(is_valid_anchor_name("ключ"));
    assert!(!is_valid_anchor_name(""));
    assert!(!is_valid_anchor_name("a b"));
    assert!(!is_valid_anchor_name("a,b"));
    assert!(!is_valid_anchor_name("x]"));
    assert!(is_trivia_or_property(SyntaxKind::TagMark));
    assert!(is_trivia_or_property(SyntaxKind::Comment));
    assert!(!is_trivia_or_property(SyntaxKind::PlainScalar));
}

/// A flat tree of `src`'s leaves: `&name` and `*name` marks, blank runs,
/// line breaks, `:` indicators, and other runs as plain scalars.
fn flat_tree(src: &str) -> GreenNode {
    let b = src.as_bytes();
    let mut leaves = Vec::new();
    let mut i = 0;
    while i < b.len() {
        let start = i;
        let kind = match b[i] {
            b'&' | b'*' => {
                i += 1;
                while i < b.len() && !matches!(b[i], b' ' | b'\n') {
                    i += 1;
                }
                if b[start] == b'&' {
                    SyntaxKind::AnchorMark
                } else {
                    SyntaxKind::AliasMark
                }
            }
            b' ' => {
                while i < b.len() && b[i] == b' ' {
                    i += 1;
                }
                SyntaxKind::Whitespace
            }
            b'\n' => {
                i += 1;
                SyntaxKind::Newline
            }
            b':' => {
                i += 1;
                SyntaxKind::ColonIndicator
            }
            _ => {
                while i < b.len() && !matches!(b[i], b' ' | b'\n' | b':') {
                    i += 1;
                }
                SyntaxKind::PlainScalar
            }
        };
        leaves.push(GreenChild::Token { kind, len: i - start });
    }
    GreenNode::new(SyntaxKind::Document, leaves)
}

#[test]
fn anchors_listed_in_source_order() {
    let src = "a: &one 1\nb: &two 2\nc: 3\n";
    let root = flat_tree(src);
    let anchors = anchors(&root, src);
    assert_eq!(anchors.len(), 2);
    assert_eq!(anchors[0].name, "one");
    assert_eq!(anchors[1].name, "two");
    let (s, e) = anchors[0].mark_span;
    assert_eq!(&src[s..e], "&one");
}

#[test]
fn aliases_listed_in_source_order() {
    let src = "a: &one 1\nb: *one\nc: *one\n";
    let root = flat_tree(src);
    let aliases = aliases(&root, src);
    assert_eq!(aliases.len(), 2);
    assert_eq!(aliases[0].name, "one");
    assert_eq!(aliases[1].name, "one");
    let (s, e) = aliases[0].mark_span;
    assert_eq!(&src[s..e], "*one");
}

#[test]
fn aliases_of_filters_by_name() {
    let src = "a: &x 1\nb: &y 2\nc: *x\nd: *y\ne: *x\n";
    let root = flat_tree(src);
    assert_eq!(aliases_of(&root, src, "x").len(), 2);
    assert_eq!(aliases_of(&root, src, "y").len(), 1);
    assert_eq!(aliases_of(&root, src, "missing").len(), 0);
}

#[test]
fn no_anchors_no_aliases() {
    let src = "a: 1\nb: 2\n";
    let root = flat_tree(src);
    assert!(anchors(&root, src).is_empty());
    assert!(aliases(&root, src).is_empty());
}

#[test]
fn anchor_on_block_value_is_visible() {
    let src = "defaults: &cfg\n  port: 8080\n  host: db1\n";
    let root = flat_tree(src);
    let anchors = anchors(&root, src);
    assert_eq!(anchors.len(), 1);
    assert_eq!(anchors[0].name, "cfg");
}
