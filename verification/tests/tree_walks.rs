use noyalib::cst::anchor::{
    anchored_scalar_text, materialise_alias_at, rename_anchor, walk_anchor_value_spans,
};
use noyalib::cst::siblings::{enclosing_mapping_and_entry, sibling_dominant_scalar_kind};
use noyalib::cst::splice::rebuild_with_splice;
use noyalib::cst::{GreenChild, GreenNode, SyntaxKind};
use noyalib::error::Error;

fn leaf(kind: SyntaxKind, len: usize) -> GreenChild {
    GreenChild::Token { kind, len }
}

/// A mapping entry `k: v\n` with a one-byte key and a value leaf.
fn entry(value_kind: SyntaxKind, value_len: usize) -> GreenNode {
    GreenNode::new(
        SyntaxKind::MappingEntry,
        vec![
            leaf(SyntaxKind::PlainScalar, 1),
            leaf(SyntaxKind::ColonIndicator, 1),
            leaf(SyntaxKind::Whitespace, 1),
            leaf(value_kind, value_len),
            leaf(SyntaxKind::Newline, 1),
        ],
    )
}

fn document(entries: Vec<GreenNode>) -> GreenNode {
    let mapping =
        GreenNode::new(SyntaxKind::BlockMapping, entries.into_iter().map(GreenChild::Node).collect());
    GreenNode::new(SyntaxKind::Document, vec![GreenChild::Node(mapping)])
}

#[test]
fn splice_replaces_one_entry() {
    // a: 1\nb: 2\n
    let root = document(vec![entry(SyntaxKind::PlainScalar, 1), entry(SyntaxKind::PlainScalar, 1)]);
    assert_eq!(root.text_len(), 10);
    let new_entry = entry(SyntaxKind::PlainScalar, 3);
    let out = rebuild_with_splice(&root, 5, 10, new_entry);
    assert_eq!(out.kind(), SyntaxKind::Document);
    assert_eq!(out.text_len(), 12);
    assert_eq!(out.text("a: 1\nb: 100\n"), "a: 1\nb: 100\n");
}

#[test]
fn splice_without_a_matching_node_changes_nothing() {
    let root = document(vec![entry(SyntaxKind::PlainScalar, 1), entry(SyntaxKind::PlainScalar, 1)]);
    // [3, 4) is a leaf, not a node.
    let out = rebuild_with_splice(&root, 3, 4, entry(SyntaxKind::PlainScalar, 5));
    assert_eq!(out.text_len(), 10);
    assert_eq!(out.text("a: 1\nb: 2\n"), "a: 1\nb: 2\n");
    // A node of another kind at the exact span is not replaced either.
    let seq = GreenNode::new(SyntaxKind::BlockSequence, vec![leaf(SyntaxKind::PlainScalar, 9)]);
    let out = rebuild_with_splice(&root, 0, 5, seq);
    assert_eq!(out.text_len(), 10);
}

/// `a: &x 1\nb: *x\n`
fn anchored_doc() -> (&'static str, GreenNode) {
    let e1 = GreenNode::new(
        SyntaxKind::MappingEntry,
        vec![
            leaf(SyntaxKind::PlainScalar, 1),
            leaf(SyntaxKind::ColonIndicator, 1),
            leaf(SyntaxKind::Whitespace, 1),
            leaf(SyntaxKind::AnchorMark, 2),
            leaf(SyntaxKind::Whitespace, 1),
            leaf(SyntaxKind::PlainScalar, 1),
            leaf(SyntaxKind::Newline, 1),
        ],
    );
    let e2 = GreenNode::new(
        SyntaxKind::MappingEntry,
        vec![
            leaf(SyntaxKind::PlainScalar, 1),
            leaf(SyntaxKind::ColonIndicator, 1),
            leaf(SyntaxKind::Whitespace, 1),
            leaf(SyntaxKind::AliasMark, 2),
            leaf(SyntaxKind::Newline, 1),
        ],
    );
    ("a: &x 1\nb: *x\n", document(vec![e1, e2]))
}

fn parse_message(r: Result<&str, Error>) -> String {
    match r {
        Err(Error::Parse(m)) => m,
        other => panic!("expected a parse error, got {other:?}"),
    }
}

#[test]
fn anchors_with_their_values() {
    let (src, root) = anchored_doc();
    let found = walk_anchor_value_spans(&root, src, 0);
    assert_eq!(found.len(), 1);
    assert_eq!(found[0].name, "x");
    assert_eq!(found[0].mark_span, (3, 5));
    assert_eq!(found[0].value_span, (6, 7));
}

#[test]
fn anchored_scalar_text_reads_the_value() {
    let (src, root) = anchored_doc();
    assert_eq!(anchored_scalar_text(&root, src, "x", 10).unwrap(), "1");
    assert_eq!(
        parse_message(anchored_scalar_text(&root, src, "x", 3)),
        "materialise_alias_at: no `&x` anchor declared before byte 3"
    );
    assert_eq!(
        parse_message(anchored_scalar_text(&root, src, "y", 100)),
        "materialise_alias_at: no `&y` anchor declared before byte 100"
    );
}

#[test]
fn anchored_scalar_text_refuses_empty_and_block_values() {
    // a: &x\n
    let e = GreenNode::new(
        SyntaxKind::MappingEntry,
        vec![
            leaf(SyntaxKind::PlainScalar, 1),
            leaf(SyntaxKind::ColonIndicator, 1),
            leaf(SyntaxKind::Whitespace, 1),
            leaf(SyntaxKind::AnchorMark, 2),
            leaf(SyntaxKind::Newline, 1),
        ],
    );
    let root = document(vec![e]);
    assert_eq!(
        parse_message(anchored_scalar_text(&root, "a: &x\n", "x", 6)),
        "materialise_alias_at: anchor `&x` decorates an empty value"
    );
    // a: &x\n  k: v\n  j: w\n
    let src = "a: &x\n  k: v\n  j: w\n";
    let inner = |_: ()| {
        GreenNode::new(
            SyntaxKind::MappingEntry,
            vec![
                leaf(SyntaxKind::Whitespace, 2),
                leaf(SyntaxKind::PlainScalar, 1),
                leaf(SyntaxKind::ColonIndicator, 1),
                leaf(SyntaxKind::Whitespace, 1),
                leaf(SyntaxKind::PlainScalar, 1),
                leaf(SyntaxKind::Newline, 1),
            ],
        )
    };
    let block = GreenNode::new(
        SyntaxKind::BlockMapping,
        vec![GreenChild::Node(inner(())), GreenChild::Node(inner(()))],
    );
    let e = GreenNode::new(
        SyntaxKind::MappingEntry,
        vec![
            leaf(SyntaxKind::PlainScalar, 1),
            leaf(SyntaxKind::ColonIndicator, 1),
            leaf(SyntaxKind::Whitespace, 1),
            leaf(SyntaxKind::AnchorMark, 2),
            leaf(SyntaxKind::Newline, 1),
            GreenChild::Node(block),
        ],
    );
    let root = document(vec![e]);
    assert_eq!(root.text_len(), src.len());
    let m = parse_message(anchored_scalar_text(&root, src, "x", 20));
    assert!(m.starts_with("materialise_alias_at: anchor `&x` decorates a multi-line block value"));
}

#[test]
fn sibling_quoting_style_of_an_edit_site() {
    // a: 'x'\nb: 'y'\nc: 'z'\nd: w\n
    let q = SyntaxKind::SingleQuotedScalar;
    let root = document(vec![entry(q, 3), entry(q, 3), entry(q, 3), entry(SyntaxKind::PlainScalar, 1)]);
    // A byte in the last entry's value.
    let (mapping, exclude) = enclosing_mapping_and_entry(&root, 21, 0).unwrap();
    assert_eq!(mapping.kind(), SyntaxKind::BlockMapping);
    assert_eq!(exclude, Some(3));
    assert_eq!(sibling_dominant_scalar_kind(&root, 21), Some(q));
    // A byte in the first entry: two quoted siblings against one plain.
    assert_eq!(sibling_dominant_scalar_kind(&root, 3), Some(q));
}

#[test]
fn no_dominant_style_without_two_agreeing_siblings() {
    let q = SyntaxKind::DoubleQuotedScalar;
    let root = document(vec![entry(q, 3), entry(q, 3), entry(SyntaxKind::PlainScalar, 1)]);
    // Editing a quoted entry leaves one quoted sibling and one plain.
    assert_eq!(sibling_dominant_scalar_kind(&root, 3), None);
    // Editing the plain entry leaves two quoted siblings.
    assert_eq!(sibling_dominant_scalar_kind(&root, 15), Some(q));
    // Past the end of the document there is no leaf.
    assert!(enclosing_mapping_and_entry(&root, 100, 0).is_none());
    assert_eq!(sibling_dominant_scalar_kind(&root, 100), None);
}

fn edit_message(r: Result<String, Error>) -> String {
    match r {
        Err(Error::Parse(m)) => m,
        other => panic!("expected a parse error, got {other:?}"),
    }
}

#[test]
fn materialise_alias_replaces_the_alias_by_its_value() {
    let (src, root) = anchored_doc();
    assert_eq!(materialise_alias_at(&root, src, 11).unwrap(), "a: &x 1\nb: 1\n");
    assert_eq!(
        edit_message(materialise_alias_at(&root, src, 5)),
        "materialise_alias_at: no alias mark begins at byte 5"
    );
}

#[test]
fn rename_anchor_renames_declaration_and_references() {
    let (src, root) = anchored_doc();
    let (out, n) = rename_anchor(&root, src, "x", "yy").unwrap();
    assert_eq!(out, "a: &yy 1\nb: *yy\n");
    assert_eq!(n, 2);
    match rename_anchor(&root, src, "x", "bad name") {
        Err(Error::Parse(m)) => assert_eq!(
            m,
            "rename_anchor: `bad name` is not a valid YAML anchor name (must be non-empty and free of flow indicators / whitespace)"
        ),
        other => panic!("unexpected {other:?}"),
    }
    match rename_anchor(&root, src, "q", "y") {
        Err(Error::Parse(m)) => assert_eq!(
            m,
            "rename_anchor: no `&q` declaration or `*q` reference found in the document"
        ),
        other => panic!("unexpected {other:?}"),
    }
}
