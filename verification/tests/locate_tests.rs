use noyalib::cst::locate::{entry_line_span, resolve_span, EntrySpans, NodeSpans};
use noyalib::error::Error;
use noyalib::path::parse_query_path;

fn entry(key: &str, key_span: (usize, usize), value: NodeSpans) -> EntrySpans {
    EntrySpans { key: key.to_string(), key_span, value }
}

/// `a: 1\nb: 2\nc: 3\n`
fn flat() -> (&'static str, NodeSpans) {
    let src = "a: 1\nb: 2\nc: 3\n";
    let tree = NodeSpans::Mapping {
        start: 0,
        end: 15,
        entries: vec![
            entry("a", (0, 1), NodeSpans::Leaf(3, 4)),
            entry("b", (5, 6), NodeSpans::Leaf(8, 9)),
            entry("c", (10, 11), NodeSpans::Leaf(13, 14)),
        ],
    };
    (src, tree)
}

/// `items:\n  - one\n  - two\n`
fn items() -> (&'static str, NodeSpans) {
    let src = "items:\n  - one\n  - two\n";
    let tree = NodeSpans::Mapping {
        start: 0,
        end: 23,
        entries: vec![entry(
            "items",
            (0, 5),
            NodeSpans::Sequence {
                start: 9,
                end: 22,
                items: vec![NodeSpans::Leaf(11, 14), NodeSpans::Leaf(19, 22)],
            },
        )],
    };
    (src, tree)
}

fn message(r: Result<(usize, usize), Error>) -> String {
    match r {
        Err(Error::Parse(m)) => m,
        other => panic!("expected a parse error, got {other:?}"),
    }
}

#[test]
fn entry_line_of_a_middle_key() {
    let (src, tree) = flat();
    let r = entry_line_span(&tree, src, &parse_query_path("b")).unwrap();
    assert_eq!(r, (5, 10));
    assert_eq!(&src[r.0..r.1], "b: 2\n");
}

#[test]
fn entry_line_of_a_sequence_item_includes_dash_and_indent() {
    let (src, tree) = items();
    let r = entry_line_span(&tree, src, &parse_query_path("items[0]")).unwrap();
    assert_eq!(r, (7, 15));
    assert_eq!(&src[r.0..r.1], "  - one\n");
}

#[test]
fn entry_line_refusals() {
    let (src, tree) = flat();
    assert_eq!(
        message(entry_line_span(&tree, src, &parse_query_path(""))),
        "remove requires a non-empty path (cannot remove the document root)"
    );
    assert_eq!(
        message(entry_line_span(&tree, src, &parse_query_path("zzz"))),
        "path not found: missing key \"zzz\""
    );
    assert_eq!(message(entry_line_span(&tree, src, &parse_query_path("a.b"))), "path not found");
    let (src2, tree2) = items();
    assert_eq!(
        message(entry_line_span(&tree2, src2, &parse_query_path("items[5]"))),
        "path not found: index 5 out of bounds"
    );
    assert_eq!(
        message(entry_line_span(&tree2, src2, &parse_query_path("items.x"))),
        "path not found"
    );
}

#[test]
fn entry_line_refuses_the_only_entry() {
    let src = "x: 1\n";
    let tree = NodeSpans::Mapping {
        start: 0,
        end: 5,
        entries: vec![entry("x", (0, 1), NodeSpans::Leaf(3, 4))],
    };
    assert_eq!(
        message(entry_line_span(&tree, src, &parse_query_path("x"))),
        "remove cannot delete the only entry of a mapping"
    );
    let src = "- 1\n";
    let tree = NodeSpans::Sequence { start: 0, end: 4, items: vec![NodeSpans::Leaf(2, 3)] };
    assert_eq!(
        message(entry_line_span(&tree, src, &parse_query_path("[0]"))),
        "remove cannot delete the only entry of a sequence"
    );
}

#[test]
fn entry_line_refuses_multi_line_values() {
    // a: |\n  x\n  y\nb: 2\n
    let src = "a: |\n  x\n  y\nb: 2\n";
    let tree = NodeSpans::Mapping {
        start: 0,
        end: 18,
        entries: vec![
            entry("a", (0, 1), NodeSpans::Leaf(3, 13)),
            entry("b", (13, 14), NodeSpans::Leaf(16, 17)),
        ],
    };
    assert_eq!(
        message(entry_line_span(&tree, src, &parse_query_path("a"))),
        "remove: multi-line / nested-value entries are not yet supported"
    );
    assert_eq!(entry_line_span(&tree, src, &parse_query_path("b")).unwrap(), (13, 18));
}

#[test]
fn resolve_span_follows_keys_and_indices() {
    let (src, tree) = items();
    let r = resolve_span(&tree, &parse_query_path("items[1]")).unwrap();
    assert_eq!(&src[r.0..r.1], "two");
    assert_eq!(resolve_span(&tree, &parse_query_path("items")), Some((9, 22)));
    assert_eq!(resolve_span(&tree, &parse_query_path("")), Some((0, 23)));
    assert_eq!(resolve_span(&tree, &parse_query_path("items[2]")), None);
    assert_eq!(resolve_span(&tree, &parse_query_path("items[*]")), None);
    assert_eq!(resolve_span(&tree, &parse_query_path("other")), None);
}
