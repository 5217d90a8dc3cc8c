use noyalib::cst::annotated::Comment;
use noyalib::cst::entry::Entry;
use noyalib::cst::locate::{EntrySpans, NodeSpans};
use noyalib::error::Error;

fn entry_spans(key: &str, key_span: (usize, usize), value: NodeSpans) -> EntrySpans {
    EntrySpans { key: key.to_string(), key_span, value }
}

fn handle<'a>(tree: &'a NodeSpans, src: &'a str, path: &str) -> Entry<'a> {
    Entry::new(tree, src, path.to_string())
}

#[test]
fn entry_get_reads_source_slice() {
    let src = "port: 8080\n";
    let tree = NodeSpans::Mapping {
        start: 0,
        end: 11,
        entries: vec![entry_spans("port", (0, 4), NodeSpans::Leaf(6, 11))],
    };
    let e = handle(&tree, src, "port");
    assert_eq!(e.get(), Some("8080"));
}

#[test]
fn entry_exists_distinguishes_present_and_absent() {
    let src = "a: 1\n";
    let tree = NodeSpans::Mapping {
        start: 0,
        end: 5,
        entries: vec![entry_spans("a", (0, 1), NodeSpans::Leaf(3, 5))],
    };
    assert!(handle(&tree, src, "a").node_exists());
    assert!(!handle(&tree, src, "b").node_exists());
}

#[test]
fn entry_path_returns_recorded_string() {
    let src = "a:\n  b: 1\n";
    let inner = NodeSpans::Mapping {
        start: 5,
        end: 10,
        entries: vec![entry_spans("b", (5, 6), NodeSpans::Leaf(8, 10))],
    };
    let tree = NodeSpans::Mapping { start: 0, end: 10, entries: vec![entry_spans("a", (0, 1), inner)] };
    let e = handle(&tree, src, "a").entry("b");
    assert_eq!(e.path(), "a.b");
    assert_eq!(e.get(), Some("1"));
}

#[test]
fn entry_with_index_uses_no_dot_separator() {
    let src = "items:\n  - one\n  - two\n";
    let seq = NodeSpans::Sequence {
        start: 9,
        end: 23,
        items: vec![NodeSpans::Leaf(11, 15), NodeSpans::Leaf(19, 23)],
    };
    let tree = NodeSpans::Mapping { start: 0, end: 23, entries: vec![entry_spans("items", (0, 5), seq)] };
    let e = handle(&tree, src, "items").entry("[0]");
    assert_eq!(e.path(), "items[0]");
    assert_eq!(e.get(), Some("one"));
}

#[test]
fn entry_comments_forwards_to_document() {
    let src = "# decorator\nport: 8080  # inline\n";
    let tree = NodeSpans::Mapping {
        start: 12,
        end: 33,
        entries: vec![entry_spans("port", (12, 16), NodeSpans::Leaf(18, 22))],
    };
    let scanned = vec![
        Comment { text: " decorator".to_string(), start: 0, end: 11 },
        Comment { text: " inline".to_string(), start: 24, end: 32 },
    ];
    let bundle = handle(&tree, src, "port").comments(&scanned);
    assert_eq!(bundle.before.len(), 1);
    assert_eq!(bundle.before[0].text, " decorator");
    assert_eq!(bundle.inline.as_ref().unwrap().text, " inline");
}

#[test]
fn entry_set_replaces_value_and_reports_missing_path() {
    let src = "a: 1\n";
    let tree = NodeSpans::Mapping {
        start: 0,
        end: 5,
        entries: vec![entry_spans("a", (0, 1), NodeSpans::Leaf(3, 5))],
    };
    assert_eq!(handle(&tree, src, "a").set("2").unwrap(), "a: 2\n");
    match handle(&tree, src, "nonexistent").set("2") {
        Err(Error::Parse(m)) => assert!(m.contains("path not found")),
        other => panic!("expected a parse error, got {other:?}"),
    }
}

#[test]
fn entry_span_matches_value_bytes() {
    let src = "port: 8080\n";
    let tree = NodeSpans::Mapping {
        start: 0,
        end: 11,
        entries: vec![entry_spans("port", (0, 4), NodeSpans::Leaf(6, 11))],
    };
    assert_eq!(handle(&tree, src, "port").span_at(), Some((6, 10)));
    assert_eq!(handle(&tree, src, "host").span_at(), None);
}
