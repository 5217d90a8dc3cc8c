use noyalib::cst::edit::{get, insert_after, push_back, remove, replace_span, span_at};
use noyalib::cst::locate::{EntrySpans, NodeSpans};
use noyalib::error::Error;

fn entry(key: &str, key_span: (usize, usize), value: NodeSpans) -> EntrySpans {
    EntrySpans { key: key.to_string(), key_span, value }
}

/// `name: foo\nversion: 0.0.1\n`, leaf spans running into the line break
/// as the scanner gives them.
fn versions() -> (&'static str, NodeSpans) {
    let src = "name: foo\nversion: 0.0.1\n";
    let tree = NodeSpans::Mapping {
        start: 0,
        end: 25,
        entries: vec![
            entry("name", (0, 4), NodeSpans::Leaf(6, 10)),
            entry("version", (10, 17), NodeSpans::Leaf(19, 25)),
        ],
    };
    (src, tree)
}

/// A block sequence under `items`, each item `  - <text>\n`.
fn items(texts: &[&str]) -> (String, NodeSpans) {
    let mut src = String::from("items:\n");
    let mut spans = Vec::new();
    for t in texts {
        src.push_str("  - ");
        let s = src.len();
        src.push_str(t);
        spans.push(NodeSpans::Leaf(s, src.len()));
        src.push('\n');
    }
    let end = src.len();
    let seq_start = if texts.is_empty() { end } else { 9 };
    let tree = NodeSpans::Mapping {
        start: 0,
        end,
        entries: vec![entry("items", (0, 5), NodeSpans::Sequence { start: seq_start, end, items: spans })],
    };
    (src, tree)
}

fn message(r: Result<String, Error>) -> String {
    match r {
        Err(Error::Parse(m)) => m,
        other => panic!("expected a parse error, got {other:?}"),
    }
}

#[test]
fn span_at_trims_trailing_line_break() {
    let (src, tree) = versions();
    let (s, e) = span_at(&tree, src, "version").unwrap();
    assert_eq!(&src[s..e], "0.0.1");
    assert!(span_at(&tree, src, "missing").is_none());
}

#[test]
fn get_returns_the_value_text() {
    let (src, tree) = items(&["one", "two"]);
    assert_eq!(get(&tree, &src, "items[1]"), Some("two"));
    assert_eq!(get(&tree, &src, "items[2]"), None);
}

#[test]
fn replace_span_splices_one_range() {
    assert_eq!(replace_span("a: 1\n", 3, 4, "42").unwrap(), "a: 42\n");
    assert_eq!(replace_span("a: 1\n", 5, 5, "b: 2\n").unwrap(), "a: 1\nb: 2\n");
    assert_eq!(
        message(replace_span("a: 1\n", 4, 9, "x")),
        "replace_span range 4..9 out of bounds (source length 5)"
    );
    assert_eq!(
        message(replace_span("a: 1\n", 4, 3, "x")),
        "replace_span range 4..3 out of bounds (source length 5)"
    );
    // `é` takes two bytes: 4 falls inside it.
    assert_eq!(
        message(replace_span("k: é\n", 4, 5, "x")),
        "replace_span range 4..5 is not a character boundary"
    );
}

#[test]
fn set_replaces_the_value() {
    let (src, tree) = versions();
    assert_eq!(noyalib::cst::edit::set(&tree, src, "version", "0.0.2").unwrap(), "name: foo\nversion: 0.0.2\n");
    assert_eq!(message(noyalib::cst::edit::set(&tree, src, "nope", "1")), "path not found: nope");
}

#[test]
fn remove_deletes_the_entry_line() {
    let src = "a: 1\nb: 2\nc: 3\n";
    let tree = NodeSpans::Mapping {
        start: 0,
        end: 15,
        entries: vec![
            entry("a", (0, 1), NodeSpans::Leaf(3, 5)),
            entry("b", (5, 6), NodeSpans::Leaf(8, 10)),
            entry("c", (10, 11), NodeSpans::Leaf(13, 15)),
        ],
    };
    assert_eq!(remove(&tree, src, "b").unwrap(), "a: 1\nc: 3\n");
}

#[test]
fn push_back_appends_an_indented_item() {
    let (src, tree) = items(&["one", "two"]);
    assert_eq!(
        push_back(&tree, &src, "items", "three").unwrap(),
        "items:\n  - one\n  - two\n  - three\n"
    );
}

#[test]
fn push_back_refusals() {
    let (src, tree) = items(&["one"]);
    assert_eq!(message(push_back(&tree, &src, "nothing", "x")), "path not found: nothing");
    assert_eq!(
        message(push_back(&tree, &src, "items[0]", "x")),
        "push_back: target path is not a sequence"
    );
    let (src, tree) = items(&[]);
    assert_eq!(
        message(push_back(&tree, &src, "items", "x")),
        "push_back: empty sequence has no anchor for indentation — use `set` with a fragment instead"
    );
    // A flow sequence has no `-` before its items.
    let src = "items: [a, b]\n";
    let tree = NodeSpans::Mapping {
        start: 0,
        end: 14,
        entries: vec![entry(
            "items",
            (0, 5),
            NodeSpans::Sequence {
                start: 7,
                end: 13,
                items: vec![NodeSpans::Leaf(8, 9), NodeSpans::Leaf(11, 12)],
            },
        )],
    };
    assert_eq!(
        message(push_back(&tree, src, "items", "c")),
        "push_back: only block sequences are supported (no `-` anchor before last item)"
    );
}

#[test]
fn insert_after_puts_an_item_on_the_next_line() {
    let (src, tree) = items(&["one", "three"]);
    assert_eq!(
        insert_after(&tree, &src, "items[0]", "two").unwrap(),
        "items:\n  - one\n  - two\n  - three\n"
    );
    assert_eq!(
        message(insert_after(&tree, &src, "items", "two")),
        "insert_after: path must end with a sequence index, e.g. `items[2]`"
    );
    assert_eq!(message(insert_after(&tree, &src, "items[9]", "two")), "path not found: items[9]");
}

#[test]
fn remove_refuses_an_entry_of_a_flow_mapping() {
    // `r: 0\na: {x: 1, y: 2}\n`
    let src = "r: 0\na: {x: 1, y: 2}\n";
    let inner = NodeSpans::Mapping {
        start: 8,
        end: 20,
        entries: vec![
            entry("x", (9, 10), NodeSpans::Leaf(12, 13)),
            entry("y", (15, 16), NodeSpans::Leaf(18, 19)),
        ],
    };
    let tree = NodeSpans::Mapping {
        start: 0,
        end: 21,
        entries: vec![entry("r", (0, 1), NodeSpans::Leaf(3, 5)), entry("a", (5, 6), inner)],
    };
    assert_eq!(
        message(remove(&tree, src, "a.x")),
        "remove: entries of a flow collection cannot be removed yet"
    );
}

#[test]
fn replace_span_refuses_a_splice_that_does_not_parse() {
    let src = "a: 1\nb: 2\n";
    assert_eq!(replace_span(src, 3, 4, "42").unwrap(), "a: 42\nb: 2\n");
    assert!(replace_span(src, 3, 4, "[unclosed").is_err());
    assert!(replace_span(src, 3, 4, "\"open").is_err());
}

#[test]
fn replace_span_refuses_an_unknown_alias() {
    let src = "a: 1\nb: 2\n";
    assert!(replace_span(src, 8, 9, "*nope").is_err());
    assert_eq!(replace_span("a: &x 1\nb: 2\n", 11, 12, "*x").unwrap(), "a: &x 1\nb: *x\n");
}
