use noyalib::cst::{parse_document, SyntaxKind};

#[test]
fn parse_document_round_trips_source() {
    let src = "name: noyalib  # the project\nversion: 0.0.1\n";
    let doc = parse_document(src).unwrap();
    assert_eq!(doc.to_string(), src);
    assert_eq!(doc.source(), src);
    assert_eq!(doc.syntax().kind(), SyntaxKind::Document);
}

#[test]
fn parse_document_refuses_broken_yaml() {
    assert!(parse_document("a: [1, 2\n").is_err());
    assert!(parse_document("a: *nope\n").is_err());
}

#[test]
fn document_set_replaces_the_value() {
    let mut doc = parse_document("name: foo\nversion: 0.0.1\n").unwrap();
    doc.set("version", "0.0.2").unwrap();
    assert_eq!(doc.to_string(), "name: foo\nversion: 0.0.2\n");
}

#[test]
fn document_set_on_missing_path_is_refused_and_keeps_source() {
    let mut doc = parse_document("a: 1\n").unwrap();
    let e = doc.set("nonexistent", "2").unwrap_err();
    assert!(format!("{:?}", e).contains("path not found"));
    assert_eq!(doc.source(), "a: 1\n");
}

#[test]
fn document_replace_span_at_span_of_value() {
    let mut doc = parse_document("a: 1\n").unwrap();
    let (s, e) = doc.span_at("a").unwrap();
    doc.replace_span(s, e, "42").unwrap();
    assert_eq!(doc.to_string(), "a: 42\n");
}

#[test]
fn document_replace_span_refusing_a_bad_splice_keeps_source() {
    let mut doc = parse_document("a: 1\n").unwrap();
    assert!(doc.replace_span(3, 4, "[unclosed").is_err());
    assert_eq!(doc.source(), "a: 1\n");
    assert!(doc.replace_span(4, 3, "x").is_err());
    assert_eq!(doc.source(), "a: 1\n");
}

#[test]
fn document_push_back_appends_an_item() {
    let mut doc = parse_document("items:\n  - one\n  - two\n").unwrap();
    doc.push_back("items", "three").unwrap();
    assert_eq!(doc.to_string(), "items:\n  - one\n  - two\n  - three\n");
}

#[test]
fn document_push_back_on_flow_sequence_is_refused() {
    let mut doc = parse_document("items: [a, b]\n").unwrap();
    assert!(doc.push_back("items", "c").is_err());
    assert_eq!(doc.source(), "items: [a, b]\n");
}

#[test]
fn document_insert_after_adds_the_next_item() {
    let mut doc = parse_document("items:\n  - one\n  - three\n").unwrap();
    doc.insert_after("items[0]", "two").unwrap();
    assert_eq!(doc.to_string(), "items:\n  - one\n  - two\n  - three\n");
    assert!(doc.insert_after("items", "x").is_err());
}

#[test]
fn document_remove_drops_the_entry_line() {
    let mut doc = parse_document("a: 1\nb: 2\nc: 3\n").unwrap();
    doc.remove("b").unwrap();
    assert_eq!(doc.to_string(), "a: 1\nc: 3\n");
}

#[test]
fn document_edit_reparses_the_value() {
    let mut doc = parse_document("port: 8080\n").unwrap();
    doc.set("port", "9090").unwrap();
    let (s, e) = doc.span_at("port").unwrap();
    assert_eq!(&doc.source()[s..e], "9090");
}
