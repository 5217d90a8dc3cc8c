use noyalib::parallel::split;

#[test]
fn split_separates_three_records() {
    let yaml = "---\nid: 1\n---\nid: 2\n---\nid: 3\n";
    let docs = split(yaml);
    assert_eq!(docs.len(), 3);
    assert!(docs[0].contains("id: 1"));
    assert!(docs[1].contains("id: 2"));
    assert!(docs[2].contains("id: 3"));
}

#[test]
fn split_handles_no_separators() {
    let yaml = "single: doc\n";
    let docs = split(yaml);
    assert_eq!(docs.len(), 1);
    assert_eq!(docs[0], yaml);
}

#[test]
fn split_handles_empty_input() {
    assert!(split("").is_empty());
}

#[test]
fn split_handles_implicit_first_doc() {
    let yaml = "name: a\n---\nname: b\n";
    let docs = split(yaml);
    assert_eq!(docs.len(), 2);
    assert!(docs[0].contains("name: a"));
    assert!(docs[1].contains("name: b"));
}

#[test]
fn split_ignores_dashes_mid_line() {
    let yaml = "key: value---suffix\n";
    let docs = split(yaml);
    assert_eq!(docs.len(), 1);
    assert!(docs[0].contains("value---suffix"));
}

#[test]
fn split_requires_post_marker_whitespace() {
    let yaml = "key: a\n---foo\nkey: b\n";
    let docs = split(yaml);
    assert_eq!(docs.len(), 1, "got: {docs:?}");
}

#[test]
fn split_slices_exactly_between_markers() {
    let yaml = "---\na: 1\n--- b\n---";
    let docs = split(yaml);
    assert_eq!(docs, vec!["---\na: 1\n", "--- b\n", "---"]);
}

#[test]
fn split_drops_a_blank_preamble_only() {
    assert_eq!(split("  \n\t\n---\nx\n"), vec!["---\nx\n"]);
    assert_eq!(split("# c\n---\nx\n"), vec!["# c\n", "---\nx\n"]);
    assert_eq!(split("\u{3000}\n---\nx"), vec!["---\nx"]);
}

#[test]
fn split_accepts_markers_after_carriage_returns() {
    let docs = split("a: 1\r---\rb: 2\r\n---\tc");
    assert_eq!(docs, vec!["a: 1\r", "---\rb: 2\r\n", "---\tc"]);
}
