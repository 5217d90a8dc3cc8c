use noyalib::cst::annotated::{comments_at, Comment, CommentBundle};

/// The `#` comments of `src` (none of these sources quote a `#`): a `#`
/// at the start of a line's content or after a space opens a comment
/// that runs to the end of the line.
fn scan_comments(src: &str) -> Vec<Comment> {
    let b = src.as_bytes();
    let mut out = Vec::new();
    let mut i = 0;
    while i < b.len() {
        if b[i] == b'#' && (i == 0 || matches!(b[i - 1], b' ' | b'\t' | b'\n')) {
            let mut j = i;
            while j < b.len() && b[j] != b'\n' {
                j += 1;
            }
            out.push(Comment { text: src[i + 1..j].to_string(), start: i, end: j });
            i = j;
        } else {
            i += 1;
        }
    }
    out
}

/// The span of the `n`-th (from 0) occurrence of `text` in `src`.
fn span_of(src: &str, text: &str, n: usize) -> Option<(usize, usize)> {
    let (start, _) = src.match_indices(text).nth(n)?;
    Some((start, start + text.len()))
}

/// The bundle for the node spanning `span` of `src`.
fn bundle(src: &str, span: Option<(usize, usize)>) -> CommentBundle {
    comments_at(src, span, &scan_comments(src))
}

#[test]
fn inline_comment_on_simple_value() {
    let src = "port: 8080  # the listen port\n";
    let b = bundle(src, span_of(src, "8080", 0));
    assert!(b.before.is_empty());
    assert_eq!(b.inline.as_ref().unwrap().text, " the listen port");
}

#[test]
fn leading_single_comment() {
    let src = "# pre\nkey: val\n";
    let b = bundle(src, span_of(src, "val", 0));
    assert_eq!(b.before.len(), 1);
    assert_eq!(b.before[0].text, " pre");
    assert!(b.inline.is_none());
}

#[test]
fn leading_multi_with_blank_lines_preserves_run() {
    let src = "# first\n\
               \n\
               # second\n\
               key: val\n";
    let b = bundle(src, span_of(src, "val", 0));
    assert_eq!(b.before.len(), 2);
    assert_eq!(b.before[0].text, " first");
    assert_eq!(b.before[1].text, " second");
}

#[test]
fn content_line_breaks_leading_run() {
    let src = "name: noyalib\n\
               # this comment belongs to version, not name\n\
               version: 0.0.1\n";
    let name = bundle(src, span_of(src, "noyalib", 0));
    assert!(name.before.is_empty());
    let version = bundle(src, span_of(src, "0.0.1", 0));
    assert_eq!(version.before.len(), 1);
    assert!(version.before[0].text.contains("belongs to version"));
}

#[test]
fn nested_path_inline_comment() {
    let src = "server:\n\
               \x20 host: localhost  # bind address\n\
               \x20 port: 8080\n";
    let host = bundle(src, span_of(src, "localhost", 0));
    assert_eq!(host.inline.as_ref().unwrap().text, " bind address");
    let port = bundle(src, span_of(src, "8080", 0));
    assert!(port.inline.is_none());
}

#[test]
fn unknown_path_returns_empty_bundle() {
    let src = "a: 1\n";
    let b = bundle(src, None);
    assert!(b.is_empty());
}

#[test]
fn multiline_block_does_not_inherit_child_inline() {
    let src = "server:\n  host: localhost\n  port: 8080  # main HTTP port\n";
    let block = (src.find("host").unwrap(), src.find("8080").unwrap() + 4);
    let server = bundle(src, Some(block));
    assert!(server.inline.is_none(), "block must not inherit child inline");
    let port = bundle(src, span_of(src, "8080", 0));
    assert_eq!(port.inline.as_ref().unwrap().text, " main HTTP port");
}

#[test]
fn sequence_item_inline_comment() {
    let src = "items:\n\
               \x20 - one  # the first\n\
               \x20 - two  # the second\n";
    let first = bundle(src, span_of(src, "one", 0));
    assert_eq!(first.inline.as_ref().unwrap().text, " the first");
    let second = bundle(src, span_of(src, "two", 0));
    assert_eq!(second.inline.as_ref().unwrap().text, " the second");
}

#[test]
fn module_example_bundles() {
    let src = "# top of file\nname: noyalib  # the project\n# next field\nversion: 0.0.1\n";
    let name = bundle(src, span_of(src, "noyalib", 0));
    assert_eq!(name.before.len(), 1);
    assert_eq!(name.before[0].text, " top of file");
    assert_eq!(name.inline.as_ref().unwrap().text, " the project");
    let version = bundle(src, span_of(src, "0.0.1", 0));
    assert_eq!(version.before.len(), 1);
    assert_eq!(version.before[0].text, " next field");
    assert!(version.inline.is_none());
}

#[test]
fn comment_on_a_later_line_is_not_inline() {
    let src = "a: 1\n# below\nb: 2\n";
    let a = bundle(src, span_of(src, "1", 0));
    assert!(a.inline.is_none());
    assert!(a.before.is_empty());
    assert!(a.is_empty());
}

#[test]
fn default_bundle_is_empty() {
    let b = CommentBundle::default();
    assert!(b.is_empty());
    assert!(b.before.is_empty() && b.inline.is_none());
}
