use noyalib::borrowed::BorrowedValue;
use noyalib::config::{DuplicateKeyPolicy, ParserConfig};
use noyalib::cst::locate::NodeSpans;
use noyalib::error::Error;
use noyalib::parser::loader::{load, load_all, load_value};

fn cfg() -> ParserConfig {
    ParserConfig::new()
}

#[test]
fn loads_a_mapping_with_its_spans() {
    let src = "name: foo\nversion: 1\n";
    let (v, spans) = load(src, &cfg()).unwrap();
    let m = v.as_mapping().unwrap();
    assert_eq!(m.get("name").unwrap().as_str(), Some("foo"));
    assert_eq!(m.get("version").unwrap().as_i64(), Some(1));
    match spans {
        NodeSpans::Mapping { start, entries, .. } => {
            assert_eq!(start, 0);
            assert_eq!(entries.len(), 2);
            assert_eq!(entries[0].key, "name");
            assert_eq!(entries[0].key_span, (0, 4));
            match &entries[1].value {
                NodeSpans::Leaf(s, e) => assert_eq!(src[*s..*e].trim_end(), "1"),
                other => panic!("expected a leaf, got {other:?}"),
            }
        },
        other => panic!("expected a mapping, got {other:?}"),
    }
}

#[test]
fn empty_input_is_null() {
    let (v, spans) = load("", &cfg()).unwrap();
    assert!(v.is_null());
    assert!(matches!(spans, NodeSpans::Leaf(0, 0)));
    assert!(load("# only a comment\n", &cfg()).unwrap().0.is_null());
}

#[test]
fn aliases_copy_the_anchored_value() {
    let v = load_value("a: &x 7\nb: *x\nc: &l [1, 2]\nd: *l\n", &cfg()).unwrap();
    let m = v.as_mapping().unwrap();
    assert_eq!(m.get("b").unwrap().as_i64(), Some(7));
    assert_eq!(m.get("d").unwrap().as_sequence().unwrap().len(), 2);
    match load_value("a: *nope\n", &cfg()) {
        Err(Error::ParseWithLocation { message, .. }) => assert_eq!(message, "unknown anchor 'nope'"),
        other => panic!("expected an unknown anchor, got {other:?}"),
    }
}

#[test]
fn alias_expansions_are_limited() {
    let c = ParserConfig::new().max_alias_expansions(2);
    assert!(load_value("a: &x 1\nb: [*x, *x]\n", &c).is_ok());
    assert!(matches!(load_value("a: &x 1\nb: [*x, *x, *x]\n", &c), Err(Error::RepetitionLimitExceeded)));
    // A large value copied many times runs over the byte budget.
    let c = ParserConfig::new().max_document_length(200);
    assert!(matches!(
        load_value("a: &x [1, 2, 3]\nb: [*x, *x, *x]\n", &c),
        Err(Error::RepetitionLimitExceeded)
    ));
}

#[test]
fn duplicate_keys_follow_the_policy() {
    let src = "k: 1\nk: 2\n";
    let last = load_value(src, &cfg()).unwrap();
    assert_eq!(last.as_mapping().unwrap().get("k").unwrap().as_i64(), Some(2));
    let first = load_value(src, &ParserConfig::new().duplicate_key_policy(DuplicateKeyPolicy::First)).unwrap();
    assert_eq!(first.as_mapping().unwrap().get("k").unwrap().as_i64(), Some(1));
    match load_value(src, &ParserConfig::new().duplicate_key_policy(DuplicateKeyPolicy::Error)) {
        Err(Error::DuplicateKey(k)) => assert_eq!(k, "k"),
        other => panic!("expected a duplicate key, got {other:?}"),
    }
}

#[test]
fn merge_keys_fill_missing_entries() {
    let src = "base: &b {x: 1, y: 2}\nitem:\n  <<: *b\n  y: 3\n";
    let v = load_value(src, &cfg()).unwrap();
    let item = v.as_mapping().unwrap().get("item").unwrap().as_mapping().unwrap();
    assert_eq!(item.get("x").unwrap().as_i64(), Some(1));
    assert_eq!(item.get("y").unwrap().as_i64(), Some(3));
    assert!(item.get("<<").is_none());
    assert!(matches!(load_value("a:\n  <<: 5\n", &cfg()), Err(Error::ScalarInMergeElement)));
}

#[test]
fn limits_on_depth_and_sizes() {
    assert!(matches!(
        load_value("a: [[[1]]]\n", &ParserConfig::new().max_depth(2)),
        Err(Error::RecursionLimitExceeded { depth: 3 })
    ));
    match load_value("[1, 2, 3]\n", &ParserConfig::new().max_sequence_length(2)) {
        Err(Error::Parse(m)) => assert_eq!(m, "sequence exceeds maximum length of 2 elements"),
        other => panic!("expected a sequence limit, got {other:?}"),
    }
    match load_value("{a: 1, b: 2}\n", &ParserConfig::new().max_mapping_keys(1)) {
        Err(Error::Parse(m)) => assert_eq!(m, "mapping exceeds maximum of 1 keys"),
        other => panic!("expected a mapping limit, got {other:?}"),
    }
    match load_value("abc", &ParserConfig::new().max_document_length(2)) {
        Err(Error::Parse(m)) => assert_eq!(m, "document exceeds maximum length of 2 bytes"),
        other => panic!("expected a length limit, got {other:?}"),
    }
}

#[test]
fn booleans_follow_strict_and_legacy() {
    let v = load_value("a: True\nb: yes\n", &cfg()).unwrap();
    assert_eq!(v.as_mapping().unwrap().get("a").unwrap().as_bool(), Some(true));
    assert_eq!(v.as_mapping().unwrap().get("b").unwrap().as_str(), Some("yes"));
    let s = load_value("a: True\n", &ParserConfig::new().strict_booleans(true)).unwrap();
    assert_eq!(s.as_mapping().unwrap().get("a").unwrap().as_str(), Some("True"));
    let l = load_value("b: yes\n", &ParserConfig::new().legacy_booleans(true)).unwrap();
    assert_eq!(l.as_mapping().unwrap().get("b").unwrap().as_bool(), Some(true));
    let t = load_value("a: !!str 12\n", &cfg()).unwrap();
    assert_eq!(t.as_mapping().unwrap().get("a").unwrap().as_str(), Some("12"));
}

#[test]
fn keys_are_scalar_text() {
    let v = load_value("1: one\ntrue: yes\n~: none\n", &cfg()).unwrap();
    let m = v.as_mapping().unwrap();
    assert_eq!(m.get("1").unwrap().as_str(), Some("one"));
    assert!(m.get("true").is_some());
    assert!(m.get("null").is_some());
    assert!(matches!(load_value("? [a]\n: b\n", &cfg()), Err(Error::Invalid(_))));
}

#[test]
fn every_document_of_a_stream() {
    let docs = load_all("a: 1\n---\nb: 2\n", &cfg()).unwrap();
    assert_eq!(docs.len(), 2);
    assert!(docs[1].0.as_mapping().unwrap().get("b").is_some());
    let _ = BorrowedValue::Null;
}
