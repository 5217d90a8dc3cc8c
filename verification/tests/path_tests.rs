use noyalib::path::{parse_query_path, Path, QuerySegment};

#[test]
fn test_path_root_display() {
    let root = Path::Root;
    assert_eq!(root.to_string(), ".");
}

#[test]
fn test_path_map_display() {
    let root = Path::Root;
    let key1 = Path::Mapping { parent: &root, key: "config" };
    assert_eq!(key1.to_string(), "config");
    let key2 = Path::Mapping { parent: &key1, key: "server" };
    assert_eq!(key2.to_string(), "config.server");
    let key3 = Path::Mapping { parent: &key2, key: "host" };
    assert_eq!(key3.to_string(), "config.server.host");
}

#[test]
fn test_path_seq_display() {
    let root = Path::Root;
    let items = Path::Mapping { parent: &root, key: "items" };
    let first = Path::Sequence { parent: &items, index: 0 };
    assert_eq!(first.to_string(), "items[0]");
    let second = Path::Sequence { parent: &items, index: 1 };
    assert_eq!(second.to_string(), "items[1]");
}

#[test]
fn test_path_mixed_display() {
    let root = Path::Root;
    let servers = Path::Mapping { parent: &root, key: "servers" };
    let first = Path::Sequence { parent: &servers, index: 0 };
    let host = Path::Mapping { parent: &first, key: "host" };
    assert_eq!(host.to_string(), "servers[0].host");
}

#[test]
fn test_path_unknown_display() {
    let root = Path::Root;
    let unknown = Path::Unknown { parent: &root };
    assert_eq!(unknown.to_string(), "?");
    let key = Path::Mapping { parent: &root, key: "test" };
    let unknown2 = Path::Unknown { parent: &key };
    assert_eq!(unknown2.to_string(), "test.?");
}

#[test]
fn test_path_builder_methods() {
    let root = Path::Root;
    let config = root.key("config");
    let items = config.key("items");
    let first = items.index(0);
    let name = first.key("name");
    assert_eq!(name.to_string(), "config.items[0].name");
}

#[test]
fn test_path_is_root() {
    let root = Path::Root;
    assert!(root.is_root());
    let child = root.key("test");
    assert!(!child.is_root());
}

#[test]
fn test_path_parent() {
    let root = Path::Root;
    assert!(root.parent().is_none());
    let child = Path::Mapping { parent: &root, key: "test" };
    assert_eq!(child.parent(), Some(&root));
}

#[test]
fn test_path_depth() {
    let root = Path::Root;
    assert_eq!(root.depth(), 0);
    let d1 = Path::Mapping { parent: &root, key: "a" };
    assert_eq!(d1.depth(), 1);
    let d2 = Path::Mapping { parent: &d1, key: "b" };
    assert_eq!(d2.depth(), 2);
    let d3 = Path::Sequence { parent: &d2, index: 0 };
    assert_eq!(d3.depth(), 3);
}

#[test]
fn test_path_default() {
    let path: Path = Path::default();
    assert!(path.is_root());
}

#[test]
fn test_path_equality() {
    let root1 = Path::Root;
    let root2 = Path::Root;
    assert_eq!(root1, root2);
    let key1 = Path::Mapping { parent: &root1, key: "test" };
    let key2 = Path::Mapping { parent: &root2, key: "test" };
    assert_eq!(key1, key2);
    let key3 = Path::Mapping { parent: &root1, key: "other" };
    assert_ne!(key1, key3);
}

#[test]
fn test_path_alias() {
    let root = Path::Root;
    let alias = root.alias();
    assert!(matches!(alias, Path::Alias { .. }));
}

#[test]
fn test_path_complex_real_world() {
    let root = Path::Root;
    let deps = root.key("dependencies");
    let serde = deps.key("serde");
    let features = serde.key("features");
    let first_feature = features.index(0);
    assert_eq!(first_feature.to_string(), "dependencies.serde.features[0]");
}

#[test]
fn test_path_deeply_nested() {
    let root = Path::Root;
    let a = root.key("a");
    let b = a.key("b");
    let c = b.key("c");
    let d = c.key("d");
    let e = d.key("e");
    assert_eq!(e.to_string(), "a.b.c.d.e");
    assert_eq!(e.depth(), 5);
}

#[test]
fn parse_query_path_handles_inline_star_after_key() {
    let segments = parse_query_path("field*");
    assert_eq!(segments.len(), 2);
    assert!(matches!(&segments[0], QuerySegment::Key(s) if s == "field"));
    assert!(matches!(&segments[1], QuerySegment::Wildcard));
}

#[test]
fn parse_query_path_drops_unparseable_bracket_content() {
    let segments = parse_query_path("items[abc]");
    assert_eq!(segments.len(), 1);
    assert!(matches!(&segments[0], QuerySegment::Key(s) if s == "items"));
}

#[test]
fn parse_query_path_handles_standalone_star_segment() {
    let segments = parse_query_path("*");
    assert_eq!(segments.len(), 1);
    assert!(matches!(&segments[0], QuerySegment::Wildcard));
}

#[test]
fn parse_query_path_handles_recursive_descent() {
    let segments = parse_query_path("..name");
    assert_eq!(segments.len(), 2);
    assert!(matches!(&segments[0], QuerySegment::RecursiveDescent));
    assert!(matches!(&segments[1], QuerySegment::Key(s) if s == "name"));
}

#[test]
fn parse_query_path_mixed_dots_and_brackets() {
    let segments = parse_query_path("items[2].name[*]");
    assert_eq!(segments.len(), 4);
    assert!(matches!(&segments[0], QuerySegment::Key(s) if s == "items"));
    assert!(matches!(&segments[1], QuerySegment::Index(2)));
    assert!(matches!(&segments[2], QuerySegment::Key(s) if s == "name"));
    assert!(matches!(&segments[3], QuerySegment::Wildcard));
}

#[test]
fn parse_query_path_stray_close_bracket_joins_key() {
    let segments = parse_query_path("ab]cd");
    assert_eq!(segments.len(), 1);
    assert!(matches!(&segments[0], QuerySegment::Key(s) if s == "abcd"));
}

#[test]
fn parse_query_path_index_accepts_plus_sign_and_rejects_overflow() {
    let segments = parse_query_path("[+7]");
    assert!(matches!(&segments[0], QuerySegment::Index(7)));
    let segments = parse_query_path("[99999999999999999999999]");
    assert!(segments.is_empty());
    let segments = parse_query_path("[-1]");
    assert!(segments.is_empty());
}

#[test]
fn path_depth_grows_by_one_per_segment() {
    let root = Path::Root;
    let a = root.key("a");
    let u = a.unknown();
    let al = u.alias();
    assert_eq!(al.depth(), 3);
    assert_eq!(al.to_string(), "a.?.");
}
