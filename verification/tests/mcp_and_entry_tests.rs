use noyalib::cst::entry::compose_path;
use noyalib::error::Error;
use noyalib::mcp::{check_version, parse_error, route, HandleOutcome, McpMethod};

#[test]
fn routes_known_methods() {
    assert_eq!(route("initialize").ok(), Some(McpMethod::Initialize));
    assert_eq!(route("initialized").ok(), Some(McpMethod::Initialized));
    assert_eq!(route("notifications/initialized").ok(), Some(McpMethod::Initialized));
    assert_eq!(route("tools/list").ok(), Some(McpMethod::ToolsList));
    assert_eq!(route("tools/call").ok(), Some(McpMethod::ToolsCall));
    assert_eq!(route("ping").ok(), Some(McpMethod::Ping));
}

#[test]
fn unknown_method_is_refused() {
    let e = route("nope").err().unwrap();
    assert_eq!(e.code, -32601);
    assert_eq!(e.message, "method not found: nope");
}

#[test]
fn version_and_parse_errors() {
    assert!(check_version("2.0").is_none());
    let e = check_version("1.0").unwrap();
    assert_eq!(e.code, -32600);
    assert_eq!(e.message, "invalid request: jsonrpc must be \"2.0\"");
    let p = parse_error("EOF while parsing");
    assert_eq!(p.code, -32700);
    assert_eq!(p.message, "parse error: EOF while parsing");
    assert_ne!(HandleOutcome::Silent, HandleOutcome::Reply(String::new()));
}

#[test]
fn entry_paths_compose() {
    assert_eq!(compose_path("", "servers"), "servers");
    assert_eq!(compose_path("servers", "[0]"), "servers[0]");
    assert_eq!(compose_path("servers[0]", "host"), "servers[0].host");
    match Error::entry_not_found("a.b") {
        Error::Parse(m) => assert_eq!(m, "entry not found at path: a.b"),
        _ => panic!("expected a parse error"),
    }
}
