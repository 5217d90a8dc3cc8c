//! The decisions of the Model Context Protocol server: which method a
//! JSON-RPC request names, and the error objects it answers with. The
//! JSON itself is read and written around these, outside the library.
use vstd::prelude::*;

use crate::text::{owned_string, push_str, same_text};

verus! {

/// JSON-RPC 2.0 error object.
#[derive(Debug)]
pub struct ErrorObject {
    /// Numeric error code per JSON-RPC convention.
    pub code: i32,
    /// Human-readable message.
    pub message: String,
}

/// What the stdio loop should do with a parsed message: write a reply
/// on stdout, or stay silent (notifications never receive one).
#[derive(Debug, PartialEq, Eq)]
pub enum HandleOutcome {
    /// Send the wrapped JSON payload back on stdout.
    Reply(String),
    /// Notification: no reply expected.
    Silent,
}

/// The methods the server answers.
#[derive(Debug, Clone, Copy, PartialEq, Eq, Structural)]
pub enum McpMethod {
    /// `initialize`: protocol version and server information.
    Initialize,
    /// `initialized` or `notifications/initialized`: nothing to return.
    Initialized,
    /// `tools/list`: the tool descriptors.
    ToolsList,
    /// `tools/call`: run a tool.
    ToolsCall,
    /// `ping`: an empty object.
    Ping,
}

/// The JSON-RPC code of a malformed message.
pub const PARSE_ERROR: i32 = -32700;

/// The JSON-RPC code of a request that is not JSON-RPC 2.0.
pub const INVALID_REQUEST: i32 = -32600;

/// The JSON-RPC code of an unknown method.
pub const METHOD_NOT_FOUND: i32 = -32601;

/// The method a name selects, or the refusal of an unknown one.
pub open spec fn spec_route(method: Seq<char>) -> Result<McpMethod, Seq<char>> {
    if method == "initialize"@ {
        Ok(McpMethod::Initialize)
    } else if method == "initialized"@ || method == "notifications/initialized"@ {
        Ok(McpMethod::Initialized)
    } else if method == "tools/list"@ {
        Ok(McpMethod::ToolsList)
    } else if method == "tools/call"@ {
        Ok(McpMethod::ToolsCall)
    } else if method == "ping"@ {
        Ok(McpMethod::Ping)
    } else {
        Err("method not found: "@ + method)
    }
}

/// Select the method a request names (see [`spec_route`]); an unknown
/// name is answered with a method-not-found error.
pub fn route(method: &str) -> (r: Result<McpMethod, ErrorObject>)
    ensures
        match r {
            Ok(m) => spec_route(method@) == Ok::<McpMethod, Seq<char>>(m),
            Err(e) => e.code == METHOD_NOT_FOUND && spec_route(method@) == Err::<
                McpMethod,
                Seq<char>,
            >(e.message@),
        },
{
    if same_text(method, "initialize") {
        Ok(McpMethod::Initialize)
    } else if same_text(method, "initialized") || same_text(method, "notifications/initialized") {
        Ok(McpMethod::Initialized)
    } else if same_text(method, "tools/list") {
        Ok(McpMethod::ToolsList)
    } else if same_text(method, "tools/call") {
        Ok(McpMethod::ToolsCall)
    } else if same_text(method, "ping") {
        Ok(McpMethod::Ping)
    } else {
        let mut message = owned_string("method not found: ");
        push_str(&mut message, method);
        Err(ErrorObject { code: METHOD_NOT_FOUND, message })
    }
}

/// The answer to a message that is not valid JSON-RPC: its reason
/// after `parse error: `.
pub fn parse_error(detail: &str) -> (e: ErrorObject)
    ensures
        e.code == PARSE_ERROR,
        e.message@ == "parse error: "@ + detail@,
{
    let mut message = owned_string("parse error: ");
    push_str(&mut message, detail);
    ErrorObject { code: PARSE_ERROR, message }
}

/// Refuse a request whose `jsonrpc` field is not `"2.0"`.
pub fn check_version(jsonrpc: &str) -> (r: Option<ErrorObject>)
    ensures
        (r is None) == (jsonrpc@ == "2.0"@),
        r matches Some(e) ==> e.code == INVALID_REQUEST && e.message@
            == "invalid request: jsonrpc must be \"2.0\""@,
{
    if same_text(jsonrpc, "2.0") {
        None
    } else {
        Some(
            ErrorObject {
                code: INVALID_REQUEST,
                message: owned_string("invalid request: jsonrpc must be \"2.0\""),
            },
        )
    }
}

} // verus!
