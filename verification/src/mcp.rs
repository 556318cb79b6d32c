//! An MCP server over stdio, so a coding agent can read scan results and clean up
//! without shelling out and parsing text.
//!
//! Only three JSON-RPC methods matter for a tools-only server (`initialize`,
//! `tools/list`, `tools/call`), which is why this speaks the protocol directly.
//!
//! Reads are served from the persistent index, never by scanning: a tool call
//! should be cheap enough to make freely. Every response therefore carries
//! `scanned_at`, `age_seconds` and `mode` so the caller knows how old the numbers
//! are, and [`crate::cleanup`] checks the file system again before deleting
//! anything.
//!
//! Scans run as background jobs, one per root, because a whole-disk scan takes
//! minutes and an MCP client gives up on a tool call after about a minute: `ds_scan`
//! waits a bounded time, then reports progress and lets the caller ask again while
//! the scan keeps going.

use serde_json::Value;
use vstd::prelude::*;

use crate::json;
use crate::json::{compact, member, null, parse, pretty, Fields, Json, Values};
use crate::registration;
use crate::text;
use crate::text::{str_eq, trim};
use crate::tools;
use crate::tools::tool_definitions;

verus! {

/// The version of the protocol that is spoken.
pub const PROTOCOL_VERSION: &'static str = "2024-11-05";

// ---- errors --------------------------------------------------------------------------

/// An error of the protocol.
#[derive(Debug)]
pub struct RpcError {
    pub code: i64,
    pub message: String,
}

/// An error of the protocol, as an object.
pub open spec fn error_json(code: int, message: Seq<char>) -> Json {
    Json::Obj(map!["code"@ => Json::Int(code), "message"@ => Json::Str(message)])
}

impl RpcError {
    /// There is no such method.
    pub fn method_not_found(m: &str) -> (r: RpcError)
        ensures
            r.code == -32601,
            r.message@ == "unknown method: "@ + m@,
    {
        let mut message = "unknown method: ".to_owned();
        message.append(m);
        RpcError { code: -32601, message }
    }

    /// The parameters are not valid.
    pub fn invalid(message: String) -> (r: RpcError)
        ensures
            r.code == -32602,
            r.message@ == message@,
    {
        RpcError { code: -32602, message }
    }

    /// The error as an object.
    pub fn to_json(&self) -> (r: Value)
        ensures
            json::json(r) == error_json(self.code as int, self.message@),
    {
        let mut o = Fields::new();
        o.put("code", json::signed_number(self.code));
        o.put_str("message", self.message.as_str());
        o.done()
    }
}

// ---- reading a message ----------------------------------------------------------------

/// What a line from the client is.
pub enum Incoming {
    /// Nothing to answer: an empty line, or a notification.
    Nothing,
    /// A message that gets this answer at once.
    Answer(Value),
    /// A request.
    Request(Request),
}

/// A request: what is to be done, with what, and under which number it is answered.
pub struct Request {
    pub id: Value,
    pub method: String,
    pub params: Value,
}

/// The answer to what is no JSON. There is no number to answer under, so this is the
/// one case that is answered under none.
pub open spec fn parse_error_json(e: Seq<char>) -> Json {
    Json::Obj(
        map![
            "jsonrpc"@ => Json::Str("2.0"@),
            "id"@ => Json::Null,
            "error"@ => error_json(-32700, "parse error: "@ + e),
        ],
    )
}

/// The method that a message names; none where it names none.
pub open spec fn method_of(j: Json) -> Seq<char> {
    match json::field(j, "method"@) {
        Some(Json::Str(m)) => m,
        _ => Seq::empty(),
    }
}

/// A member of a message, or a value that stands for none.
pub open spec fn member_or(j: Json, key: Seq<char>, none: Json) -> Json {
    match json::field(j, key) {
        Some(v) => v,
        None => none,
    }
}

/// Whether `r` is what a message is: a message without an id is a notification, and
/// is not answered.
pub open spec fn understood(p: Result<Json, Seq<char>>, r: Incoming) -> bool {
    match p {
        Err(e) => r matches Incoming::Answer(v) && json::json(v) == parse_error_json(e),
        Ok(j) => match json::field(j, "id"@) {
            None => r is Nothing,
            Some(id) => r matches Incoming::Request(q) && json::json(q.id) == id && q.method@
                == method_of(j) && json::json(q.params) == member_or(j, "params"@, Json::Null),
        },
    }
}

fn parse_error(e: &str) -> (r: Value)
    ensures
        json::json(r) == parse_error_json(e@),
{
    let mut message = "parse error: ".to_owned();
    message.append(e);
    let error = RpcError { code: -32700, message };
    let mut o = Fields::new();
    o.put_str("jsonrpc", "2.0");
    o.put("id", null());
    o.put("error", error.to_json());
    o.done()
}

/// The view of what was read in a text.
pub open spec fn parse_view(p: Result<Value, String>) -> Result<Json, Seq<char>> {
    match p {
        Ok(v) => Ok(json::json(v)),
        Err(e) => Err(e@),
    }
}

/// What a message is, by what was read in its text.
pub fn understand(p: Result<Value, String>) -> (r: Incoming)
    ensures
        understood(parse_view(p), r),
{
    match p {
        Err(e) => Incoming::Answer(parse_error(e.as_str())),
        Ok(v) => match member(&v, "id") {
            None => Incoming::Nothing,
            Some(id) => {
                let method = match member(&v, "method") {
                    Some(m) => match m.as_str() {
                        Some(s) => s.to_owned(),
                        None => String::new(),
                    },
                    None => String::new(),
                };
                let params = match member(&v, "params") {
                    Some(p) => p.clone(),
                    None => null(),
                };
                Incoming::Request(Request { id: id.clone(), method, params })
            },
        },
    }
}

/// What a line from the client is.
pub fn receive(line: &str) -> (r: Incoming)
    ensures
        ({
            let t = text::trimmed(line@);
            if t.len() == 0 {
                r is Nothing
            } else {
                understood(json::parsed(t), r)
            }
        }),
{
    let t = trim(line);
    if text::chars_of(t.as_str()).len() == 0 {
        return Incoming::Nothing;
    }
    let p = parse(t.as_str());
    assert(parse_view(p) == json::parsed(t@));
    understand(p)
}

// ---- answering ------------------------------------------------------------------------

/// An answer.
pub open spec fn answer_json(id: Json, r: Result<Json, (int, Seq<char>)>) -> Json {
    match r {
        Ok(v) => Json::Obj(
            map!["jsonrpc"@ => Json::Str("2.0"@), "id"@ => id, "result"@ => v],
        ),
        Err(e) => Json::Obj(
            map!["jsonrpc"@ => Json::Str("2.0"@), "id"@ => id, "error"@ => error_json(e.0, e.1)],
        ),
    }
}

/// The view of an outcome of the protocol.
pub open spec fn outcome_view(r: Result<Value, RpcError>) -> Result<Json, (int, Seq<char>)> {
    match r {
        Ok(v) => Ok(json::json(v)),
        Err(e) => Err((e.code as int, e.message@)),
    }
}

/// The answer to a request: under the number of the request, the result or the
/// error.
pub fn answer(id: &Value, r: Result<Value, RpcError>) -> (out: Value)
    ensures
        json::json(out) == answer_json(json::json(*id), outcome_view(r)),
{
    let mut o = Fields::new();
    o.put_str("jsonrpc", "2.0");
    o.put("id", id.clone());
    match r {
        Ok(v) => o.put("result", v),
        Err(e) => o.put("error", e.to_json()),
    }
    o.done()
}

/// A message as it is sent: on one line.
pub fn message_line(v: &Value) -> (r: String)
    ensures
        r@ == json::compact_text(json::json(*v)).push('\n'),
        forall|i: int| 0 <= i < r@.len() - 1 ==> #[trigger] r@[i] != '\n',
{
    let mut s = compact(v);
    let ghost before = s@;
    s.push('\n');
    assert forall|i: int| 0 <= i < s@.len() - 1 implies #[trigger] s@[i] != '\n' by {
        assert(before[i] == s@[i]);
    }
    s
}

// ---- dispatch -------------------------------------------------------------------------

/// The tools.
#[derive(Clone, Copy, PartialEq, Eq, Debug, Structural)]
pub enum Tool {
    Status,
    Scan,
    Caches,
    Top,
    Tree,
    Trash,
}

/// The tool of a name.
pub open spec fn tool_named(name: Seq<char>) -> Option<Tool> {
    if name == "ds_status"@ {
        Some(Tool::Status)
    } else if name == "ds_scan"@ {
        Some(Tool::Scan)
    } else if name == "ds_caches"@ {
        Some(Tool::Caches)
    } else if name == "ds_top"@ {
        Some(Tool::Top)
    } else if name == "ds_tree"@ {
        Some(Tool::Tree)
    } else if name == "ds_trash"@ {
        Some(Tool::Trash)
    } else {
        None
    }
}

fn find_tool(name: &str) -> (r: Option<Tool>)
    ensures
        r == tool_named(name@),
{
    if str_eq(name, "ds_status") {
        Some(Tool::Status)
    } else if str_eq(name, "ds_scan") {
        Some(Tool::Scan)
    } else if str_eq(name, "ds_caches") {
        Some(Tool::Caches)
    } else if str_eq(name, "ds_top") {
        Some(Tool::Top)
    } else if str_eq(name, "ds_tree") {
        Some(Tool::Tree)
    } else if str_eq(name, "ds_trash") {
        Some(Tool::Trash)
    } else {
        None
    }
}

/// What a request asks for.
pub enum Reaction {
    /// This is the result.
    Done(Value),
    /// A tool is to run, with these arguments.
    Call(Tool, Value),
}

/// What the server says of itself.
pub open spec fn hello_json() -> Json {
    Json::Obj(
        map![
            "protocolVersion"@ => Json::Str(PROTOCOL_VERSION@),
            "capabilities"@ => Json::Obj(map!["tools"@ => Json::Obj(map![])]),
            "serverInfo"@ => Json::Obj(
                map![
                    "name"@ => Json::Str("diskscour"@),
                    "version"@ => Json::Str(registration::VERSION@),
                ],
            ),
        ],
    )
}

fn hello() -> (r: Value)
    ensures
        json::json(r) == hello_json(),
{
    let mut caps = Fields::new();
    caps.put("tools", Fields::new().done());
    let mut info = Fields::new();
    info.put_str("name", "diskscour");
    info.put_str("version", registration::VERSION);
    let mut o = Fields::new();
    o.put_str("protocolVersion", PROTOCOL_VERSION);
    o.put("capabilities", caps.done());
    o.put("serverInfo", info.done());
    o.done()
}

/// Whether `r` is what a call of a tool asks for.
pub open spec fn called(params: Json, r: Result<Reaction, RpcError>) -> bool {
    match json::field(params, "name"@) {
        Some(Json::Str(name)) => match tool_named(name) {
            Some(tool) => r matches Ok(Reaction::Call(t, args)) && t == tool && json::json(args)
                == member_or(params, "arguments"@, Json::Obj(map![])),
            None => r matches Err(e) && e.code == -32602 && e.message@ == "unknown tool: "@ + name,
        },
        _ => r matches Err(e) && e.code == -32602 && e.message@ == "missing tool name"@,
    }
}

/// Whether `r` is what a request asks for.
pub open spec fn dispatched(method: Seq<char>, params: Json, r: Result<Reaction, RpcError>) -> bool {
    if method == "initialize"@ {
        r matches Ok(Reaction::Done(v)) && json::json(v) == hello_json()
    } else if method == "ping"@ {
        r matches Ok(Reaction::Done(v)) && json::json(v) == Json::Obj(map![])
    } else if method == "tools/list"@ {
        r matches Ok(Reaction::Done(v)) && json::json(v) == Json::Obj(
            map!["tools"@ => Json::Arr(tools::definitions())],
        )
    } else if method == "tools/call"@ {
        called(params, r)
    } else {
        r matches Err(e) && e.code == -32601 && e.message@ == "unknown method: "@ + method
    }
}

fn call_tool(params: &Value) -> (r: Result<Reaction, RpcError>)
    ensures
        called(json::json(*params), r),
{
    let name = match member(params, "name") {
        Some(n) => match n.as_str() {
            Some(s) => s,
            None => {
                return Err(RpcError::invalid("missing tool name".to_owned()));
            },
        },
        None => {
            return Err(RpcError::invalid("missing tool name".to_owned()));
        },
    };
    match find_tool(name) {
        Some(tool) => {
            let args = match member(params, "arguments") {
                Some(a) => a.clone(),
                None => Fields::new().done(),
            };
            Ok(Reaction::Call(tool, args))
        },
        None => {
            let mut message = "unknown tool: ".to_owned();
            message.append(name);
            Err(RpcError::invalid(message))
        },
    }
}

/// What a request asks for.
pub fn dispatch(method: &str, params: &Value) -> (r: Result<Reaction, RpcError>)
    ensures
        dispatched(method@, json::json(*params), r),
{
    if str_eq(method, "initialize") {
        Ok(Reaction::Done(hello()))
    } else if str_eq(method, "ping") {
        Ok(Reaction::Done(Fields::new().done()))
    } else if str_eq(method, "tools/list") {
        let mut o = Fields::new();
        o.put("tools", json::array(tool_definitions()));
        Ok(Reaction::Done(o.done()))
    } else if str_eq(method, "tools/call") {
        call_tool(params)
    } else {
        Err(RpcError::method_not_found(method))
    }
}

// ---- what a tool answers --------------------------------------------------------------

/// A text as the content of an answer.
pub open spec fn content_json(t: Seq<char>) -> Json {
    Json::Arr(
        Seq::empty().push(
            Json::Obj(map!["type"@ => Json::Str("text"@), "text"@ => Json::Str(t)]),
        ),
    )
}

/// What a tool answers. A failure comes back as content too, so that the agent can
/// read it, and not as an error of the protocol that it cannot act on.
pub open spec fn tool_json(body: Result<Json, Seq<char>>) -> Json {
    match body {
        Ok(v) => Json::Obj(
            map!["content"@ => content_json(json::pretty_text(v)), "isError"@ => Json::Bool(false)],
        ),
        Err(e) => Json::Obj(map!["content"@ => content_json(e), "isError"@ => Json::Bool(true)]),
    }
}

/// What a tool answers.
pub fn tool_reply(body: Result<Value, String>) -> (r: Value)
    ensures
        json::json(r) == tool_json(parse_view(body)),
{
    let (t, failed) = match body {
        Ok(v) => (pretty(&v), false),
        Err(e) => (e, true),
    };
    let mut c = Fields::new();
    c.put_str("type", "text");
    c.put_str("text", t.as_str());
    let mut content = Values::new();
    content.push(c.done());
    let mut o = Fields::new();
    o.put("content", content.done());
    o.put_bool("isError", failed);
    o.done()
}

/// Every request is answered under its own number, by a result or by an error and
/// never by both.
pub proof fn law_answers_carry_the_id(id: Json, r: Result<Json, (int, Seq<char>)>)
    ensures
        json::field(answer_json(id, r), "id"@) == Some(id),
        json::field(answer_json(id, r), "result"@) is Some <==> r is Ok,
        json::field(answer_json(id, r), "error"@) is Some <==> r is Err,
{
    reveal_strlit("jsonrpc");
    reveal_strlit("id");
    reveal_strlit("result");
    reveal_strlit("error");
    assert("jsonrpc"@.len() == 7 && "id"@.len() == 2 && "result"@.len() == 6 && "error"@.len()
        == 5);
}

/// A failing tool answers with a result that says so, not with an error of the
/// protocol.
pub proof fn law_tools_fail_in_content(id: Json, body: Result<Json, Seq<char>>)
    ensures
        ({
            let a = answer_json(id, Ok(tool_json(body)));
            let r = json::field(a, "result"@);
            &&& json::field(a, "error"@) is None
            &&& r is Some
            &&& json::field(r->0, "isError"@) == Some(Json::Bool(body is Err))
        }),
{
    law_answers_carry_the_id(id, Ok(tool_json(body)));
    reveal_strlit("content");
    reveal_strlit("isError");
    reveal_strlit("jsonrpc");
    reveal_strlit("id");
    reveal_strlit("result");
    assert("content"@[0] == 'c');
    assert("isError"@[0] == 'i');
}

} // verus!
