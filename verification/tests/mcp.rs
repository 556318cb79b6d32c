//! The MCP server.

use diskscour::caches::Category;
use diskscour::cleanup::{Item, Outcome, Plan, Rejected};
use diskscour::engine::Freshness;
use diskscour::index::{DirRec, Index, Mode};
use diskscour::mcp::{
    answer, dispatch, message_line, receive, tool_reply, Incoming, Reaction, RpcError, Tool,
    PROTOCOL_VERSION,
};
use diskscour::report::category_matches;
use diskscour::tool_calls::{
    arg_limit, arg_path, arg_str, carried_out, human_age, index_for, resolve_arg_path, scan_broke,
    scan_call, scan_covering, scan_not_started, scan_on, still_running, tool_caches, tool_top,
    tool_tree, trash_call, trash_step, wait_step, Running, TrashStep, Wait,
};
use diskscour::tools::tool_definitions;
use serde_json::Value;

fn value(s: &str) -> Value {
    serde_json::from_str(s).unwrap()
}

fn done(r: Result<Reaction, RpcError>) -> Value {
    match r {
        Ok(Reaction::Done(v)) => v,
        _ => panic!("not done"),
    }
}

#[test]
fn initialize_reports_a_tools_capability() {
    let r = done(dispatch("initialize", &Value::Null));
    assert_eq!(r["protocolVersion"], PROTOCOL_VERSION);
    assert!(r["capabilities"]["tools"].is_object());
    assert_eq!(r["serverInfo"]["name"], "diskscour");
    assert_eq!(r["serverInfo"]["version"], "0.5.0");
}

#[test]
fn every_tool_has_a_description_and_schema() {
    let tools = tool_definitions();
    assert_eq!(tools.len(), 6);
    for t in &tools {
        assert!(t["name"].as_str().is_some_and(|n| n.starts_with("ds_")));
        assert!(t["description"].as_str().is_some_and(|d| d.len() > 40));
        assert_eq!(t["inputSchema"]["type"], "object");
    }
    assert_eq!(tools[1]["inputSchema"]["properties"]["mode"]["enum"][1], "full");
    assert_eq!(tools[5]["inputSchema"]["required"][0], "paths");
    let listed = done(dispatch("tools/list", &Value::Null));
    assert_eq!(listed["tools"].as_array().unwrap(), &tools);
}

#[test]
fn unknown_method_and_tool_are_reported_distinctly() {
    assert_eq!(dispatch("nope", &Value::Null).err().unwrap().code, -32601);
    let call = value(r#"{"name": "ds_nope", "arguments": {}}"#);
    assert_eq!(dispatch("tools/call", &call).err().unwrap().code, -32602);
    let e = dispatch("tools/call", &value("{}")).err().unwrap();
    assert_eq!(e.code, -32602);
    assert_eq!(e.message, "missing tool name");
}

fn no_index(p: &str) -> String {
    match index_for(None, &vec![], p) {
        Err(e) => e,
        Ok(_) => panic!("no index was found"),
    }
}

#[test]
fn a_failing_tool_answers_with_is_error_not_a_protocol_error() {
    // Tool-level failures must come back as content so the agent can read them, not
    // as JSON-RPC errors that it cannot act on.
    let call = value(r#"{"name": "ds_caches", "arguments": {"path": "/definitely/not/here"}}"#);
    let args = match dispatch("tools/call", &call) {
        Ok(Reaction::Call(Tool::Caches, args)) => args,
        _ => panic!("dispatch should succeed"),
    };
    let path = arg_path(&args, None, "/").unwrap();
    let r = tool_reply(Err(no_index(&path)));
    assert_eq!(r["isError"], true);
    assert!(r["content"][0]["text"].as_str().unwrap().contains("ds_scan"));
    let whole = answer(&value("7"), Ok(r));
    assert_eq!(whole["id"], 7);
    assert!(whole.get("error").is_none());
}

#[test]
fn trash_without_confirm_never_reports_a_deletion() {
    let call = value(r#"{"name": "ds_trash", "arguments": {"paths": ["/tmp/does-not-exist-xyz"]}}"#);
    let args = match dispatch("tools/call", &call) {
        Ok(Reaction::Call(Tool::Trash, args)) => args,
        _ => panic!("dispatch"),
    };
    let c = trash_call(&args, None, "/").unwrap_or_else(|e| panic!("{e}"));
    assert_eq!(c.paths, vec!["/tmp/does-not-exist-xyz"]);
    assert!(!c.confirm);
    let plan = Plan {
        items: vec![Item {
            path: "/w/a/b/target".into(),
            bytes: 2048,
            category: Some(Category::Rust),
            note: Some("note"),
        }],
        rejected: vec![Rejected {
            path: "/tmp/does-not-exist-xyz".into(),
            reason: "path no longer exists".into(),
        }],
    };
    let v = match trash_step(&c, "/w", &plan) {
        TrashStep::Answer(v) => v,
        TrashStep::Execute => panic!("nothing was confirmed"),
    };
    let text = tool_reply(Ok(v))["content"][0]["text"].as_str().unwrap().to_string();
    assert!(!text.contains("\"confirmed\": true"));
    assert!(text.contains("\"confirmed\": false"));
    assert!(text.contains("\"would_free_human\": \"2.0 KB\""));
    assert!(text.contains("path no longer exists"));
}

#[test]
fn a_confirmed_call_is_carried_out() {
    let args = value(r#"{"paths": ["~/x", 3, "y"], "confirm": true, "allow_any": true}"#);
    let c = trash_call(&args, Some("/h"), "/w").unwrap_or_else(|e| panic!("{e}"));
    assert_eq!(c.paths, vec!["/h/x", "/w/y"]);
    assert!(c.confirm && c.allow_any);
    let plan = Plan { items: vec![], rejected: vec![] };
    assert!(matches!(trash_step(&c, "/w", &plan), TrashStep::Execute));
    let outcomes = vec![
        Outcome { path: "/w/a".into(), bytes: 1024, trashed: true, error: None },
        Outcome { path: "/w/b".into(), bytes: 9, trashed: false, error: Some("no".into()) },
    ];
    let v = carried_out("/w", &plan, &outcomes);
    assert_eq!(v["confirmed"], true);
    assert_eq!(v["trashed_count"], 1);
    assert_eq!(v["freed_bytes"], 1024);
    assert_eq!(v["freed_human"], "1.0 KB");
    assert_eq!(v["results"][1]["error"], "no");
    assert_eq!(v["results"][0]["error"], Value::Null);
}

#[test]
fn trash_calls_that_name_nothing_are_refused() {
    let say = |s: &str| match trash_call(&value(s), None, "/") {
        Err(e) => e,
        Ok(_) => panic!("accepted"),
    };
    assert_eq!(say("{}"), "paths is required and must be an array");
    assert_eq!(say(r#"{"paths": "x"}"#), "paths is required and must be an array");
    assert_eq!(say(r#"{"paths": []}"#), "paths is empty");
    assert_eq!(say(r#"{"paths": [1]}"#), "paths contained no usable strings");
}

#[test]
fn tilde_paths_expand() {
    let home = "/Users/me";
    assert_eq!(resolve_arg_path("~", Some(home), "/w"), home);
    assert_eq!(resolve_arg_path("~/Github", Some(home), "/w"), "/Users/me/Github");
    assert_eq!(resolve_arg_path("~", None, "/w"), "/w/~");
    assert_eq!(resolve_arg_path("x", Some(home), "/w"), "/w/x");
    assert_eq!(resolve_arg_path("/x", Some(home), "/w"), "/x");
}

#[test]
fn category_filter_accepts_common_shorthands() {
    assert!(category_matches("rust", Category::Rust));
    assert!(category_matches("js", Category::JsTs));
    assert!(category_matches("node", Category::JsTs));
    assert!(category_matches("xcode", Category::Apple));
    assert!(!category_matches("rust", Category::Python));
    assert!(category_matches("RUST", Category::Rust));
    assert!(category_matches("java", Category::Jvm));
    assert!(!category_matches("ios", Category::Jvm));
}

#[test]
fn messages_are_told_apart() {
    assert!(matches!(receive("  \n"), Incoming::Nothing));
    assert!(matches!(receive(r#"{"method": "initialized"}"#), Incoming::Nothing));
    match receive("{oops") {
        Incoming::Answer(v) => {
            assert_eq!(v["id"], Value::Null);
            assert_eq!(v["error"]["code"], -32700);
            assert!(v["error"]["message"].as_str().unwrap().starts_with("parse error: "));
        }
        _ => panic!("no answer"),
    }
    match receive("{\"id\": \"a\", \"method\": \"ping\", \"params\": {\"x\": 1}}\r\n") {
        Incoming::Request(q) => {
            assert_eq!(q.id, "a");
            assert_eq!(q.method, "ping");
            assert_eq!(q.params["x"], 1);
            let v = answer(&q.id, dispatch(&q.method, &q.params).map(|r| match r {
                Reaction::Done(v) => v,
                Reaction::Call(..) => panic!("ping is no tool"),
            }));
            assert_eq!(v, value(r#"{"jsonrpc": "2.0", "id": "a", "result": {}}"#));
        }
        _ => panic!("no request"),
    }
    match receive(r#"{"id": null, "method": 4}"#) {
        Incoming::Request(q) => {
            assert_eq!(q.id, Value::Null);
            assert_eq!(q.method, "");
            assert_eq!(q.params, Value::Null);
        }
        _ => panic!("no request"),
    }
}

#[test]
fn messages_take_one_line() {
    let v = value(r#"{"b": "two\nlines", "a": [1, -2, null, true]}"#);
    let line = message_line(&v);
    assert_eq!(line, "{\"a\":[1,-2,null,true],\"b\":\"two\\nlines\"}\n");
    let e = answer(&value("1"), Err(RpcError::method_not_found("x")));
    assert_eq!(e["error"]["code"], -32601);
    assert_eq!(e["error"]["message"], "unknown method: x");
    assert!(e.get("result").is_none());
}

#[test]
fn arguments_are_read() {
    let a = value(r#"{"s": "  x ", "blank": " ", "limit": 0, "n": 7}"#);
    assert_eq!(arg_str(&a, "s"), Some("x".to_string()));
    assert_eq!(arg_str(&a, "blank"), None);
    assert_eq!(arg_str(&a, "n"), None);
    assert_eq!(arg_limit(&a), 1);
    assert_eq!(arg_limit(&value(r#"{"limit": 501}"#)), 500);
    assert_eq!(arg_limit(&value(r#"{"limit": -1}"#)), 30);
    assert_eq!(arg_limit(&value("{}")), 30);
    assert_eq!(arg_path(&value("{}"), None, "/"), Err("path is required".to_string()));
}

#[test]
fn scans_are_waited_for_at_most_so_long() {
    let c = scan_call(&value(r#"{"path": "~", "mode": "full", "wait_seconds": 99}"#), Some("/h"), "/")
        .unwrap_or_else(|e| panic!("{e}"));
    assert_eq!(c.root, "/h");
    assert!(c.freshness == Freshness::Full);
    assert_eq!(c.wait, 55);
    let c = scan_call(&value(r#"{"path": "/p"}"#), None, "/").unwrap_or_else(|e| panic!("{e}"));
    assert!(c.freshness == Freshness::Auto);
    assert_eq!(c.wait, 20);
    assert!(scan_call(&value("{}"), None, "/").is_err());
    assert_eq!(wait_step(true, 99, 0), Wait::Join);
    assert_eq!(wait_step(false, 0, 0), Wait::Report);
    assert_eq!(wait_step(false, 4, 5), Wait::Again);
}

fn running() -> Vec<Running> {
    vec![
        Running { root: "/a".into(), files: 3, bytes: 2048, elapsed: 9 },
        Running { root: "/a/b".into(), files: 0, bytes: 0, elapsed: 0 },
    ]
}

#[test]
fn running_scans_answer_for_what_lies_below_them() {
    let r = running();
    assert_eq!(scan_covering(&r, "/a/b/c"), Some(0));
    assert_eq!(scan_covering(&r, "/x"), None);
    assert_eq!(scan_on(&r, "/a/b/"), Some(1));
    assert_eq!(scan_on(&r, "/a/b/c"), None);
    match index_for(None, &r, "/a/z") {
        Err(e) => assert_eq!(
            e,
            "No index covers /a/z yet: a scan of /a is running (3 files, 2.0 KB so far). \
             Call ds_scan on it to wait for the result."
        ),
        Ok(_) => panic!("no index was found"),
    }
    let v = still_running(&r[0]);
    assert_eq!(v["status"], "running");
    assert_eq!(v["files_so_far"], 3);
    assert_eq!(v["bytes_so_far_human"], "2.0 KB");
    assert_eq!(v["elapsed_seconds"], 9);
    assert_eq!(scan_broke("/a", "oh"), "scan of /a panicked: oh");
    assert_eq!(scan_not_started("oh"), "could not start the scan thread: oh");
}

#[test]
fn ages_read_well() {
    assert_eq!(human_age(89), "89s ago");
    assert_eq!(human_age(90), "1m ago");
    assert_eq!(human_age(5399), "89m ago");
    assert_eq!(human_age(5400), "1h ago");
    assert_eq!(human_age(172_800), "2d ago");
}

fn rec(parent: Option<u32>, name: &str, bytes: u64, own: u64, large: Vec<(String, u64)>) -> DirRec {
    DirRec {
        parent,
        name: name.into(),
        mtime_ns: 0,
        own_bytes: own,
        own_files: if own > 0 { 2 } else { 0 },
        own_private: own,
        subtree_bytes: bytes,
        subtree_files: 4,
        subtree_private: bytes,
        large,
        large_private: vec![],
    }
}

fn sample() -> Index {
    Index {
        root: "/r".into(),
        scanned_at: 1000,
        mode: Mode::Mtime,
        device_id: 1,
        last_event_id: 2,
        threshold: 100,
        root_ix: 0,
        dirs: vec![
            rec(None, "r", 10_000, 5, vec![("big".into(), 3000)]),
            rec(Some(0), "d", 6000, 0, vec![("f".into(), 4000), ("g".into(), 2000)]),
        ],
    }
}

#[test]
fn the_largest_entries_come_first_at_any_depth() {
    let idx = sample();
    assert!(idx.is_sound());
    let v = tool_top(&idx, 60, "/r", 3, false).unwrap();
    assert_eq!(v["total_bytes"], 10_000);
    assert_eq!(v["index"]["age_seconds"], 60);
    assert_eq!(v["index"]["age_human"], "60s ago");
    assert_eq!(v["index"]["mode"], "mtime");
    assert_eq!(v["index"]["stale"], false);
    let rows = v["entries"].as_array().unwrap();
    let paths: Vec<&str> = rows.iter().map(|r| r["path"].as_str().unwrap()).collect();
    assert_eq!(paths, vec!["/r/d", "/r/d/f", "/r/big"]);
    let v = tool_top(&idx, 60, "/r", 30, true).unwrap();
    assert_eq!(v["entries"].as_array().unwrap().len(), 1);
    assert_eq!(
        tool_top(&idx, 60, "/r/zzz", 3, false),
        Err("/r/zzz is not in the index for /r".to_string())
    );
    let v = tool_top(&idx, 604_801, "/r/d/f", 3, false).unwrap();
    assert_eq!(v["entries"], value("[]"));
    assert_eq!(v["index"]["stale"], true);
}

#[test]
fn children_are_listed_with_a_row_for_small_files() {
    let v = tool_tree(&sample(), 0, "/r", 30).unwrap();
    assert_eq!(v["children"], 3);
    assert_eq!(v["shown"], 3);
    assert_eq!(v["entries"][0]["name"], "d");
    assert_eq!(v["entries"][0]["path"], "/r/d");
    assert_eq!(v["entries"][2]["summary_row"], true);
    assert_eq!(v["entries"][2]["path"], Value::Null);
    assert_eq!(v["entries"][2]["name"], "(2 small files)");
    let v = tool_tree(&sample(), 0, "/r", 1).unwrap();
    assert_eq!(v["shown"], 1);
    assert!(tool_tree(&sample(), 0, "/q", 1).is_err());
}

#[test]
fn no_caches_are_a_list_too() {
    let v = tool_caches(&sample(), 5, &vec![], 30);
    assert_eq!(v["matches"], 0);
    assert_eq!(v["caches"], value("[]"));
    assert_eq!(v["reclaimable_human"], "0 B");
    assert_eq!(v["index"]["scanned_at"], 1000);
}
