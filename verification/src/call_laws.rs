//! What the arguments of a call mean, and what is answered.

use vstd::prelude::*;

use crate::json;
use crate::json::Json;
use crate::mcp;
use crate::mcp::{Incoming, Reaction, RpcError};
use crate::path;
use crate::registration;
use crate::text;
use crate::text_laws;
use crate::tool_calls;
use crate::tool_calls::{RunningView, TrashCall};
use crate::tools;
use crate::util;

verus! {

// ---- arguments ------------------------------------------------------------------------------

/// A text is taken without the white space round it; one that holds nothing else, and what is
/// no text, counts as not given.
pub proof fn law_texts_are_taken_trimmed(args: Json, key: Seq<char>)
    ensures
        match json::field(args, key) {
            Some(Json::Str(s)) => match tool_calls::text_arg(args, key) {
                Some(t) => t.len() > 0 && !text::is_white(t[0]) && !text::is_white(t.last()) && (
                exists|a: Seq<char>, b: Seq<char>|
                    s == #[trigger] (a + t + b) && text_laws::all_white(a) && text_laws::all_white(
                        b,
                    )),
                None => text_laws::all_white(s),
            },
            _ => tool_calls::text_arg(args, key) is None,
        },
{
    if let Some(Json::Str(s)) = json::field(args, key) {
        text_laws::law_trimming_takes_white_space(s);
        if text::trimmed(s).len() == 0 {
            let (a, b) = choose|a: Seq<char>, b: Seq<char>|
                s == #[trigger] (a + text::trimmed(s) + b) && text_laws::all_white(a)
                    && text_laws::all_white(b);
            assert forall|i: int| 0 <= i < s.len() implies text::is_white(#[trigger] s[i]) by {
                if i < a.len() {
                    assert(s[i] == a[i]);
                } else {
                    assert(s[i] == b[i - a.len()]);
                }
            }
        }
    }
}

/// A switch is on only where it is given as true, and a number counts where it is none below
/// zero.
pub proof fn law_switches_and_numbers_are_taken_as_given(args: Json, key: Seq<char>, none: u64)
    ensures
        tool_calls::bool_arg(args, key) <==> (json::field(args, key) matches Some(Json::Bool(b))
            && b),
        match json::field(args, key) {
            Some(Json::Int(n)) if n >= 0 => tool_calls::number_arg(args, key, none) == n,
            _ => tool_calls::number_arg(args, key, none) == none,
        },
{
}

/// From one to five hundred rows are shown, thirty where nothing is said; within that as many
/// as are asked for.
pub proof fn law_rows_are_limited(args: Json)
    ensures
        1 <= tool_calls::row_limit(args) <= 500,
        match json::field(args, "limit"@) {
            Some(Json::Int(n)) if n >= 0 => {
                &&& 1 <= n <= 500 ==> tool_calls::row_limit(args) == n
                &&& n == 0 ==> tool_calls::row_limit(args) == 1
                &&& n > 500 ==> tool_calls::row_limit(args) == 500
            },
            _ => tool_calls::row_limit(args) == 30,
        },
{
}

/// A call waits for as long as is asked for, up to fifty-five seconds, and for twenty where
/// nothing is said.
pub proof fn law_waiting_is_limited(args: Json)
    ensures
        0 <= tool_calls::wait_secs(args) <= 55,
        match json::field(args, "wait_seconds"@) {
            Some(Json::Int(n)) if n >= 0 => {
                &&& n <= 55 ==> tool_calls::wait_secs(args) == n
                &&& n > 55 ==> tool_calls::wait_secs(args) == 55
            },
            _ => tool_calls::wait_secs(args) == 20,
        },
{
}

/// A path is taken as it stands where it is absolute, below the home directory where it
/// begins with a tilde, and below the working directory otherwise. It is absolute in the end.
pub proof fn law_given_paths_become_absolute(
    raw: Seq<char>,
    names: Seq<Seq<char>>,
    home: Seq<char>,
    cwd: Seq<char>,
)
    requires
        path::absolute(home),
        path::absolute(cwd),
        forall|k: int| 0 <= k < names.len() ==> path::plain(#[trigger] names[k]),
    ensures
        path::absolute(tool_calls::resolved(raw, Some(home), cwd)),
        path::absolute(tool_calls::resolved(raw, None, cwd)),
        path::absolute(raw) ==> tool_calls::resolved(raw, Some(home), cwd) == raw
            && tool_calls::resolved(raw, None, cwd) == raw,
        tool_calls::resolved("~"@, Some(home), cwd) == home,
        path::comps(tool_calls::resolved("~/"@ + path::joined(names), Some(home), cwd))
            == path::comps(home) + names,
        !path::absolute(raw) && raw == path::joined(names) ==> path::comps(
            tool_calls::resolved(raw, None, cwd),
        ) == path::comps(cwd) + names,
        !path::absolute(raw) && raw == path::joined(names) && raw != "~"@ && !"~/"@.is_prefix_of(
            raw,
        ) ==> path::comps(tool_calls::resolved(raw, Some(home), cwd)) == path::comps(cwd) + names,
{
    reveal_strlit("~");
    reveal_strlit("~/");
    let below = path::joined(names);
    let t = "~/"@ + below;
    assert(t.take(2) =~= "~/"@);
    assert(t.skip(2) =~= below);
    assert("~/"@.is_prefix_of(t));
    assert(t.len() >= 2 && "~"@.len() == 1);
    path::lemma_comps_join_all(home, names);
    path::lemma_comps_join_all(cwd, names);
    lemma_join_absolute(home, below);
    lemma_join_absolute(home, raw.skip(2));
    lemma_join_absolute(cwd, raw);
    if path::absolute(raw) {
        assert("~"@[0] == '~');
        if "~/"@.is_prefix_of(raw) {
            assert(raw.take(2)[0] == "~/"@[0]);
        }
    }
}

proof fn lemma_join_absolute(base: Seq<char>, t: Seq<char>)
    requires
        path::absolute(base),
    ensures
        path::absolute(path::join_text(base, t)),
{
}

/// A call to trash has a path for each text that it is given, in order, and is carried out
/// only where it says so.
pub proof fn law_trash_takes_each_text(
    args: Json,
    raw: Seq<Json>,
    home: Option<Seq<char>>,
    cwd: Seq<char>,
    r: Result<TrashCall, String>,
)
    requires
        tool_calls::trash_asked(args, home, cwd, r),
        json::field(args, "paths"@) == Some(Json::Arr(raw)),
    ensures
        r is Ok <==> exists|i: int| 0 <= i < raw.len() && (#[trigger] raw[i]) is Str,
        r matches Ok(c) ==> {
            let given = raw.filter(|j: Json| j is Str);
            &&& c.paths@.len() == given.len()
            &&& forall|i: int|
                0 <= i < given.len() ==> (#[trigger] c.paths@[i])@ == tool_calls::resolved(
                    given[i]->Str_0,
                    home,
                    cwd,
                )
            &&& c.confirm <==> json::field(args, "confirm"@) == Some(Json::Bool(true))
            &&& c.allow_any <==> json::field(args, "allow_any"@) == Some(Json::Bool(true))
        },
{
    let f = |j: Json| j is Str;
    let kept = raw.filter(f);
    crate::registration_laws::lemma_texts(raw, raw.len());
    assert(raw.take(raw.len() as int) =~= raw);
    let given = registration::texts_upto(raw, raw.len());
    assert(given.len() == kept.len());
    if exists|i: int| 0 <= i < raw.len() && (#[trigger] raw[i]) is Str {
        let i = choose|i: int| 0 <= i < raw.len() && (#[trigger] raw[i]) is Str;
        assert(f(raw[i]));
        raw.lemma_filter_contains(f, i);
        assert(kept.len() > 0);
    } else {
        if kept.len() > 0 {
            text::lemma_filter_members(raw, f, 0);
            let i = choose|i: int| 0 <= i < raw.len() && raw[i] == kept[0];
            assert(raw[i] is Str);
        }
    }
    if let Ok(c) = r {
        let want = given.map_values(|s: Seq<char>| tool_calls::resolved(s, home, cwd));
        assert(text::strs(c.paths@).len() == want.len());
        assert forall|i: int| 0 <= i < kept.len() implies (#[trigger] c.paths@[i])@
            == tool_calls::resolved(kept[i]->Str_0, home, cwd) by {
            assert(text::strs(c.paths@)[i] == c.paths@[i]@);
            assert(want[i] == tool_calls::resolved(given[i], home, cwd));
        }
    }
}

// ---- running scans ----------------------------------------------------------------------------

/// The first scan whose root holds the path is the one that is found, and one is found where
/// there is one.
pub proof fn law_first_covering_scan_is_found(scans: Seq<RunningView>, p: Seq<char>, k: nat)
    ensures
        match tool_calls::covering(scans, p, k) {
            Some(i) => k <= i < scans.len() && path::within(p, scans[i].root) && forall|j: int|
                k <= j < i ==> !path::within(p, (#[trigger] scans[j]).root),
            None => forall|j: int|
                k <= j < scans.len() ==> !path::within(p, (#[trigger] scans[j]).root),
        },
    decreases scans.len() - k,
{
    if k < scans.len() && !path::within(p, scans[k as int].root) {
        law_first_covering_scan_is_found(scans, p, k + 1);
    }
}

/// A root is scanned once at a time: the scan that runs on it is found where there is one.
pub proof fn law_running_scan_is_found(scans: Seq<RunningView>, root: Seq<char>, k: nat)
    ensures
        match tool_calls::running_on(scans, root, k) {
            Some(i) => k <= i < scans.len() && path::same(scans[i].root, root) && forall|j: int|
                k <= j < i ==> !path::same((#[trigger] scans[j]).root, root),
            None => forall|j: int|
                k <= j < scans.len() ==> !path::same((#[trigger] scans[j]).root, root),
        },
    decreases scans.len() - k,
{
    if k < scans.len() && !path::same(scans[k as int].root, root) {
        law_running_scan_is_found(scans, root, k + 1);
    }
}

/// What is missing is told with the path that was asked for.
pub proof fn law_missing_index_names_the_path(scans: Seq<RunningView>, p: Seq<char>)
    ensures
        ("No index covers "@ + p).is_prefix_of(tool_calls::no_index_text(scans, p)),
        tool_calls::covering(scans, p, 0) matches Some(k) ==> ("No index covers "@ + p
            + " yet: a scan of "@ + scans[k].root + " is running ("@ + text::decimal(
            scans[k].files as nat,
        ) + " files, "@ + util::human_size(scans[k].bytes)).is_prefix_of(
            tool_calls::no_index_text(scans, p),
        ),
{
    let head = "No index covers "@ + p;
    match tool_calls::covering(scans, p, 0) {
        Some(k) => {
            let a = head + " yet: a scan of "@;
            let b = a + scans[k].root;
            let c = b + " is running ("@;
            let d = c + text::decimal(scans[k].files as nat);
            let e = d + " files, "@;
            let f = e + util::human_size(scans[k].bytes);
            let g = f + " so far). Call ds_scan on it to wait for the result."@;
            assert(tool_calls::no_index_text(scans, p) == g);
            text_laws::lemma_front(f, " so far). Call ds_scan on it to wait for the result."@);
            text_laws::lemma_front(head, " yet: a scan of "@);
            text_laws::lemma_longer(head, a, scans[k].root);
            text_laws::lemma_longer(head, b, " is running ("@);
            text_laws::lemma_longer(head, c, text::decimal(scans[k].files as nat));
            text_laws::lemma_longer(head, d, " files, "@);
            text_laws::lemma_longer(head, e, util::human_size(scans[k].bytes));
            text_laws::lemma_longer(head, f, " so far). Call ds_scan on it to wait for the result."@);
        },
        None => {
            text_laws::lemma_front(head, ". Run ds_scan on it (or on a parent folder) first."@);
        },
    }
}

/// An age is told in whole seconds, minutes, hours or days, rounded down, the larger unit
/// once the smaller one would run to ninety and more, or to two days of hours.
pub proof fn law_ages_are_told_in_whole_units(secs: u64, n: nat)
    ensures
        secs < 90 ==> tool_calls::age_text(secs) == text::decimal(secs as nat) + "s ago"@,
        90 <= secs < 5400 && 60 * n <= secs < 60 * (n + 1) ==> tool_calls::age_text(secs)
            == text::decimal(n) + "m ago"@,
        5400 <= secs < 172_800 && 3600 * n <= secs < 3600 * (n + 1) ==> tool_calls::age_text(secs)
            == text::decimal(n) + "h ago"@,
        172_800 <= secs && 86_400 * n <= secs < 86_400 * (n + 1) ==> tool_calls::age_text(secs)
            == text::decimal(n) + "d ago"@,
{
}

// ---- the protocol -----------------------------------------------------------------------------

proof fn lemma_protocol_keys()
    ensures
        "jsonrpc"@.len() == 7 && "jsonrpc"@[0] == 'j',
        "id"@.len() == 2,
        "result"@.len() == 6,
        "error"@.len() == 5,
        "code"@.len() == 4 && "code"@[0] == 'c',
        "message"@.len() == 7 && "message"@[0] == 'm',
        "content"@.len() == 7 && "content"@[0] == 'c',
        "isError"@.len() == 7 && "isError"@[0] == 'i',
        "type"@.len() == 4 && "type"@[0] == 't' && "type"@[1] == 'y',
        "text"@.len() == 4 && "text"@[1] == 'e',
        "name"@.len() == 4 && "name"@[0] == 'n',
        "description"@.len() == 11 && "description"@[0] == 'd',
        "inputSchema"@.len() == 11 && "inputSchema"@[0] == 'i',
        "properties"@.len() == 10,
        "required"@.len() == 8,
{
    reveal_strlit("jsonrpc");
    reveal_strlit("id");
    reveal_strlit("result");
    reveal_strlit("error");
    reveal_strlit("code");
    reveal_strlit("message");
    reveal_strlit("content");
    reveal_strlit("isError");
    reveal_strlit("type");
    reveal_strlit("text");
    reveal_strlit("name");
    reveal_strlit("description");
    reveal_strlit("inputSchema");
    reveal_strlit("properties");
    reveal_strlit("required");
}

/// Whether the answer tells of an error with its code and message, and of no result.
pub open spec fn tells_error(j: Json, code: int, message: Seq<char>) -> bool {
    &&& json::field(j, "result"@) is None
    &&& json::field(j, "error"@) matches Some(e) && json::field(e, "code"@) == Some(
        Json::Int(code),
    ) && json::field(e, "message"@) == Some(Json::Str(message))
}

/// An answer is the result as it is, or the error with its code and message.
pub proof fn law_answers_tell_the_outcome(id: Json, r: Result<Json, (int, Seq<char>)>)
    ensures
        json::field(mcp::answer_json(id, r), "jsonrpc"@) == Some(Json::Str("2.0"@)),
        match r {
            Ok(v) => json::field(mcp::answer_json(id, r), "result"@) == Some(v),
            Err(e) => tells_error(mcp::answer_json(id, r), e.0, e.1),
        },
{
    lemma_protocol_keys();
}

/// What is no message is answered by an error under no number. A message with a number is a
/// request under it; one without is not answered.
pub proof fn law_messages_with_a_number_are_requests(
    p: Result<Json, Seq<char>>,
    r: Incoming,
)
    requires
        mcp::understood(p, r),
    ensures
        match p {
            Err(e) => r matches Incoming::Answer(v) && json::field(json::json(v), "id"@) == Some(
                Json::Null,
            ) && tells_error(json::json(v), -32700, "parse error: "@ + e),
            Ok(j) => {
                &&& r is Request <==> json::field(j, "id"@) is Some
                &&& r is Nothing <==> json::field(j, "id"@) is None
                &&& r matches Incoming::Request(q) ==> {
                    &&& json::field(j, "id"@) == Some(json::json(q.id))
                    &&& json::field(j, "method"@) matches Some(Json::Str(m)) ==> q.method@ == m
                    &&& json::field(j, "params"@) matches Some(v) ==> json::json(q.params) == v
                }
            },
        },
{
    lemma_protocol_keys();
}

/// What a tool answers is one text: the value in full, or what went wrong.
pub proof fn law_tools_answer_in_text(body: Result<Json, Seq<char>>)
    ensures
        json::field(mcp::tool_json(body), "content"@) matches Some(Json::Arr(c)) && c.len() == 1
            && json::field(c[0], "type"@) == Some(Json::Str("text"@)) && json::field(
            c[0],
            "text"@,
        ) == Some(
            Json::Str(
                match body {
                    Ok(v) => json::pretty_text(v),
                    Err(e) => e,
                },
            ),
        ),
{
    lemma_protocol_keys();
}

/// Whether the definition is that of a tool of the name.
pub open spec fn defines(d: Json, name: Seq<char>) -> bool {
    json::field(d, "name"@) == Some(Json::Str(name))
}

proof fn lemma_tool_names()
    ensures
        "ds_status"@.len() == 9 && "ds_status"@[4] == 't',
        "ds_scan"@.len() == 7,
        "ds_caches"@.len() == 9 && "ds_caches"@[4] == 'a',
        "ds_top"@.len() == 6,
        "ds_tree"@.len() == 7 && "ds_tree"@[3] == 't' && "ds_scan"@[3] == 's',
        "ds_trash"@.len() == 8,
{
    reveal_strlit("ds_status");
    reveal_strlit("ds_scan");
    reveal_strlit("ds_caches");
    reveal_strlit("ds_top");
    reveal_strlit("ds_tree");
    reveal_strlit("ds_trash");
}

proof fn lemma_definitions()
    ensures
        tools::definitions().len() == 6,
        tools::definitions()[0] == tools::status_tool(),
        tools::definitions()[1] == tools::scan_tool(),
        tools::definitions()[2] == tools::caches_tool(),
        tools::definitions()[3] == tools::top_tool(),
        tools::definitions()[4] == tools::tree_tool(),
        tools::definitions()[5] == tools::trash_tool(),
        defines(tools::status_tool(), "ds_status"@),
        defines(tools::scan_tool(), "ds_scan"@),
        defines(tools::caches_tool(), "ds_caches"@),
        defines(tools::top_tool(), "ds_top"@),
        defines(tools::tree_tool(), "ds_tree"@),
        defines(tools::trash_tool(), "ds_trash"@),
{
    lemma_protocol_keys();
}

/// The tools that are listed are those that can be called, each under a name of its own.
pub proof fn law_listed_tools_can_be_called(name: Seq<char>, other: Seq<char>)
    ensures
        mcp::tool_named(name) is Some <==> exists|i: int|
            0 <= i < tools::definitions().len()
                && defines(#[trigger] tools::definitions()[i], name),
        mcp::tool_named(name) is Some && mcp::tool_named(name) == mcp::tool_named(other) ==> name
            == other,
{
    lemma_definitions();
    lemma_tool_names();
    let ds = tools::definitions();
    assert(defines(ds[0], "ds_status"@));
    assert(defines(ds[1], "ds_scan"@));
    assert(defines(ds[2], "ds_caches"@));
    assert(defines(ds[3], "ds_top"@));
    assert(defines(ds[4], "ds_tree"@));
    assert(defines(ds[5], "ds_trash"@));
    if exists|i: int| 0 <= i < ds.len() && defines(#[trigger] ds[i], name) {
        let i = choose|i: int| 0 <= i < ds.len() && defines(#[trigger] ds[i], name);
        assert(i == 0 || i == 1 || i == 2 || i == 3 || i == 4 || i == 5);
    }
}

/// A call of a listed tool is handed on to it with the arguments that it was given; every
/// other call, and every other method, is refused by name.
pub proof fn law_calls_reach_their_tool(
    method: Seq<char>,
    params: Json,
    name: Seq<char>,
    r: Result<Reaction, RpcError>,
)
    requires
        mcp::dispatched(method, params, r),
    ensures
        method == "tools/call"@ && json::field(params, "name"@) == Some(Json::Str(name)) ==> {
            &&& r is Ok <==> mcp::tool_named(name) is Some
            &&& r matches Ok(x) ==> (x matches Reaction::Call(t, args) && mcp::tool_named(name)
                == Some(t) && (json::field(params, "arguments"@) matches Some(a) ==> json::json(
                args,
            ) == a))
            &&& r matches Err(e) ==> e.code == -32602 && e.message@ == "unknown tool: "@ + name
        },
        method == "tools/call"@ && !(json::field(params, "name"@) matches Some(Json::Str(_)))
            ==> (r matches Err(e) && e.code == -32602),
        method != "initialize"@ && method != "ping"@ && method != "tools/list"@ && method
            != "tools/call"@ ==> (r matches Err(e) && e.code == -32601 && e.message@
            == "unknown method: "@ + method),
        method == "tools/list"@ ==> (r matches Ok(Reaction::Done(v)) && json::field(
            json::json(v),
            "tools"@,
        ) == Some(Json::Arr(tools::definitions()))),
        method == "ping"@ ==> (r matches Ok(Reaction::Done(v)) && json::json(v) is Obj),
        method == "initialize"@ ==> (r matches Ok(Reaction::Done(v)) && json::field(
            json::json(v),
            "protocolVersion"@,
        ) is Some),
{
    reveal_strlit("initialize");
    reveal_strlit("ping");
    reveal_strlit("tools/list");
    reveal_strlit("tools/call");
    assert("initialize"@[0] == 'i' && "ping"@[0] == 'p' && "tools/list"@[6] == 'l'
        && "tools/call"@[6] == 'c' && "tools/list"@[0] == 't' && "tools/call"@[0] == 't');
    reveal_strlit("protocolVersion");
    reveal_strlit("capabilities");
    reveal_strlit("serverInfo");
    assert("protocolVersion"@.len() == 15 && "capabilities"@.len() == 12 && "serverInfo"@.len()
        == 10);
}

/// Whether the value tells of a running scan where it is and how far it has come.
pub open spec fn tells_progress(j: Json, r: RunningView) -> bool {
    &&& json::field(j, "root"@) == Some(Json::Str(r.root))
    &&& json::field(j, "files_so_far"@) == Some(Json::Int(r.files as int))
    &&& json::field(j, "bytes_so_far"@) == Some(Json::Int(r.bytes as int))
    &&& json::field(j, "bytes_so_far_human"@) == Some(Json::Str(util::human_size(r.bytes)))
    &&& json::field(j, "elapsed_seconds"@) == Some(Json::Int(r.elapsed as int))
}

proof fn lemma_progress_keys()
    ensures
        "root"@.len() == 4 && "root"@[0] == 'r',
        "files_so_far"@.len() == 12 && "files_so_far"@[0] == 'f',
        "bytes_so_far"@.len() == 12 && "bytes_so_far"@[0] == 'b',
        "bytes_so_far_human"@.len() == 18,
        "elapsed_seconds"@.len() == 15,
        "status"@.len() == 6,
        "hint"@.len() == 4 && "hint"@[0] == 'h',
        "indexed_roots"@.len() == 13 && "indexed_roots"@[0] == 'i',
        "running_scans"@.len() == 13 && "running_scans"@[0] == 'r',
        "mcp"@.len() == 3,
{
    reveal_strlit("root");
    reveal_strlit("files_so_far");
    reveal_strlit("bytes_so_far");
    reveal_strlit("bytes_so_far_human");
    reveal_strlit("elapsed_seconds");
    reveal_strlit("status");
    reveal_strlit("hint");
    reveal_strlit("indexed_roots");
    reveal_strlit("running_scans");
    reveal_strlit("mcp");
}

/// A scan that outlasts the call is told to be running, with how far it has come.
pub proof fn law_running_scans_tell_progress(r: RunningView)
    ensures
        tells_progress(Json::Obj(tool_calls::progress_fields(r)), r),
        tells_progress(tool_calls::still_running_json(r), r),
        json::field(tool_calls::still_running_json(r), "status"@) == Some(Json::Str("running"@)),
        json::field(tool_calls::still_running_json(r), "hint"@) is Some,
{
    lemma_progress_keys();
}

/// The status shows every root and every running scan, how the server is wired in, and a hint
/// where nothing is indexed.
pub proof fn law_status_shows_roots_and_scans(
    roots: Seq<Json>,
    scans: Seq<RunningView>,
    s: registration::StatusView,
)
    ensures
        ({
            let j = tool_calls::status_reply_json(roots, scans, s);
            &&& json::field(j, "indexed_roots"@) == Some(Json::Arr(roots))
            &&& json::field(j, "mcp"@) == Some(registration::status_json(s))
            &&& json::field(j, "hint"@) is Some <==> roots.len() == 0
            &&& json::field(j, "running_scans"@) matches Some(Json::Arr(rows)) && rows.len()
                == scans.len() && forall|i: int|
                0 <= i < rows.len() ==> tells_progress(#[trigger] rows[i], scans[i])
        }),
{
    lemma_progress_keys();
    if roots.len() == 0 {
        assert(roots =~= Seq::<Json>::empty());
    }
    let rows = scans.map_values(|r: RunningView| Json::Obj(tool_calls::progress_fields(r)));
    assert forall|i: int| 0 <= i < rows.len() implies tells_progress(
        #[trigger] rows[i],
        scans[i],
    ) by {
        law_running_scans_tell_progress(scans[i]);
    }
}

/// Whether the definition asks for the argument, and describes it.
pub open spec fn asks_for(d: Json, key: Seq<char>) -> bool {
    json::field(d, "inputSchema"@) matches Some(s) && json::field(s, "required"@) == Some(
        Json::Arr(seq![Json::Str(key)]),
    ) && (json::field(s, "properties"@) matches Some(Json::Obj(m)) && m.contains_key(key))
}

/// Whether the definition describes the argument.
pub open spec fn describes(d: Json, key: Seq<char>, kind: Seq<char>) -> bool {
    json::field(d, "inputSchema"@) matches Some(s) && (json::field(s, "properties"@) matches Some(
        Json::Obj(m),
    ) && m.contains_key(key) && json::field(m[key], "type"@) == Some(Json::Str(kind)))
}

proof fn lemma_argument_keys()
    ensures
        "path"@.len() == 4 && "path"@[0] == 'p',
        "paths"@.len() == 5 && "paths"@[0] == 'p',
        "mode"@.len() == 4 && "mode"@[0] == 'm',
        "wait_seconds"@.len() == 12,
        "category"@.len() == 8,
        "min_bytes"@.len() == 9 && "min_bytes"@[0] == 'm',
        "limit"@.len() == 5 && "limit"@[0] == 'l',
        "dirs_only"@.len() == 9 && "dirs_only"@[0] == 'd',
        "confirm"@.len() == 7,
        "allow_any"@.len() == 9 && "allow_any"@[0] == 'a',
        "enum"@.len() == 4 && "enum"@[0] == 'e',
        "items"@.len() == 5 && "items"@[0] == 'i',
{
    reveal_strlit("path");
    reveal_strlit("paths");
    reveal_strlit("mode");
    reveal_strlit("wait_seconds");
    reveal_strlit("category");
    reveal_strlit("min_bytes");
    reveal_strlit("limit");
    reveal_strlit("dirs_only");
    reveal_strlit("confirm");
    reveal_strlit("allow_any");
    reveal_strlit("enum");
    reveal_strlit("items");
}

/// Every tool but the one that lists what is indexed asks for a path, or for paths where it
/// trashes, and describes each argument that it takes.
pub proof fn law_tools_describe_what_they_take()
    ensures
        asks_for(tools::scan_tool(), "path"@),
        asks_for(tools::caches_tool(), "path"@),
        asks_for(tools::top_tool(), "path"@),
        asks_for(tools::tree_tool(), "path"@),
        asks_for(tools::trash_tool(), "paths"@),
        describes(tools::scan_tool(), "mode"@, "string"@),
        describes(tools::scan_tool(), "wait_seconds"@, "integer"@),
        describes(tools::caches_tool(), "category"@, "string"@),
        describes(tools::caches_tool(), "min_bytes"@, "integer"@),
        describes(tools::caches_tool(), "limit"@, "integer"@),
        describes(tools::top_tool(), "limit"@, "integer"@),
        describes(tools::top_tool(), "dirs_only"@, "boolean"@),
        describes(tools::tree_tool(), "limit"@, "integer"@),
        describes(tools::trash_tool(), "paths"@, "array"@),
        describes(tools::trash_tool(), "confirm"@, "boolean"@),
        describes(tools::trash_tool(), "allow_any"@, "boolean"@),
{
    lemma_protocol_keys();
    lemma_argument_keys();
    assert(Seq::empty().push(Json::Str("path"@)) =~= seq![Json::Str("path"@)]);
    assert(Seq::empty().push(Json::Str("paths"@)) =~= seq![Json::Str("paths"@)]);
}

/// What the index does not hold is told by its path and by the root that was looked through.
pub proof fn law_missing_places_are_named(p: Seq<char>, root: Seq<char>)
    ensures
        (p + " is not in the index"@).is_prefix_of(tool_calls::not_in_index(p, root)),
        root.is_suffix_of(tool_calls::not_in_index(p, root)),
{
    reveal_strlit(" is not in the index for ");
    reveal_strlit(" is not in the index");
    let t = tool_calls::not_in_index(p, root);
    let head = p + " is not in the index"@;
    assert(t.take(head.len() as int) =~= head);
    assert(t.subrange(t.len() - root.len(), t.len() as int) =~= root);
}

} // verus!
