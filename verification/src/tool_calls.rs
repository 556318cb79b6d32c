//! The tools of the MCP server: what their arguments say, and what they answer.

use serde_json::Value;
use vstd::prelude::*;

use crate::browse;
use crate::browse::{entries_below, largest_first, node_at};
use crate::cleanup;
use crate::cleanup::{ItemView, Outcome, OutcomeView, Plan};
use crate::cli;
use crate::cli::after_tilde;
use crate::engine;
use crate::engine::{Freshness, Refreshed};
use crate::index;
use crate::index::{to_tree, Index, IndexView, Mode};
use crate::json;
use crate::json::{member, null, optional, Fields, Json, Values};
use crate::order;
use crate::path;
use crate::path::{is_absolute, join, path_starts_with, same_path};
use crate::registration;
use crate::registration::{texts, Status};
use crate::report;
use crate::report::{apparent, freed, is_shared, items_value, reclaimable, Listed, ListedView};
use crate::roundtrip;
use crate::rules;
use crate::scan;
use crate::scan::{Tree, TreeView};
use crate::text;
use crate::text::{chars_of, decimal_string, str_eq, trim};
use crate::util;
use crate::util::human;

verus! {

/// Cap on rows returned by a listing tool, so one call can't flood a context.
pub const MAX_ROWS: u64 = 500;

/// Rows returned by a listing tool where none are asked for.
pub const DEFAULT_ROWS: u64 = 30;

/// How long `ds_scan` waits for the scan before answering with progress.
pub const DEFAULT_WAIT_SECS: u64 = 20;

/// How long `ds_scan` waits at most: under the roughly 60 s after which MCP clients
/// give up.
pub const MAX_WAIT_SECS: u64 = 55;

/// What to do where a scan of the whole disk could not read everything.
pub const FULL_DISK_ACCESS_HINT: &'static str = "Some folders could not be read. Grant Full Disk \
Access to the app that runs diskscour (System Settings > Privacy & Security) and scan again.";

// ---- arguments ------------------------------------------------------------------------

/// A text argument, without white space at its ends; an empty one is none.
pub open spec fn text_arg(args: Json, key: Seq<char>) -> Option<Seq<char>> {
    match json::field(args, key) {
        Some(Json::Str(s)) => if text::trimmed(s).len() == 0 {
            None
        } else {
            Some(text::trimmed(s))
        },
        _ => None,
    }
}

/// A text argument, without white space at its ends; an empty one is none.
pub fn arg_str(args: &Value, key: &str) -> (r: Option<String>)
    ensures
        index::opt_string(r) == text_arg(json::json(*args), key@),
{
    match member(args, key) {
        Some(v) => match v.as_str() {
            Some(s) => {
                let t = trim(s);
                if chars_of(t.as_str()).len() == 0 {
                    None
                } else {
                    Some(t)
                }
            },
            None => None,
        },
        None => None,
    }
}

/// A boolean argument; where there is none, it is false.
pub open spec fn bool_arg(args: Json, key: Seq<char>) -> bool {
    json::field(args, key) == Some(Json::Bool(true))
}

/// A boolean argument; where there is none, it is false.
pub fn arg_bool(args: &Value, key: &str) -> (r: bool)
    ensures
        r == bool_arg(json::json(*args), key@),
{
    match member(args, key) {
        Some(v) => match v.as_bool() {
            Some(b) => b,
            None => false,
        },
        None => false,
    }
}

/// A number argument, or `none` where there is none.
pub open spec fn number_arg(args: Json, key: Seq<char>, none: u64) -> int {
    match json::field(args, key) {
        Some(Json::Int(n)) => if n >= 0 {
            n
        } else {
            none as int
        },
        _ => none as int,
    }
}

/// A number argument, or `none` where there is none.
pub fn arg_number(args: &Value, key: &str, none: u64) -> (r: u64)
    ensures
        r == number_arg(json::json(*args), key@, none),
{
    match member(args, key) {
        Some(v) => match v.as_u64() {
            Some(n) => n,
            None => none,
        },
        None => none,
    }
}

/// How many rows are asked for.
pub open spec fn row_limit(args: Json) -> int {
    let n = number_arg(args, "limit"@, DEFAULT_ROWS);
    if n < 1 {
        1
    } else if n > MAX_ROWS {
        MAX_ROWS as int
    } else {
        n
    }
}

/// How many rows are asked for.
pub fn arg_limit(args: &Value) -> (r: usize)
    ensures
        r == row_limit(json::json(*args)),
        1 <= r <= MAX_ROWS,
{
    let n: u64 = arg_number(args, "limit", DEFAULT_ROWS);
    if n < 1 {
        1
    } else if n > MAX_ROWS {
        MAX_ROWS as usize
    } else {
        n as usize
    }
}

/// A path as an agent gives it, made absolute: `~` stands for the home directory,
/// where there is one, and a relative path starts from `cwd`.
pub open spec fn resolved(raw: Seq<char>, home: Option<Seq<char>>, cwd: Seq<char>) -> Seq<char> {
    let p = match home {
        Some(h) => if raw == "~"@ {
            h
        } else if "~/"@.is_prefix_of(raw) {
            path::join_text(h, raw.skip(2))
        } else {
            raw
        },
        None => raw,
    };
    if path::absolute(p) {
        p
    } else {
        path::join_text(cwd, p)
    }
}

/// Expand `~` and make a path absolute, as an agent may pass either form.
pub fn resolve_arg_path(raw: &str, home: Option<&str>, cwd: &str) -> (r: String)
    ensures
        r@ == resolved(raw@, index::opt_str(home), cwd@),
{
    let p = match home {
        Some(h) => if str_eq(raw, "~") {
            h.to_owned()
        } else {
            match after_tilde(raw) {
                Some(rest) => join(h, rest.as_str()),
                None => raw.to_owned(),
            }
        },
        None => raw.to_owned(),
    };
    if is_absolute(p.as_str()) {
        p
    } else {
        join(cwd, p.as_str())
    }
}

/// The path that a tool is given, made absolute, or what is missing.
pub open spec fn path_given(args: Json, home: Option<Seq<char>>, cwd: Seq<char>) -> Result<
    Seq<char>,
    Seq<char>,
> {
    match text_arg(args, "path"@) {
        Some(raw) => Ok(resolved(raw, home, cwd)),
        None => Err("path is required"@),
    }
}

/// The view of a text, or of what is wrong.
pub open spec fn text_result(r: Result<String, String>) -> Result<Seq<char>, Seq<char>> {
    match r {
        Ok(s) => Ok(s@),
        Err(e) => Err(e@),
    }
}

/// The path that a tool is given, made absolute, or what is missing.
pub fn arg_path(args: &Value, home: Option<&str>, cwd: &str) -> (r: Result<String, String>)
    ensures
        text_result(r) == path_given(json::json(*args), index::opt_str(home), cwd@),
{
    match arg_str(args, "path") {
        Some(raw) => Ok(resolve_arg_path(raw.as_str(), home, cwd)),
        None => Err("path is required".to_owned()),
    }
}

// ---- running scans --------------------------------------------------------------------

/// A scan in flight: its root and how far it is.
pub struct Running {
    pub root: String,
    pub files: u64,
    pub bytes: u64,
    /// Seconds since it started.
    pub elapsed: u64,
}

/// A scan in flight with characters for strings.
#[verifier::ext_equal]
pub struct RunningView {
    pub root: Seq<char>,
    pub files: u64,
    pub bytes: u64,
    pub elapsed: u64,
}

impl View for Running {
    type V = RunningView;

    open spec fn view(&self) -> RunningView {
        RunningView {
            root: self.root@,
            files: self.files,
            bytes: self.bytes,
            elapsed: self.elapsed,
        }
    }
}

/// The scans, each as what it says.
pub open spec fn running_view(v: Seq<Running>) -> Seq<RunningView> {
    v.map_values(|r: Running| r@)
}

/// The first of the scans from the `k`-th on whose root contains the path.
pub open spec fn covering(scans: Seq<RunningView>, p: Seq<char>, k: nat) -> Option<int>
    decreases scans.len() - k,
{
    if k >= scans.len() {
        None
    } else if path::within(p, scans[k as int].root) {
        Some(k as int)
    } else {
        covering(scans, p, k + 1)
    }
}

/// The running scan whose root contains the path, if any.
pub fn scan_covering(scans: &Vec<Running>, p: &str) -> (r: Option<usize>)
    ensures
        match r {
            Some(i) => i < scans@.len() && covering(running_view(scans@), p@, 0) == Some(i as int),
            None => covering(running_view(scans@), p@, 0) is None,
        },
{
    let ghost all = running_view(scans@);
    let mut i: usize = 0;
    while i < scans.len()
        invariant
            all == running_view(scans@),
            i <= scans@.len(),
            covering(all, p@, 0) == covering(all, p@, i as nat),
        decreases scans@.len() - i,
    {
        assert(all[i as int] == scans@[i as int]@);
        if path_starts_with(p, scans[i].root.as_str()) {
            return Some(i);
        }
        i += 1;
    }
    None
}

/// Why no index can answer for a path.
pub open spec fn no_index_text(scans: Seq<RunningView>, p: Seq<char>) -> Seq<char> {
    match covering(scans, p, 0) {
        Some(k) => "No index covers "@ + p + " yet: a scan of "@ + scans[k].root + " is running ("@
            + text::decimal(scans[k].files as nat) + " files, "@ + util::human_size(
            scans[k].bytes,
        ) + " so far). Call ds_scan on it to wait for the result."@,
        None => "No index covers "@ + p
            + ". Run ds_scan on it (or on a parent folder) first."@,
    }
}

/// The index that answers for a path, or why none can.
pub fn index_for(found: Option<Index>, scans: &Vec<Running>, p: &str) -> (r: Result<Index, String>)
    ensures
        match found {
            Some(i) => r == Ok::<Index, String>(i),
            None => r matches Err(e) && e@ == no_index_text(running_view(scans@), p@),
        },
{
    match found {
        Some(i) => Ok(i),
        None => {
            let mut s = "No index covers ".to_owned();
            s.append(p);
            match scan_covering(scans, p) {
                Some(k) => {
                    assert(running_view(scans@)[k as int] == scans@[k as int]@);
                    s.append(" yet: a scan of ");
                    s.append(scans[k].root.as_str());
                    s.append(" is running (");
                    s.append(decimal_string(scans[k].files).as_str());
                    s.append(" files, ");
                    s.append(human(scans[k].bytes).as_str());
                    s.append(" so far). Call ds_scan on it to wait for the result.");
                },
                None => {
                    s.append(". Run ds_scan on it (or on a parent folder) first.");
                },
            }
            Err(s)
        },
    }
}

/// Progress of a running scan, as members.
pub open spec fn progress_fields(r: RunningView) -> Map<Seq<char>, Json> {
    map![
        "root"@ => Json::Str(r.root),
        "files_so_far"@ => Json::Int(r.files as int),
        "bytes_so_far"@ => Json::Int(r.bytes as int),
        "bytes_so_far_human"@ => Json::Str(util::human_size(r.bytes)),
        "elapsed_seconds"@ => Json::Int(r.elapsed as int),
    ]
}

fn progress(r: &Running) -> (o: Fields)
    ensures
        o@ == progress_fields(r@),
{
    let mut o = Fields::new();
    o.put_str("root", r.root.as_str());
    o.put_num("files_so_far", r.files);
    o.put_num("bytes_so_far", r.bytes);
    o.put_str("bytes_so_far_human", human(r.bytes).as_str());
    o.put_num("elapsed_seconds", r.elapsed);
    o
}

// ---- provenance -----------------------------------------------------------------------

/// An age in words.
pub open spec fn age_text(secs: u64) -> Seq<char> {
    if secs < 90 {
        text::decimal(secs as nat) + "s ago"@
    } else if secs < 5400 {
        text::decimal((secs / 60) as nat) + "m ago"@
    } else if secs < 172_800 {
        text::decimal((secs / 3600) as nat) + "h ago"@
    } else {
        text::decimal((secs / 86_400) as nat) + "d ago"@
    }
}

/// An age in words.
pub fn human_age(secs: u64) -> (r: String)
    ensures
        r@ == age_text(secs),
{
    let (n, unit): (u64, &str) = if secs < 90 {
        (secs, "s ago")
    } else if secs < 5400 {
        (secs / 60, "m ago")
    } else if secs < 172_800 {
        (secs / 3600, "h ago")
    } else {
        (secs / 86_400, "d ago")
    };
    let mut s = decimal_string(n);
    s.append(unit);
    s
}

/// Where the numbers of a read come from, and how old they are.
pub open spec fn provenance(v: IndexView, age: u64) -> Json {
    Json::Obj(
        map![
            "root"@ => Json::Str(v.root),
            "scanned_at"@ => Json::Int(v.scanned_at as int),
            "age_seconds"@ => Json::Int(age as int),
            "age_human"@ => Json::Str(age_text(age)),
            "mode"@ => Json::Str(index::mode_str(v.mode)),
            "stale"@ => Json::Bool(age > engine::MAX_INCREMENTAL_AGE),
        ],
    )
}

/// Provenance attached to every read, so the caller can judge the numbers.
pub fn freshness_of(idx: &Index, age: u64) -> (r: Value)
    ensures
        json::json(r) == provenance(idx@, age),
{
    let mut o = Fields::new();
    o.put_str("root", idx.root.as_str());
    o.put_num("scanned_at", idx.scanned_at);
    o.put_num("age_seconds", age);
    o.put_str("age_human", human_age(age).as_str());
    o.put_str("mode", idx.mode.as_str());
    o.put_bool("stale", age > engine::MAX_INCREMENTAL_AGE);
    o.done()
}

// ---- ds_status ------------------------------------------------------------------------

/// A size in words, or `null` where it is not known.
pub open spec fn size_or_null(n: Option<u64>) -> Json {
    match n {
        Some(n) => Json::Str(util::human_size(n)),
        None => Json::Null,
    }
}

fn size_value(n: Option<u64>) -> (r: Value)
    ensures
        json::json(r) == size_or_null(n),
{
    match n {
        Some(n) => json::string(human(n).as_str()),
        None => null(),
    }
}

/// An indexed root as `ds_status` shows it. `disk` is the size of its volume and
/// what is free of it.
pub open spec fn status_root_json(
    v: IndexView,
    age: u64,
    ls: Seq<ListedView>,
    disk: Option<(u64, u64)>,
) -> Json {
    Json::Obj(
        map![
            "root"@ => Json::Str(v.root),
            "total_bytes"@ => Json::Int(cli::index_bytes(v) as int),
            "total_human"@ => Json::Str(util::human_size(cli::index_bytes(v))),
            "files"@ => Json::Int(cli::index_files(v) as int),
            "reclaimable_bytes"@ => Json::Int(report::free_bytes(ls) as int),
            "reclaimable_human"@ => Json::Str(util::human_size(report::free_bytes(ls))),
            "cache_dirs"@ => Json::Int(ls.len() as int),
            "scanned_at"@ => Json::Int(v.scanned_at as int),
            "age_human"@ => Json::Str(age_text(age)),
            "mode"@ => Json::Str(index::mode_str(v.mode)),
            "volume_total_human"@ => size_or_null(
                match disk {
                    Some(d) => Some(d.0),
                    None => None,
                },
            ),
            "volume_free_human"@ => size_or_null(
                match disk {
                    Some(d) => Some(d.1),
                    None => None,
                },
            ),
        ],
    )
}

/// An indexed root as `ds_status` shows it.
pub fn status_root(idx: &Index, age: u64, ls: &Vec<Listed>, disk: Option<(u64, u64)>) -> (r: Value)
    requires
        idx.root_ix < idx.dirs@.len(),
    ensures
        json::json(r) == status_root_json(idx@, age, report::listed_view(ls@), disk),
{
    let free: u64 = reclaimable(ls);
    let (whole, left): (Option<u64>, Option<u64>) = match disk {
        Some((t, a)) => (Some(t), Some(a)),
        None => (None, None),
    };
    let mut o = Fields::new();
    o.put_str("root", idx.root.as_str());
    o.put_num("total_bytes", idx.total_bytes());
    o.put_str("total_human", human(idx.total_bytes()).as_str());
    o.put_num("files", idx.total_files());
    o.put_num("reclaimable_bytes", free);
    o.put_str("reclaimable_human", human(free).as_str());
    o.put_num("cache_dirs", ls.len() as u64);
    o.put_num("scanned_at", idx.scanned_at);
    o.put_str("age_human", human_age(age).as_str());
    o.put_str("mode", idx.mode.as_str());
    o.put("volume_total_human", size_value(whole));
    o.put("volume_free_human", size_value(left));
    o.done()
}

/// The running scans, as an array.
pub open spec fn scans_json(scans: Seq<RunningView>) -> Json {
    Json::Arr(scans.map_values(|r: RunningView| Json::Obj(progress_fields(r))))
}

fn scans_value(scans: &Vec<Running>) -> (r: Value)
    ensures
        json::json(r) == scans_json(running_view(scans@)),
{
    let ghost all = running_view(scans@);
    let ghost want = all.map_values(|r: RunningView| Json::Obj(progress_fields(r)));
    let mut rows = Values::new();
    let mut i: usize = 0;
    while i < scans.len()
        invariant
            all == running_view(scans@),
            want == all.map_values(|r: RunningView| Json::Obj(progress_fields(r))),
            i <= scans@.len(),
            rows@ == want.take(i as int),
        decreases scans@.len() - i,
    {
        assert(all[i as int] == scans@[i as int]@);
        rows.push(progress(&scans[i]).done());
        i += 1;
        assert(rows@ =~= want.take(i as int));
    }
    assert(want.take(i as int) =~= want);
    rows.done()
}

/// What `ds_status` answers, from what it shows of each root.
pub open spec fn status_reply_json(
    roots: Seq<Json>,
    scans: Seq<RunningView>,
    mcp: registration::StatusView,
) -> Json {
    if roots.len() == 0 {
        Json::Obj(
            map![
                "indexed_roots"@ => Json::Arr(Seq::empty()),
                "running_scans"@ => scans_json(scans),
                "hint"@ => Json::Str(
                    "Nothing indexed yet. Call ds_scan with a path such as the user's home or project folder."@,
                ),
                "mcp"@ => registration::status_json(mcp),
            ],
        )
    } else {
        Json::Obj(
            map![
                "indexed_roots"@ => Json::Arr(roots),
                "running_scans"@ => scans_json(scans),
                "mcp"@ => registration::status_json(mcp),
            ],
        )
    }
}

/// What `ds_status` answers. `mcp` is how the server is wired in; its sessions count
/// this process too, so a lone caller sees 1 rather than 0.
pub fn tool_status(roots: Vec<Value>, scans: &Vec<Running>, mcp: &Status) -> (r: Value)
    ensures
        json::json(r) == status_reply_json(json::jsons(roots@), running_view(scans@), mcp@),
{
    let none = roots.len() == 0;
    assert(json::jsons(roots@).len() == roots@.len());
    assert(none ==> json::jsons(roots@) =~= Seq::<Json>::empty());
    let mut o = Fields::new();
    o.put("indexed_roots", json::array(roots));
    o.put("running_scans", scans_value(scans));
    if none {
        o.put_str(
            "hint",
            "Nothing indexed yet. Call ds_scan with a path such as the user's home or project folder.",
        );
    }
    o.put("mcp", mcp.to_json());
    o.done()
}

// ---- ds_scan --------------------------------------------------------------------------

/// What a call of `ds_scan` asks for.
pub struct ScanCall {
    pub root: String,
    pub freshness: Freshness,
    /// How many seconds to wait for the scan.
    pub wait: u64,
}

/// How many seconds a call waits for the scan.
pub open spec fn wait_secs(args: Json) -> int {
    let n = number_arg(args, "wait_seconds"@, DEFAULT_WAIT_SECS);
    if n < MAX_WAIT_SECS {
        n
    } else {
        MAX_WAIT_SECS as int
    }
}

/// What a call of `ds_scan` asks for, or what is missing.
pub fn scan_call(args: &Value, home: Option<&str>, cwd: &str) -> (r: Result<ScanCall, String>)
    ensures
        match path_given(json::json(*args), index::opt_str(home), cwd@) {
            Ok(p) => r matches Ok(c) && c.root@ == p && c.wait == wait_secs(json::json(*args))
                && c.freshness == (if text_arg(json::json(*args), "mode"@) == Some("full"@) {
                Freshness::Full
            } else {
                Freshness::Auto
            }),
            Err(why) => r matches Err(e) && e@ == why,
        },
{
    let root = match arg_path(args, home, cwd) {
        Ok(p) => p,
        Err(e) => {
            return Err(e);
        },
    };
    let freshness = match arg_str(args, "mode") {
        Some(m) => if str_eq(m.as_str(), "full") {
            Freshness::Full
        } else {
            Freshness::Auto
        },
        None => Freshness::Auto,
    };
    let n: u64 = arg_number(args, "wait_seconds", DEFAULT_WAIT_SECS);
    let wait: u64 = if n < MAX_WAIT_SECS {
        n
    } else {
        MAX_WAIT_SECS
    };
    Ok(ScanCall { root, freshness, wait })
}

/// The first of the scans from the `k`-th on that is of the root.
pub open spec fn running_on(scans: Seq<RunningView>, root: Seq<char>, k: nat) -> Option<int>
    decreases scans.len() - k,
{
    if k >= scans.len() {
        None
    } else if path::same(scans[k as int].root, root) {
        Some(k as int)
    } else {
        running_on(scans, root, k + 1)
    }
}

/// The scan that already runs on a root, if any: a call waits for it rather than
/// start a second one.
pub fn scan_on(scans: &Vec<Running>, root: &str) -> (r: Option<usize>)
    ensures
        match r {
            Some(i) => i < scans@.len() && running_on(running_view(scans@), root@, 0) == Some(
                i as int,
            ),
            None => running_on(running_view(scans@), root@, 0) is None,
        },
{
    let ghost all = running_view(scans@);
    let mut i: usize = 0;
    while i < scans.len()
        invariant
            all == running_view(scans@),
            i <= scans@.len(),
            running_on(all, root@, 0) == running_on(all, root@, i as nat),
        decreases scans@.len() - i,
    {
        assert(all[i as int] == scans@[i as int]@);
        if same_path(scans[i].root.as_str(), root) {
            return Some(i);
        }
        i += 1;
    }
    None
}

/// What to do with a scan that a call waits for.
#[derive(Clone, Copy, PartialEq, Eq, Debug, Structural)]
pub enum Wait {
    /// It is finished: answer with its result.
    Join,
    /// It outlasts the call: answer with progress, and keep it.
    Report,
    /// Look again a little later.
    Again,
}

/// What to do with a scan that a call waits for.
pub fn wait_step(finished: bool, waited: u64, wait: u64) -> (r: Wait)
    ensures
        r == (if finished {
            Wait::Join
        } else if waited >= wait {
            Wait::Report
        } else {
            Wait::Again
        }),
{
    if finished {
        Wait::Join
    } else if waited >= wait {
        Wait::Report
    } else {
        Wait::Again
    }
}

/// What `ds_scan` answers where the scan outlasts the call.
pub open spec fn still_running_json(r: RunningView) -> Json {
    Json::Obj(
        progress_fields(r).insert("status"@, Json::Str("running"@)).insert(
            "hint"@,
            Json::Str(
                "Call ds_scan again with the same path to wait more; the scan keeps running."@,
            ),
        ),
    )
}

/// What `ds_scan` answers where the scan outlasts the call.
pub fn still_running(r: &Running) -> (v: Value)
    ensures
        json::json(v) == still_running_json(r@),
{
    let mut o = progress(r);
    o.put_str("status", "running");
    o.put_str("hint", "Call ds_scan again with the same path to wait more; the scan keeps running.");
    o.done()
}

/// What `ds_scan` answers where the scan broke down.
pub fn scan_broke(root: &str, why: &str) -> (r: String)
    ensures
        r@ == "scan of "@ + root@ + " panicked: "@ + why@,
{
    let mut s = "scan of ".to_owned();
    s.append(root);
    s.append(" panicked: ");
    s.append(why);
    s
}

/// What `ds_scan` answers where the scan could not be started.
pub fn scan_not_started(why: &str) -> (r: String)
    ensures
        r@ == "could not start the scan thread: "@ + why@,
{
    let mut s = "could not start the scan thread: ".to_owned();
    s.append(why);
    s
}

/// What a finished scan answers, as members.
pub open spec fn done_fields(
    root: Seq<char>,
    v: IndexView,
    mode: Mode,
    why: Seq<char>,
    changed: nat,
    saved: bool,
    seconds: Json,
    unreadable: u64,
    ls: Seq<ListedView>,
) -> Map<Seq<char>, Json> {
    map![
        "status"@ => Json::Str("done"@),
        "root"@ => Json::Str(root),
        "total_bytes"@ => Json::Int(cli::index_bytes(v) as int),
        "total_human"@ => Json::Str(util::human_size(cli::index_bytes(v))),
        "files"@ => Json::Int(cli::index_files(v) as int),
        "reclaimable_bytes"@ => Json::Int(report::free_bytes(ls) as int),
        "reclaimable_human"@ => Json::Str(util::human_size(report::free_bytes(ls))),
        "cache_dirs"@ => Json::Int(ls.len() as int),
        "seconds"@ => seconds,
        "mode"@ => Json::Str(index::mode_str(mode)),
        "why"@ => Json::Str(why),
        "changed_dirs"@ => Json::Int(changed as int),
        "unreadable_dirs"@ => Json::Int(unreadable as int),
        "index_saved"@ => Json::Bool(saved),
    ]
}

/// What a finished scan answers. Where folders of the whole disk could not be read,
/// it says what can be done about that.
pub open spec fn done_json(root: Seq<char>, fields: Map<Seq<char>, Json>, unreadable: u64) -> Json {
    if unreadable > 0 && path::same(root, "/"@) {
        Json::Obj(fields.insert("hint"@, Json::Str(FULL_DISK_ACCESS_HINT@)))
    } else {
        Json::Obj(fields)
    }
}

/// What a finished scan answers. `seconds` is how long it took.
pub fn scan_result(
    root: &str,
    r: &Refreshed,
    seconds: &Value,
    unreadable: u64,
    ls: &Vec<Listed>,
) -> (out: Value)
    requires
        r.index.root_ix < r.index.dirs@.len(),
    ensures
        json::json(out) == done_json(
            root@,
            done_fields(
                root@,
                r.index@,
                r.mode,
                r.reason@,
                r.changed_dirs as nat,
                r.saved,
                json::json(*seconds),
                unreadable,
                report::listed_view(ls@),
            ),
            unreadable,
        ),
{
    let free: u64 = reclaimable(ls);
    let total: u64 = r.index.total_bytes();
    let mut o = Fields::new();
    o.put_str("status", "done");
    o.put_str("root", root);
    o.put_num("total_bytes", total);
    o.put_str("total_human", human(total).as_str());
    o.put_num("files", r.index.total_files());
    o.put_num("reclaimable_bytes", free);
    o.put_str("reclaimable_human", human(free).as_str());
    o.put_num("cache_dirs", ls.len() as u64);
    o.put("seconds", seconds.clone());
    o.put_str("mode", r.mode.as_str());
    o.put_str("why", r.reason.as_str());
    o.put_num("changed_dirs", r.changed_dirs as u64);
    o.put_num("unreadable_dirs", unreadable);
    o.put_bool("index_saved", r.saved);
    if unreadable > 0 && same_path(root, "/") {
        o.put_str("hint", FULL_DISK_ACCESS_HINT);
    }
    o.done()
}

// ---- ds_caches ------------------------------------------------------------------------

/// A cache directory as `ds_caches` lists it.
pub open spec fn cache_row(l: ListedView) -> Json {
    Json::Obj(
        map![
            "path"@ => Json::Str(l.hit.path),
            "in_use"@ => json::text_or_null(l.in_use),
            "bytes"@ => Json::Int(l.hit.private as int),
            "human"@ => Json::Str(util::human_size(l.hit.private)),
            "apparent_bytes"@ => Json::Int(l.hit.size as int),
            "apparent_human"@ => Json::Str(util::human_size(l.hit.size)),
            "mostly_shared"@ => Json::Bool(report::mostly_shared(l.hit)),
            "files"@ => Json::Int(l.hit.files as int),
            "category"@ => Json::Str(rules::category_label(l.hit.category)),
            "note"@ => Json::Str(l.hit.note),
        ],
    )
}

fn cache_row_value(l: &Listed) -> (r: Value)
    ensures
        json::json(r) == cache_row(l@),
{
    let mut o = Fields::new();
    o.put_str("path", l.hit.path.as_str());
    o.put("in_use", optional(&l.in_use));
    o.put_num("bytes", l.hit.private);
    o.put_str("human", human(l.hit.private).as_str());
    o.put_num("apparent_bytes", l.hit.size);
    o.put_str("apparent_human", human(l.hit.size).as_str());
    o.put_bool("mostly_shared", is_shared(&l.hit));
    o.put_num("files", l.hit.files);
    o.put_str("category", l.hit.category.label());
    o.put_str("note", l.hit.note);
    o.done()
}

/// What the sizes mean.
pub const SIZE_NOTE: &'static str = "bytes/human is what deleting would actually free. apparent_* is what \
du would report; entries flagged mostly_shared occupy blocks shared \
with a global package store, so removing them frees almost nothing. \
An entry with in_use set holds an executable something is running or \
reaching through $PATH — ds_trash refuses those.";

/// What to do with a listing of caches.
pub const CACHES_NEXT: &'static str = "Pass any of these paths to ds_trash (confirm=false first to preview).";

/// What `ds_caches` answers, with at most `limit` rows.
pub open spec fn caches_reply_json(v: IndexView, age: u64, ls: Seq<ListedView>, limit: nat) -> Json {
    let n = cli::at_most(ls.len(), limit);
    Json::Obj(
        map![
            "index"@ => provenance(v, age),
            "reclaimable_bytes"@ => Json::Int(report::free_bytes(ls) as int),
            "reclaimable_human"@ => Json::Str(util::human_size(report::free_bytes(ls))),
            "apparent_bytes"@ => Json::Int(report::apparent_bytes(ls) as int),
            "apparent_human"@ => Json::Str(util::human_size(report::apparent_bytes(ls))),
            "size_note"@ => Json::Str(SIZE_NOTE@),
            "matches"@ => Json::Int(ls.len() as int),
            "shown"@ => Json::Int(n as int),
            "caches"@ => Json::Arr(Seq::new(n, |i: int| cache_row(ls[i]))),
            "next_step"@ => Json::Str(CACHES_NEXT@),
        ],
    )
}

/// What `ds_caches` answers, with at most `limit` rows. `ls` are the directories that
/// are asked for.
pub fn tool_caches(idx: &Index, age: u64, ls: &Vec<Listed>, limit: usize) -> (r: Value)
    ensures
        json::json(r) == caches_reply_json(idx@, age, report::listed_view(ls@), limit as nat),
{
    let ghost lv = report::listed_view(ls@);
    let n: usize = if ls.len() < limit {
        ls.len()
    } else {
        limit
    };
    let ghost want = Seq::new(n as nat, |i: int| cache_row(lv[i]));
    let mut rows = Values::new();
    let mut i: usize = 0;
    while i < n
        invariant
            lv == report::listed_view(ls@),
            n <= ls@.len(),
            want == Seq::new(n as nat, |i: int| cache_row(lv[i])),
            i <= n,
            rows@ == want.take(i as int),
        decreases n - i,
    {
        assert(lv[i as int] == ls@[i as int]@);
        rows.push(cache_row_value(&ls[i]));
        i += 1;
        assert(rows@ =~= want.take(i as int));
    }
    assert(want.take(i as int) =~= want);
    let free: u64 = reclaimable(ls);
    let seeming: u64 = apparent(ls);
    let mut o = Fields::new();
    o.put("index", freshness_of(idx, age));
    o.put_num("reclaimable_bytes", free);
    o.put_str("reclaimable_human", human(free).as_str());
    o.put_num("apparent_bytes", seeming);
    o.put_str("apparent_human", human(seeming).as_str());
    o.put_str("size_note", SIZE_NOTE);
    o.put_num("matches", ls.len() as u64);
    o.put_num("shown", n as u64);
    o.put("caches", rows.done());
    o.put_str("next_step", CACHES_NEXT);
    o.done()
}

// ---- ds_top ---------------------------------------------------------------------------

/// Why a path below an indexed root is not listed.
pub open spec fn not_in_index(p: Seq<char>, root: Seq<char>) -> Seq<char> {
    p + " is not in the index for "@ + root
}

fn missing(p: &str, root: &str) -> (r: String)
    ensures
        r@ == not_in_index(p@, root@),
{
    let mut s = p.to_owned();
    s.append(" is not in the index for ");
    s.append(root);
    s
}

/// A node as `ds_top` lists it.
pub open spec fn top_row(t: TreeView, i: int) -> Json {
    let n = t.nodes[i];
    Json::Obj(
        map![
            "path"@ => Json::Str(scan::node_path(t, i)),
            "bytes"@ => Json::Int(n.size as int),
            "human"@ => Json::Str(util::human_size(n.size)),
            "is_dir"@ => Json::Bool(n.is_dir),
            "files"@ => Json::Int(n.file_count as int),
        ],
    )
}

fn top_row_value(tree: &Tree, i: usize) -> (r: Value)
    requires
        tree@.wf(),
        i < tree.nodes@.len(),
    ensures
        json::json(r) == top_row(tree@, i as int),
{
    assert(tree@.nodes[i as int] == tree.nodes@[i as int]@);
    let n = &tree.nodes[i];
    let mut o = Fields::new();
    o.put_str("path", tree.path(i).as_str());
    o.put_num("bytes", n.size);
    o.put_str("human", human(n.size).as_str());
    o.put_bool("is_dir", n.is_dir);
    o.put_num("files", n.file_count);
    o.done()
}

/// What `ds_top` answers, with the first `limit` of the nodes `sorted`.
pub open spec fn top_json(
    v: IndexView,
    age: u64,
    p: Seq<char>,
    t: TreeView,
    start: int,
    sorted: Seq<usize>,
    limit: nat,
) -> Json {
    Json::Obj(
        map![
            "index"@ => provenance(v, age),
            "path"@ => Json::Str(p),
            "total_bytes"@ => Json::Int(t.nodes[start].size as int),
            "total_human"@ => Json::Str(util::human_size(t.nodes[start].size)),
            "entries"@ => Json::Arr(
                Seq::new(
                    cli::at_most(sorted.len(), limit),
                    |i: int| top_row(t, sorted[i] as int),
                ),
            ),
        ],
    )
}

/// Whether `r` is what `ds_top` answers from the tree of an index: everything below
/// the path, at any depth, the largest first.
pub open spec fn top_told(
    v: IndexView,
    age: u64,
    p: Seq<char>,
    limit: nat,
    dirs_only: bool,
    t: TreeView,
    r: Result<Json, Seq<char>>,
) -> bool {
    match browse::located(t, p) {
        None => r == Err::<Json, Seq<char>>(not_in_index(p, v.root)),
        Some(start) => {
            let all = browse::below(t.nodes, start, dirs_only);
            exists|sorted: Seq<usize>| #[trigger]
                order::sorted_desc(all, browse::node_sizes(t.nodes, all), sorted) && r == Ok::<
                    Json,
                    Seq<char>,
                >(top_json(v, age, p, t, start, sorted, limit))
        },
    }
}

/// The view of a reply, or of what is wrong.
pub open spec fn reply_view(r: Result<Value, String>) -> Result<Json, Seq<char>> {
    match r {
        Ok(v) => Ok(json::json(v)),
        Err(e) => Err(e@),
    }
}

/// The tree of an index.
fn tree_for(idx: &Index) -> (r: Tree)
    requires
        idx@.wf(),
    ensures
        index::is_tree_of(idx@, r@),
        r@.wf(),
{
    assert(index::parents_exist(idx@.dirs)) by {
        let g = index::dir_links(idx@.dirs);
        assert forall|i: int| 0 <= i < idx@.dirs.len() implies ((
        #[trigger] idx@.dirs[i]).parent matches Some(p) ==> p < idx@.dirs.len()) by {
            if let Some(p) = idx@.dirs[i].parent {
                assert(g.par[i] == Some(p as usize));
            }
        }
    }
    let tree = to_tree(idx);
    proof {
        assert(tree@.nodes.len() == tree.nodes@.len());
        assert(tree.nodes@.len() == tree.nodes.len());
        roundtrip::law_tree_of_index_is_wf(idx@, tree@);
    }
    tree
}

/// What `ds_top` answers: the largest entries anywhere below a path.
pub fn tool_top(idx: &Index, age: u64, p: &str, limit: usize, dirs_only: bool) -> (r: Result<
    Value,
    String,
>)
    requires
        idx@.wf(),
    ensures
        exists|t: TreeView| #[trigger]
            index::is_tree_of(idx@, t) && top_told(
                idx@,
                age,
                p@,
                limit as nat,
                dirs_only,
                t,
                reply_view(r),
            ),
{
    let tree = tree_for(idx);
    let ghost t = tree@;
    let start: usize = match node_at(&tree, p) {
        Some(i) => i,
        None => {
            let r: Result<Value, String> = Err(missing(p, idx.root.as_str()));
            assert(top_told(idx@, age, p@, limit as nat, dirs_only, t, reply_view(r)));
            return r;
        },
    };
    let all = entries_below(&tree, start, dirs_only);
    let sorted = largest_first(&tree, all);
    let n: usize = if sorted.len() < limit {
        sorted.len()
    } else {
        limit
    };
    let ghost want = Seq::new(n as nat, |i: int| top_row(t, sorted@[i] as int));
    let mut rows = Values::new();
    let mut i: usize = 0;
    while i < n
        invariant
            t == tree@,
            t.wf(),
            n <= sorted@.len(),
            forall|i: int| 0 <= i < sorted@.len() ==> #[trigger] sorted@[i] < tree.nodes@.len(),
            want == Seq::new(n as nat, |i: int| top_row(t, sorted@[i] as int)),
            i <= n,
            rows@ == want.take(i as int),
        decreases n - i,
    {
        assert(sorted@[i as int] < tree.nodes@.len());
        rows.push(top_row_value(&tree, sorted[i]));
        i += 1;
        assert(rows@ =~= want.take(i as int));
    }
    assert(want.take(i as int) =~= want);
    assert(t.nodes[start as int] == tree.nodes@[start as int]@);
    let size: u64 = tree.nodes[start].size;
    let mut o = Fields::new();
    o.put("index", freshness_of(idx, age));
    o.put_str("path", p);
    o.put_num("total_bytes", size);
    o.put_str("total_human", human(size).as_str());
    o.put("entries", rows.done());
    let r: Result<Value, String> = Ok(o.done());
    assert(reply_view(r) == Ok::<Json, Seq<char>>(
        top_json(idx@, age, p@, t, start as int, sorted@, limit as nat),
    ));
    assert(top_told(idx@, age, p@, limit as nat, dirs_only, t, reply_view(r)));
    r
}

// ---- ds_tree --------------------------------------------------------------------------

/// A child as `ds_tree` lists it. A stand-in for small files has no path.
pub open spec fn tree_row(t: TreeView, i: int) -> Json {
    let n = t.nodes[i];
    Json::Obj(
        map![
            "name"@ => Json::Str(n.name),
            "path"@ => if n.synthetic {
                Json::Null
            } else {
                Json::Str(scan::node_path(t, i))
            },
            "bytes"@ => Json::Int(n.size as int),
            "human"@ => Json::Str(util::human_size(n.size)),
            "is_dir"@ => Json::Bool(n.is_dir),
            "files"@ => Json::Int(n.file_count as int),
            "summary_row"@ => Json::Bool(n.synthetic),
        ],
    )
}

fn tree_row_value(tree: &Tree, i: usize) -> (r: Value)
    requires
        tree@.wf(),
        i < tree.nodes@.len(),
    ensures
        json::json(r) == tree_row(tree@, i as int),
{
    assert(tree@.nodes[i as int] == tree.nodes@[i as int]@);
    let n = &tree.nodes[i];
    let mut o = Fields::new();
    o.put_str("name", n.name.as_str());
    if n.synthetic {
        o.put("path", null());
    } else {
        o.put_str("path", tree.path(i).as_str());
    }
    o.put_num("bytes", n.size);
    o.put_str("human", human(n.size).as_str());
    o.put_bool("is_dir", n.is_dir);
    o.put_num("files", n.file_count);
    o.put_bool("summary_row", n.synthetic);
    o.done()
}

/// What `ds_tree` answers: the first `limit` children of a node.
pub open spec fn tree_json(
    v: IndexView,
    age: u64,
    p: Seq<char>,
    t: TreeView,
    start: int,
    limit: nat,
) -> Json {
    let kids = t.nodes[start].children;
    let n = cli::at_most(kids.len(), limit);
    Json::Obj(
        map![
            "index"@ => provenance(v, age),
            "path"@ => Json::Str(p),
            "total_bytes"@ => Json::Int(t.nodes[start].size as int),
            "total_human"@ => Json::Str(util::human_size(t.nodes[start].size)),
            "children"@ => Json::Int(kids.len() as int),
            "shown"@ => Json::Int(n as int),
            "entries"@ => Json::Arr(Seq::new(n, |i: int| tree_row(t, kids[i] as int))),
        ],
    )
}

/// Whether `r` is what `ds_tree` answers from the tree of an index.
pub open spec fn tree_told(
    v: IndexView,
    age: u64,
    p: Seq<char>,
    limit: nat,
    t: TreeView,
    r: Result<Json, Seq<char>>,
) -> bool {
    match browse::located(t, p) {
        None => r == Err::<Json, Seq<char>>(not_in_index(p, v.root)),
        Some(start) => r == Ok::<Json, Seq<char>>(tree_json(v, age, p, t, start, limit)),
    }
}

/// What `ds_tree` answers: the children of a path. They come largest first, as in
/// every tree that is made from an index.
pub fn tool_tree(idx: &Index, age: u64, p: &str, limit: usize) -> (r: Result<Value, String>)
    requires
        idx@.wf(),
    ensures
        exists|t: TreeView| #[trigger]
            index::is_tree_of(idx@, t) && tree_told(idx@, age, p@, limit as nat, t, reply_view(r)),
{
    let tree = tree_for(idx);
    let ghost t = tree@;
    let start: usize = match node_at(&tree, p) {
        Some(i) => i,
        None => {
            let r: Result<Value, String> = Err(missing(p, idx.root.as_str()));
            assert(tree_told(idx@, age, p@, limit as nat, t, reply_view(r)));
            return r;
        },
    };
    let node = &tree.nodes[start];
    let ghost kids = t.nodes[start as int].children;
    let ghost f = scan::links(t.nodes);
    assert(t.nodes[start as int] == node@);
    let n: usize = if node.children.len() < limit {
        node.children.len()
    } else {
        limit
    };
    let ghost want = Seq::new(n as nat, |i: int| tree_row(t, kids[i] as int));
    let mut rows = Values::new();
    let mut i: usize = 0;
    while i < n
        invariant
            t == tree@,
            t.wf(),
            f == scan::links(t.nodes),
            start < t.nodes.len(),
            kids == t.nodes[start as int].children,
            kids == node.children@,
            n <= kids.len(),
            want == Seq::new(n as nat, |i: int| tree_row(t, kids[i] as int)),
            i <= n,
            rows@ == want.take(i as int),
        decreases n - i,
    {
        let c: usize = node.children[i];
        assert(f.kids[start as int] == kids);
        assert(f.kids[start as int][i as int] < f.len());
        rows.push(tree_row_value(&tree, c));
        i += 1;
        assert(rows@ =~= want.take(i as int));
    }
    assert(want.take(i as int) =~= want);
    let mut o = Fields::new();
    o.put("index", freshness_of(idx, age));
    o.put_str("path", p);
    o.put_num("total_bytes", node.size);
    o.put_str("total_human", human(node.size).as_str());
    o.put_num("children", node.children.len() as u64);
    o.put_num("shown", n as u64);
    o.put("entries", rows.done());
    let r: Result<Value, String> = Ok(o.done());
    assert(tree_told(idx@, age, p@, limit as nat, t, reply_view(r)));
    r
}

// ---- ds_trash -------------------------------------------------------------------------

/// What a call of `ds_trash` asks for.
pub struct TrashCall {
    pub paths: Vec<String>,
    pub confirm: bool,
    pub allow_any: bool,
}

/// Whether `r` is what a call of `ds_trash` asks for: at least one path, each made
/// absolute. What is no text is passed over.
pub open spec fn trash_asked(
    args: Json,
    home: Option<Seq<char>>,
    cwd: Seq<char>,
    r: Result<TrashCall, String>,
) -> bool {
    match json::field(args, "paths"@) {
        Some(Json::Arr(raw)) => {
            let given = registration::texts_upto(raw, raw.len());
            if raw.len() == 0 {
                r matches Err(e) && e@ == "paths is empty"@
            } else if given.len() == 0 {
                r matches Err(e) && e@ == "paths contained no usable strings"@
            } else {
                r matches Ok(c) && c.confirm == bool_arg(args, "confirm"@) && c.allow_any
                    == bool_arg(args, "allow_any"@) && text::strs(c.paths@) == given.map_values(
                    |s: Seq<char>| resolved(s, home, cwd),
                )
            }
        },
        _ => r matches Err(e) && e@ == "paths is required and must be an array"@,
    }
}

/// What a call of `ds_trash` asks for, or what is wrong with it.
pub fn trash_call(args: &Value, home: Option<&str>, cwd: &str) -> (r: Result<TrashCall, String>)
    ensures
        trash_asked(json::json(*args), index::opt_str(home), cwd@, r),
{
    let raw = match member(args, "paths") {
        Some(v) => match v.as_array() {
            Some(a) => a,
            None => {
                return Err("paths is required and must be an array".to_owned());
            },
        },
        None => {
            return Err("paths is required and must be an array".to_owned());
        },
    };
    assert(json::jsons(raw@).len() == raw@.len());
    if raw.len() == 0 {
        return Err("paths is empty".to_owned());
    }
    let given = texts(raw);
    let ghost all = text::strs(given@);
    let ghost (h, c) = (index::opt_str(home), cwd@);
    let ghost want = all.map_values(|s: Seq<char>| resolved(s, h, c));
    assert(all.len() == given@.len());
    if given.len() == 0 {
        return Err("paths contained no usable strings".to_owned());
    }
    let mut paths: Vec<String> = Vec::new();
    let mut i: usize = 0;
    while i < given.len()
        invariant
            all == text::strs(given@),
            h == index::opt_str(home),
            c == cwd@,
            want == all.map_values(|s: Seq<char>| resolved(s, h, c)),
            i <= given@.len(),
            text::strs(paths@) == want.take(i as int),
        decreases given@.len() - i,
    {
        let p = resolve_arg_path(given[i].as_str(), home, cwd);
        assert(want[i as int] == p@);
        let ghost before = paths@;
        paths.push(p);
        assert(text::strs(paths@) =~= text::strs(before).push(p@));
        i += 1;
        assert(text::strs(paths@) =~= want.take(i as int));
    }
    assert(want.take(i as int) =~= want);
    Ok(
        TrashCall {
            paths,
            confirm: arg_bool(args, "confirm"),
            allow_any: arg_bool(args, "allow_any"),
        },
    )
}

/// A refused target.
pub open spec fn rejected_json(r: (Seq<char>, Seq<char>)) -> Json {
    Json::Obj(map!["path"@ => Json::Str(r.0), "reason"@ => Json::Str(r.1)])
}

fn rejected_value(plan: &Plan) -> (r: Value)
    ensures
        json::json(r) == Json::Arr(
            cleanup::rejected_view(plan.rejected@).map_values(
                |x: (Seq<char>, Seq<char>)| rejected_json(x),
            ),
        ),
{
    let ghost all = cleanup::rejected_view(plan.rejected@);
    let ghost want = all.map_values(|x: (Seq<char>, Seq<char>)| rejected_json(x));
    let mut rows = Values::new();
    let mut i: usize = 0;
    while i < plan.rejected.len()
        invariant
            all == cleanup::rejected_view(plan.rejected@),
            want == all.map_values(|x: (Seq<char>, Seq<char>)| rejected_json(x)),
            i <= all.len(),
            rows@ == want.take(i as int),
        decreases all.len() - i,
    {
        let x = &plan.rejected[i];
        assert(all[i as int] == (x.path@, x.reason@));
        let mut o = Fields::new();
        o.put_str("path", x.path.as_str());
        o.put_str("reason", x.reason.as_str());
        rows.push(o.done());
        i += 1;
        assert(rows@ =~= want.take(i as int));
    }
    assert(want.take(i as int) =~= want);
    rows.done()
}

/// What to do with a plan.
pub const PREVIEW_NEXT: &'static str = "Nothing was deleted. Show this plan to the user, and call again with \
confirm=true once they agree.";

/// What became of a plan, in words.
pub const TRASHED_NOTE: &'static str = "Items were moved to the macOS Trash and can be restored from there. \
The index is now out of date — call ds_scan to refresh it.";

/// What `ds_trash` answers to a call that is not confirmed.
pub open spec fn planned_json(
    root: Seq<char>,
    items: Seq<ItemView>,
    rejected: Seq<(Seq<char>, Seq<char>)>,
) -> Json {
    let n = util::sum64(cleanup::item_bytes(items));
    Json::Obj(
        map![
            "confirmed"@ => Json::Bool(false),
            "root"@ => Json::Str(root),
            "would_trash"@ => Json::Arr(items.map_values(|i: ItemView| report::item_json(i))),
            "would_free_bytes"@ => Json::Int(n as int),
            "would_free_human"@ => Json::Str(util::human_size(n)),
            "rejected"@ => Json::Arr(
                rejected.map_values(|x: (Seq<char>, Seq<char>)| rejected_json(x)),
            ),
            "next_step"@ => Json::Str(PREVIEW_NEXT@),
        ],
    )
}

fn planned(root: &str, plan: &Plan) -> (r: Value)
    ensures
        json::json(r) == planned_json(
            root@,
            cleanup::items_view(plan.items@),
            cleanup::rejected_view(plan.rejected@),
        ),
{
    let n: u64 = plan.total_bytes();
    let mut o = Fields::new();
    o.put_bool("confirmed", false);
    o.put_str("root", root);
    o.put("would_trash", items_value(&plan.items));
    o.put_num("would_free_bytes", n);
    o.put_str("would_free_human", human(n).as_str());
    o.put("rejected", rejected_value(plan));
    o.put_str("next_step", PREVIEW_NEXT);
    o.done()
}

/// What to do with the plan of a call.
pub enum TrashStep {
    /// Nothing: this is the answer.
    Answer(Value),
    /// Carry it out.
    Execute,
}

/// What to do with the plan of a call: it is carried out only where the call is
/// confirmed.
pub fn trash_step(call: &TrashCall, root: &str, plan: &Plan) -> (r: TrashStep)
    ensures
        r is Execute <==> call.confirm,
        !call.confirm ==> (r matches TrashStep::Answer(v) && json::json(v) == planned_json(
            root@,
            cleanup::items_view(plan.items@),
            cleanup::rejected_view(plan.rejected@),
        )),
{
    if call.confirm {
        TrashStep::Execute
    } else {
        TrashStep::Answer(planned(root, plan))
    }
}

/// What became of one item.
pub open spec fn result_json(o: OutcomeView) -> Json {
    Json::Obj(
        map![
            "path"@ => Json::Str(o.path),
            "trashed"@ => Json::Bool(o.trashed),
            "bytes"@ => Json::Int(o.bytes as int),
            "human"@ => Json::Str(util::human_size(o.bytes)),
            "error"@ => json::text_or_null(o.error),
        ],
    )
}

fn result_value(x: &Outcome) -> (r: Value)
    ensures
        json::json(r) == result_json(x@),
{
    let mut o = Fields::new();
    o.put_str("path", x.path.as_str());
    o.put_bool("trashed", x.trashed);
    o.put_num("bytes", x.bytes);
    o.put_str("human", human(x.bytes).as_str());
    o.put("error", optional(&x.error));
    o.done()
}

/// What `ds_trash` answers once a plan was carried out.
pub open spec fn carried_out_json(
    root: Seq<char>,
    os: Seq<OutcomeView>,
    rejected: Seq<(Seq<char>, Seq<char>)>,
) -> Json {
    Json::Obj(
        map![
            "confirmed"@ => Json::Bool(true),
            "root"@ => Json::Str(root),
            "trashed_count"@ => Json::Int(report::trashed_count(os) as int),
            "freed_bytes"@ => Json::Int(report::freed_bytes(os) as int),
            "freed_human"@ => Json::Str(util::human_size(report::freed_bytes(os))),
            "results"@ => Json::Arr(os.map_values(|o: OutcomeView| result_json(o))),
            "rejected"@ => Json::Arr(
                rejected.map_values(|x: (Seq<char>, Seq<char>)| rejected_json(x)),
            ),
            "note"@ => Json::Str(TRASHED_NOTE@),
        ],
    )
}

/// What `ds_trash` answers once a plan was carried out.
pub fn carried_out(root: &str, plan: &Plan, os: &Vec<Outcome>) -> (r: Value)
    ensures
        json::json(r) == carried_out_json(
            root@,
            report::outcomes_view(os@),
            cleanup::rejected_view(plan.rejected@),
        ),
{
    let ghost all = report::outcomes_view(os@);
    let ghost want = all.map_values(|o: OutcomeView| result_json(o));
    let (count, bytes) = freed(os);
    let mut rows = Values::new();
    let mut i: usize = 0;
    while i < os.len()
        invariant
            all == report::outcomes_view(os@),
            want == all.map_values(|o: OutcomeView| result_json(o)),
            i <= os@.len(),
            rows@ == want.take(i as int),
        decreases os@.len() - i,
    {
        assert(all[i as int] == os@[i as int]@);
        rows.push(result_value(&os[i]));
        i += 1;
        assert(rows@ =~= want.take(i as int));
    }
    assert(want.take(i as int) =~= want);
    let mut o = Fields::new();
    o.put_bool("confirmed", true);
    o.put_str("root", root);
    o.put_num("trashed_count", count as u64);
    o.put_num("freed_bytes", bytes);
    o.put_str("freed_human", human(bytes).as_str());
    o.put("results", rows.done());
    o.put("rejected", rejected_value(plan));
    o.put_str("note", TRASHED_NOTE);
    o.done()
}

/// A plan that is not carried out never claims that something was deleted: it says
/// that it was not confirmed, and tells no result and nothing freed.
pub proof fn law_preview_claims_nothing(
    root: Seq<char>,
    items: Seq<ItemView>,
    rejected: Seq<(Seq<char>, Seq<char>)>,
)
    ensures
        ({
            let j = planned_json(root, items, rejected);
            &&& json::field(j, "confirmed"@) == Some(Json::Bool(false))
            &&& json::field(j, "results"@) is None
            &&& json::field(j, "freed_bytes"@) is None
            &&& json::field(j, "trashed_count"@) is None
        }),
{
    reveal_strlit("confirmed");
    reveal_strlit("root");
    reveal_strlit("would_trash");
    reveal_strlit("would_free_bytes");
    reveal_strlit("would_free_human");
    reveal_strlit("rejected");
    reveal_strlit("next_step");
    reveal_strlit("results");
    reveal_strlit("freed_bytes");
    reveal_strlit("trashed_count");
    assert("confirmed"@[0] == 'c');
    assert("root"@.len() == 4);
    assert("would_trash"@[0] == 'w');
    assert("would_free_bytes"@[0] == 'w');
    assert("would_free_human"@[0] == 'w');
    assert("rejected"@.len() == 8);
    assert("next_step"@[0] == 'n');
    assert("results"@.len() == 7);
    assert("results"@[0] == 'r');
    assert("freed_bytes"@[0] == 'f');
    assert("trashed_count"@[0] == 't');
}

/// Every read says where its numbers come from: when the index was made, how old it
/// is and how it was made.
pub proof fn law_reads_tell_their_age(v: IndexView, age: u64)
    ensures
        json::field(provenance(v, age), "scanned_at"@) == Some(Json::Int(v.scanned_at as int)),
        json::field(provenance(v, age), "age_seconds"@) == Some(Json::Int(age as int)),
        json::field(provenance(v, age), "mode"@) == Some(Json::Str(index::mode_str(v.mode))),
        json::field(provenance(v, age), "stale"@) == Some(
            Json::Bool(age > engine::MAX_INCREMENTAL_AGE),
        ),
{
    reveal_strlit("root");
    reveal_strlit("scanned_at");
    reveal_strlit("age_seconds");
    reveal_strlit("age_human");
    reveal_strlit("mode");
    reveal_strlit("stale");
    assert("root"@[0] == 'r');
    assert("scanned_at"@.len() == 10);
    assert("age_seconds"@.len() == 11);
    assert("age_human"@.len() == 9);
    assert("mode"@[0] == 'm');
    assert("stale"@.len() == 5);
}

/// The tools that read an index say so with every answer.
pub proof fn law_reads_carry_provenance(
    v: IndexView,
    age: u64,
    ls: Seq<ListedView>,
    p: Seq<char>,
    t: TreeView,
    start: int,
    sorted: Seq<usize>,
    limit: nat,
)
    ensures
        json::field(caches_reply_json(v, age, ls, limit), "index"@) == Some(provenance(v, age)),
        json::field(top_json(v, age, p, t, start, sorted, limit), "index"@) == Some(
            provenance(v, age),
        ),
        json::field(tree_json(v, age, p, t, start, limit), "index"@) == Some(provenance(v, age)),
{
    reveal_strlit("index");
    reveal_strlit("reclaimable_bytes");
    reveal_strlit("reclaimable_human");
    reveal_strlit("apparent_bytes");
    reveal_strlit("apparent_human");
    reveal_strlit("size_note");
    reveal_strlit("matches");
    reveal_strlit("shown");
    reveal_strlit("caches");
    reveal_strlit("next_step");
    reveal_strlit("path");
    reveal_strlit("total_bytes");
    reveal_strlit("total_human");
    reveal_strlit("entries");
    reveal_strlit("children");
    assert("index"@[0] == 'i');
    assert("reclaimable_bytes"@[0] == 'r' && "reclaimable_human"@[0] == 'r');
    assert("apparent_bytes"@[0] == 'a' && "apparent_human"@[0] == 'a');
    assert("size_note"@[0] == 's' && "matches"@[0] == 'm' && "shown"@[0] == 's');
    assert("caches"@[0] == 'c' && "next_step"@[0] == 'n' && "path"@[0] == 'p');
    assert("total_bytes"@[0] == 't' && "total_human"@[0] == 't');
    assert("entries"@[0] == 'e' && "children"@[0] == 'c');
}

} // verus!
