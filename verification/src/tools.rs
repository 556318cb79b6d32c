//! What the MCP server says of its tools.

use serde_json::Value;
use vstd::prelude::*;

use crate::json;
use crate::json::{Fields, Json, Values};

verus! {

/// A property of the given type.
pub open spec fn prop_json(kind: Seq<char>, desc: Seq<char>) -> Json {
    Json::Obj(map!["type"@ => Json::Str(kind), "description"@ => Json::Str(desc)])
}

/// A property of type string.
pub open spec fn path_json(desc: Seq<char>) -> Json {
    prop_json("string"@, desc)
}

/// The schema of arguments with the given properties, of which one is required.
pub open spec fn schema_json(props: Map<Seq<char>, Json>, required: Seq<char>) -> Json {
    Json::Obj(
        map![
            "type"@ => Json::Str("object"@),
            "properties"@ => Json::Obj(props),
            "required"@ => Json::Arr(Seq::empty().push(Json::Str(required))),
        ],
    )
}

/// A tool with its name, description and schema.
pub open spec fn tool_json(name: Seq<char>, desc: Seq<char>, schema: Json) -> Json {
    Json::Obj(
        map![
            "name"@ => Json::Str(name),
            "description"@ => Json::Str(desc),
            "inputSchema"@ => schema,
        ],
    )
}

/// Where a read may look.
pub const INDEXED_PATH: &'static str = "Absolute path, either an indexed root or anything inside one.";

/// How many rows a listing has.
pub const ROWS: &'static str = "Max rows (default 30, max 500).";

/// What `ds_status` is for.
pub const STATUS: &'static str = "List every folder DiskScour has indexed, with its total size, \
reclaimable dev-cache size, when it was last scanned and how. \
Start here to find out what is already known without scanning.";

/// What `ds_scan` is for.
pub const SCAN: &'static str = "Scan a folder and update its index. Reuses the previous scan where \
it can (FSEvents tells it what changed), so a repeat scan is fast. \
Pass mode='full' to re-stat everything, which is the way to correct \
sizes of files that grew in place. This is the only tool that touches \
the whole filesystem; the read tools are served from the index. \
The whole disk ('/') works. A scan runs in the background: when it \
outlasts wait_seconds the result has status 'running' with progress \
so far, and calling again with the same path keeps waiting for it.";

/// What `ds_caches` is for.
pub const CACHES: &'static str = "List regenerable developer caches (node_modules, target, .next, \
DerivedData, Pods, .venv, …) under an indexed folder, biggest first. \
Each entry is confirmed against the filesystem, so anything already \
deleted is left out. These are the paths ds_trash accepts by default.";

/// What `ds_top` is for.
pub const TOP: &'static str = "Largest entries anywhere under a path, biggest first — the fastest \
way to answer 'what is eating my disk'. Unlike ds_tree this looks \
through the whole subtree, not just one level.";

/// What `ds_tree` is for.
pub const TREE: &'static str = "Immediate children of a path with their sizes, biggest first — use \
it to drill down one level at a time. Files smaller than 1 MB are \
summarised as a single '(N small files)' row rather than listed.";

/// What `ds_trash` is for.
pub const TRASH: &'static str = "Move paths to the macOS Trash (recoverable — never a hard delete). \
Returns a plan and deletes NOTHING unless confirm=true, so call it \
once to see what would go, then again to do it. By default only \
recognised regenerable caches are accepted; every target is \
re-checked against the filesystem at the moment of deletion.";

/// The modes of a scan, as a property.
pub open spec fn mode_prop() -> Json {
    Json::Obj(
        map![
            "type"@ => Json::Str("string"@),
            "enum"@ => Json::Arr(
                Seq::empty().push(Json::Str("auto"@)).push(Json::Str("full"@)),
            ),
            "description"@ => Json::Str(
                "auto (default) reuses the cached index; full rescans everything."@,
            ),
        ],
    )
}

/// The paths to trash, as a property.
pub open spec fn paths_prop() -> Json {
    Json::Obj(
        map![
            "type"@ => Json::Str("array"@),
            "items"@ => Json::Obj(map!["type"@ => Json::Str("string"@)]),
            "description"@ => Json::Str(
                "Absolute paths to trash. All must sit inside one indexed root."@,
            ),
        ],
    )
}

/// The tool that lists what is indexed.
pub open spec fn status_tool() -> Json {
    tool_json(
        "ds_status"@,
        STATUS@,
        Json::Obj(map!["type"@ => Json::Str("object"@), "properties"@ => Json::Obj(map![])]),
    )
}

/// The tool that scans.
pub open spec fn scan_tool() -> Json {
    tool_json(
        "ds_scan"@,
        SCAN@,
        schema_json(
            map![
                "path"@ => path_json("Absolute path of the folder to scan."@),
                "mode"@ => mode_prop(),
                "wait_seconds"@ => prop_json(
                    "integer"@,
                    "How long to wait for the scan before answering with progress (default 20, max 55)."@,
                ),
            ],
            "path"@,
        ),
    )
}

/// The tool that lists caches.
pub open spec fn caches_tool() -> Json {
    tool_json(
        "ds_caches"@,
        CACHES@,
        schema_json(
            map![
                "path"@ => path_json(INDEXED_PATH@),
                "category"@ => path_json(
                    "Filter by ecosystem, e.g. 'rust', 'js', 'python', 'apple'."@,
                ),
                "min_bytes"@ => prop_json("integer"@, "Only entries at least this large."@),
                "limit"@ => prop_json("integer"@, ROWS@),
            ],
            "path"@,
        ),
    )
}

/// The tool that lists the largest entries.
pub open spec fn top_tool() -> Json {
    tool_json(
        "ds_top"@,
        TOP@,
        schema_json(
            map![
                "path"@ => path_json(INDEXED_PATH@),
                "limit"@ => prop_json("integer"@, ROWS@),
                "dirs_only"@ => prop_json("boolean"@, "Skip individual files (default false)."@),
            ],
            "path"@,
        ),
    )
}

/// The tool that lists the children of a folder.
pub open spec fn tree_tool() -> Json {
    tool_json(
        "ds_tree"@,
        TREE@,
        schema_json(
            map!["path"@ => path_json(INDEXED_PATH@), "limit"@ => prop_json("integer"@, ROWS@)],
            "path"@,
        ),
    )
}

/// The tool that trashes.
pub open spec fn trash_tool() -> Json {
    tool_json(
        "ds_trash"@,
        TRASH@,
        schema_json(
            map![
                "paths"@ => paths_prop(),
                "confirm"@ => prop_json(
                    "boolean"@,
                    "false (default) previews only. Set true to actually trash."@,
                ),
                "allow_any"@ => prop_json("boolean"@, ALLOW_ANY@),
            ],
            "paths"@,
        ),
    )
}

/// When `allow_any` may be set.
pub const ALLOW_ANY: &'static str = "Permit paths that are NOT recognised caches. Only set this \
when the user has specifically asked for that path by name — \
it removes the check that keeps real work from being deleted.";

/// The tools, in the order in which they are listed.
pub open spec fn definitions() -> Seq<Json> {
    Seq::empty().push(status_tool()).push(scan_tool()).push(caches_tool()).push(top_tool()).push(
        tree_tool(),
    ).push(trash_tool())
}

fn path_prop(desc: &str) -> (r: Value)
    ensures
        json::json(r) == path_json(desc@),
{
    prop("string", desc)
}

fn prop(kind: &str, desc: &str) -> (r: Value)
    ensures
        json::json(r) == prop_json(kind@, desc@),
{
    let mut o = Fields::new();
    o.put_str("type", kind);
    o.put_str("description", desc);
    o.done()
}

fn schema(props: Fields, required: &str) -> (r: Value)
    ensures
        json::json(r) == schema_json(props@, required@),
{
    let mut names = Values::new();
    names.push(json::string(required));
    let mut o = Fields::new();
    o.put_str("type", "object");
    o.put("properties", props.done());
    o.put("required", names.done());
    o.done()
}

fn tool(name: &str, desc: &str, schema: Value) -> (r: Value)
    ensures
        json::json(r) == tool_json(name@, desc@, json::json(schema)),
{
    let mut o = Fields::new();
    o.put_str("name", name);
    o.put_str("description", desc);
    o.put("inputSchema", schema);
    o.done()
}

fn define_status() -> (r: Value)
    ensures
        json::json(r) == status_tool(),
{
    let mut o = Fields::new();
    o.put_str("type", "object");
    o.put("properties", Fields::new().done());
    tool("ds_status", STATUS, o.done())
}

fn define_scan() -> (r: Value)
    ensures
        json::json(r) == scan_tool(),
{
    let mut modes = Values::new();
    modes.push(json::string("auto"));
    modes.push(json::string("full"));
    let mut mode = Fields::new();
    mode.put_str("type", "string");
    mode.put("enum", modes.done());
    mode.put_str("description", "auto (default) reuses the cached index; full rescans everything.");
    let mut props = Fields::new();
    props.put("path", path_prop("Absolute path of the folder to scan."));
    props.put("mode", mode.done());
    props.put(
        "wait_seconds",
        prop(
            "integer",
            "How long to wait for the scan before answering with progress (default 20, max 55).",
        ),
    );
    tool("ds_scan", SCAN, schema(props, "path"))
}

fn define_caches() -> (r: Value)
    ensures
        json::json(r) == caches_tool(),
{
    let mut props = Fields::new();
    props.put("path", path_prop(INDEXED_PATH));
    props.put("category", path_prop("Filter by ecosystem, e.g. 'rust', 'js', 'python', 'apple'."));
    props.put("min_bytes", prop("integer", "Only entries at least this large."));
    props.put("limit", prop("integer", ROWS));
    tool("ds_caches", CACHES, schema(props, "path"))
}

fn define_top() -> (r: Value)
    ensures
        json::json(r) == top_tool(),
{
    let mut props = Fields::new();
    props.put("path", path_prop(INDEXED_PATH));
    props.put("limit", prop("integer", ROWS));
    props.put("dirs_only", prop("boolean", "Skip individual files (default false)."));
    tool("ds_top", TOP, schema(props, "path"))
}

fn define_tree() -> (r: Value)
    ensures
        json::json(r) == tree_tool(),
{
    let mut props = Fields::new();
    props.put("path", path_prop(INDEXED_PATH));
    props.put("limit", prop("integer", ROWS));
    tool("ds_tree", TREE, schema(props, "path"))
}

fn define_trash() -> (r: Value)
    ensures
        json::json(r) == trash_tool(),
{
    let mut items = Fields::new();
    items.put_str("type", "string");
    let mut paths = Fields::new();
    paths.put_str("type", "array");
    paths.put("items", items.done());
    paths.put_str("description", "Absolute paths to trash. All must sit inside one indexed root.");
    let mut props = Fields::new();
    props.put("paths", paths.done());
    props.put(
        "confirm",
        prop("boolean", "false (default) previews only. Set true to actually trash."),
    );
    props.put("allow_any", prop("boolean", ALLOW_ANY));
    tool("ds_trash", TRASH, schema(props, "paths"))
}

/// The tools, in the order in which they are listed.
pub fn tool_definitions() -> (r: Vec<Value>)
    ensures
        json::jsons(r@) == definitions(),
{
    let mut v: Vec<Value> = Vec::new();
    v.push(define_status());
    v.push(define_scan());
    v.push(define_caches());
    v.push(define_top());
    v.push(define_tree());
    v.push(define_trash());
    assert(json::jsons(v@) =~= definitions());
    v
}

} // verus!
