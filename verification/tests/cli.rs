//! The headless commands.

use diskscour::caches::{Category, IndexHit};
use diskscour::cleanup::{Item, Outcome, Plan, Rejected};
use diskscour::cli::{
    caches_text, caches_value, emit, exit, expand, freshness, mcp_text, nothing_left, parse,
    path_arg, preview_text, preview_value, require_index, root_row, root_value, run, scan_text,
    scan_value, skipped_text, status_text, status_value, trash_paths, trash_result, trashed_text,
    trashed_value, Args, Task, USAGE,
};
use diskscour::engine::{conclude, Freshness, Strategy};
use diskscour::index::{to_tree, DirRec, Index, Mode};
use diskscour::live::Refs;
use diskscour::registration::{Agent, Health, Registration, Session, Status, VERSION};
use diskscour::report::{apparent, held, known_size, listed, matching, reclaimable, Listed};
use serde_json::Value;

fn strings(v: &[&str]) -> Vec<String> {
    v.iter().map(|s| s.to_string()).collect()
}

fn args(v: &[&str]) -> Args {
    match parse(&strings(v)) {
        Ok(a) => a,
        Err(e) => panic!("{e}"),
    }
}

fn complaint(v: &[&str]) -> String {
    match parse(&strings(v)) {
        Err(e) => e,
        Ok(_) => panic!("accepted"),
    }
}

#[test]
fn flags_and_positionals_separate() {
    let a = args(&["/tmp/x", "--json", "--min", "1024", "/tmp/y"]);
    assert_eq!(a.positional, vec!["/tmp/x", "/tmp/y"]);
    assert!(a.json);
    assert_eq!(a.min, 1024);
    assert!(!a.full && !a.yes && !a.allow_any);
    let a = args(&["--full", "-y", "--allow-any", ""]);
    assert!(a.full && a.yes && a.allow_any && !a.json);
    assert_eq!(a.positional, vec![""]);
    assert!(args(&["--yes"]).yes);
}

#[test]
fn unknown_flags_are_an_error_not_a_path() {
    assert!(parse(&strings(&["--nope"])).is_err());
    assert!(parse(&strings(&["--min"])).is_err());
    assert!(parse(&strings(&["--min", "abc"])).is_err());
    assert_eq!(complaint(&["--nope"]), "unknown flag: --nope");
    assert_eq!(complaint(&["--min"]), "--min needs a value");
    assert_eq!(complaint(&["--min", "abc"]), "--min: not a number: abc");
    assert_eq!(complaint(&["--min", "18446744073709551616"]), "--min: not a number: 18446744073709551616");
}

#[test]
fn tilde_and_relative_paths_become_absolute() {
    let home = "/Users/me";
    assert_eq!(expand("~", Some(home), "/w"), home);
    assert_eq!(expand("~/x", Some(home), "/w"), "/Users/me/x");
    assert_eq!(expand("relative", Some(home), "/w"), "/w/relative");
    assert_eq!(expand("/abs", Some(home), "/w"), "/abs");
    assert_eq!(expand("~", None, "/w"), "");
    assert_eq!(expand("~/x", None, "/w"), "/w/~/x");
    let a = args(&["~/x"]);
    assert_eq!(path_arg(&a, "scan", Some(home), "/w"), Ok("/Users/me/x".to_string()));
    assert_eq!(
        path_arg(&args(&[]), "scan", Some(home), "/w"),
        Err("scan needs a path".to_string())
    );
    assert_eq!(trash_paths(&args(&["a", "/b"]), None, "/w"), Ok(strings(&["/w/a", "/b"])));
    assert_eq!(
        trash_paths(&args(&[]), None, "/w"),
        Err("trash needs at least one path".to_string())
    );
}

#[test]
fn command_lines_become_tasks() {
    assert!(matches!(run("scan", &strings(&["/x"])), Task::Scan(a) if a.positional == ["/x"]));
    assert!(matches!(run("caches", &vec![]), Task::Caches(_)));
    assert!(matches!(run("status", &vec![]), Task::Status(_)));
    assert!(matches!(run("trash", &vec![]), Task::Trash(_)));
    match run("dance", &vec![]) {
        Task::Fail(code, say) => {
            assert_eq!(code, 1);
            assert_eq!(say, "diskscour: unknown command: dance\n");
        }
        _ => panic!("accepted"),
    }
    match run("dance", &strings(&["--nope"])) {
        Task::Fail(code, say) => {
            assert_eq!(code, 2);
            assert_eq!(say, format!("diskscour: unknown flag: --nope\n\n{USAGE}\n"));
        }
        _ => panic!("accepted"),
    }
    assert_eq!(exit(Ok(())), (0, None));
    assert_eq!(exit(Err("x".into())), (1, Some("diskscour: x\n".to_string())));
}

fn sample() -> Index {
    let rec = |parent: Option<u32>, name: &str, bytes: u64| DirRec {
        parent,
        name: name.into(),
        mtime_ns: 0,
        own_bytes: 0,
        own_files: 0,
        own_private: 0,
        subtree_bytes: bytes,
        subtree_files: 7,
        subtree_private: bytes / 4,
        large: vec![],
        large_private: vec![],
    };
    Index {
        root: "/r".into(),
        scanned_at: 1000,
        mode: Mode::Full,
        device_id: 1,
        last_event_id: 2,
        threshold: 100,
        root_ix: 0,
        dirs: vec![rec(None, "r", 5 << 20), rec(Some(0), "p", 3 << 20)],
    }
}

fn hit(path: &str, private: u64, size: u64, category: Category) -> IndexHit {
    IndexHit {
        path: path.into(),
        private,
        size,
        files: 2,
        category,
        note: "rebuilt on demand",
    }
}

fn hits() -> Vec<IndexHit> {
    vec![
        hit("/r/p/node_modules", 1024, 4096, Category::JsTs),
        hit("/r/q/target", 2048, 2048, Category::Rust),
        hit("/r/q2/target", 512, 512, Category::Rust),
    ]
}

fn found() -> Vec<Listed> {
    let refs = Refs::collect(&strings(&["/real/target/debug/x"]), &vec![]);
    let resolved = vec![None, Some("/real/target".to_string()), None];
    listed(&refs, &hits(), &resolved)
}

#[test]
fn what_is_in_use_is_not_reclaimable() {
    let ls = found();
    assert_eq!(
        ls[1].in_use.as_deref(),
        Some("/real/target/debug/x — a process is running from it")
    );
    assert_eq!(ls[0].in_use, None);
    assert_eq!(reclaimable(&ls), 1536);
    assert_eq!(held(&ls), 2048);
    assert_eq!(apparent(&ls), 6656);
}

#[test]
fn hits_are_chosen_by_place_size_and_category() {
    let all = hits();
    assert_eq!(matching(&all, "/r", 0, None).len(), 3);
    assert_eq!(matching(&all, "/r/q", 0, None).len(), 1);
    assert_eq!(matching(&all, "/r/q/target/debug", 0, None).len(), 1);
    assert_eq!(matching(&all, "/r", 1024, None).len(), 2);
    assert_eq!(matching(&all, "/r", 0, Some("rust")).len(), 2);
    assert_eq!(matching(&all, "/elsewhere", 0, None).len(), 0);
    assert_eq!(known_size(&all, "/r/q/target/"), Some(2048));
    assert_eq!(known_size(&all, "/r/q"), None);
}

#[test]
fn a_scan_is_reported() {
    let idx = sample();
    let tree = to_tree(&idx);
    let mut r = conclude(tree, &Strategy::Full("no cached index".into()), 5, 1);
    assert_eq!(r.mode, Mode::Full);
    assert!(!r.saved);
    r.saved = true;
    let seconds: Value = serde_json::from_str("0.25").unwrap();
    let v = scan_value("/r", &r, &seconds, &found());
    assert_eq!(v["total_bytes"], 5 << 20);
    assert_eq!(v["total_human"], "5.0 MB");
    assert_eq!(v["files"], 7);
    assert_eq!(v["reclaimable_bytes"], 1536);
    assert_eq!(v["in_use_bytes"], 2048);
    assert_eq!(v["apparent_human"], "6.5 KB");
    assert_eq!(v["cache_dirs"], 3);
    assert_eq!(v["seconds"], 0.25);
    assert_eq!(v["mode"], "full");
    assert_eq!(v["why"], "no cached index");
    assert_eq!(v["changed_dirs"], 0);
    assert_eq!(v["index_saved"], true);
    assert_eq!(v["largest"][0]["shared"], true);
    assert_eq!(v["largest"][1]["in_use"], "/real/target/debug/x — a process is running from it");
    let t = scan_text("/r", &r, "0.25", &found());
    assert_eq!(
        t,
        "\n/r\n  5.0 MB across 7 files in 0.25s  [full: no cached index]\n\n\
         Dev caches: 1.5 KB reclaimable across 3 dirs  (6.5 KB apparent, 2.0 KB in use)\n\
         \u{20}     2.0 KB  [Rust] q/target  ⚠ IN USE: /real/target/debug/x — a process is running from it\n\
         \u{20}     1.0 KB  [JavaScript / TypeScript] p/node_modules (looks like 4.0 KB, mostly shared)\n\
         \u{20}      512 B  [Rust] q2/target\n"
    );
}

#[test]
fn caches_are_listed() {
    let idx = sample();
    let v = caches_value(&idx, 9, &found());
    assert_eq!(v["root"], "/r");
    assert_eq!(v["age_seconds"], 9);
    assert_eq!(v["caches"][2]["note"], "rebuilt on demand");
    assert_eq!(v["caches"][0]["in_use"], Value::Null);
    let t = caches_text("/r", &found());
    assert!(t.starts_with("1.5 KB reclaimable across 3 dirs under /r  (6.5 KB apparent)\n"));
    assert!(t.ends_with("       512 B  [Rust] /r/q2/target\n"));
    assert_eq!(emit(false, &v, "text".into()), "text");
    let j = emit(true, &v, "text".into());
    assert!(j.ends_with("}\n") && j.contains("\n  \"age_seconds\": 9,\n"));
    assert!(require_index(Some(sample()), "/r").is_ok());
    assert_eq!(
        require_index(None, "/r").err().unwrap(),
        "no index covers /r — run `diskscour scan /r` first"
    );
}

fn status() -> Status {
    Status {
        this_binary: "/x/diskscour".into(),
        this_version: VERSION,
        agent: Agent { label: "Some Agent".into(), command: "agent".into() },
        registrations: vec![],
        sessions: vec![],
    }
}

#[test]
fn the_status_is_printed() {
    let idx = sample();
    let v = root_value(&idx, 3, &found());
    assert_eq!(v["reclaimable_human"], "1.5 KB");
    assert_eq!(v["unshared_bytes"], (5 << 20) / 4);
    let row = root_row(&idx, &found());
    assert_eq!(row, "    5.0 MB      1.5 KB reclaimable    full  /r\n");
    let whole = status_value(vec![v], &status());
    assert_eq!(whole["indexed_roots"][0]["root"], "/r");
    assert_eq!(whole["mcp"]["transport"], "stdio");
    assert_eq!(
        status_text(&vec![row.clone()], &status()),
        format!("{row}\n{}", mcp_text(&status()))
    );
    assert_eq!(
        status_text(&vec![], &status()),
        format!("Nothing indexed yet. Try `diskscour scan ~`.\n\n{}", mcp_text(&status()))
    );
}

#[test]
fn the_mcp_block_names_registrations_and_sessions() {
    let mut st = status();
    assert_eq!(
        mcp_text(&st),
        "MCP server  stdio · v0.5.0 · /x/diskscour\n\
         \u{20} not registered with Some Agent. To add it:\n\
         \u{20}   agent mcp add diskscour -- /x/diskscour mcp\n\
         \u{20} sessions    none connected\n"
    );
    st.registrations.push(Registration {
        client: "Some Agent".into(),
        scope: "user".into(),
        name: "diskscour".into(),
        command: "/x/diskscour".into(),
        args: strings(&["mcp", "-v"]),
        health: Health::Missing,
    });
    st.sessions.push(Session { pid: 4, client: "agent".into() });
    assert_eq!(
        mcp_text(&st),
        "MCP server  stdio · v0.5.0 · /x/diskscour\n\
         \u{20} registered  Some Agent · user · /x/diskscour mcp -v  [binary not found]\n\
         \u{20} to re-register this build:\n\
         \u{20}   agent mcp remove diskscour && agent mcp add diskscour -- /x/diskscour mcp\n\
         \u{20} sessions    1 connected · agent ×1\n"
    );
}

#[test]
fn a_plan_is_previewed() {
    let plan = Plan {
        items: vec![Item {
            path: "/r/p/node_modules".into(),
            bytes: 3072,
            category: Some(Category::JsTs),
            note: Some("n"),
        }],
        rejected: vec![Rejected { path: "/etc".into(), reason: "no".into() }],
    };
    assert_eq!(skipped_text(&plan), "  skipped  /etc  (no)\n");
    assert_eq!(nothing_left(&plan), None);
    assert_eq!(
        nothing_left(&Plan { items: vec![], rejected: vec![] }),
        Some("nothing to trash".to_string())
    );
    let v = preview_value(&plan);
    assert_eq!(v["confirmed"], false);
    assert_eq!(v["would_free_bytes"], 3072);
    assert_eq!(v["would_trash"][0]["category"], "JavaScript / TypeScript");
    assert_eq!(
        preview_text(&plan),
        "Would move 3.0 KB to the Trash (1 items):\n      3.0 KB  /r/p/node_modules\n\n\
         Re-run with --yes to do it.\n"
    );
}

#[test]
fn what_was_trashed_is_told() {
    let os = vec![
        Outcome { path: "/r/a".into(), bytes: 1024, trashed: true, error: None },
        Outcome { path: "/r/b".into(), bytes: 5, trashed: false, error: Some("gone".into()) },
    ];
    let v = trashed_value(&os);
    assert_eq!(v["confirmed"], true);
    assert_eq!(v["freed_bytes"], 1024);
    assert_eq!(v["trashed_count"], 1);
    assert_eq!(v["failed_count"], 1);
    assert_eq!(
        trashed_text(&os),
        "  trashed      1.0 KB  /r/a\n  FAILED   /r/b  (gone)\n\nFreed 1.0 KB to the Trash.\n"
    );
    assert_eq!(trash_result(&os), Err("1 item(s) could not be trashed".to_string()));
    assert_eq!(trash_result(&os[..1].iter().map(|o| Outcome {
        path: o.path.clone(),
        bytes: o.bytes,
        trashed: o.trashed,
        error: None,
    }).collect()), Ok(()));
}

#[test]
fn full_means_full() {
    assert!(freshness(&args(&["--full"])) == Freshness::Full);
    assert!(freshness(&args(&[])) == Freshness::Auto);
}
