//! The headless commands. `diskscour` with no arguments opens the window;
//! everything here is for a terminal or another program.
//!
//! Every listing command takes `--json`, because the most common non-human caller
//! is a coding agent that would otherwise have to parse columns.

use serde_json::Value;
use vstd::prelude::*;

use crate::cleanup;
use crate::cleanup::{ItemView, Outcome, OutcomeView, Plan};
use crate::engine::{Freshness, Refreshed};
use crate::index;
use crate::index::{Index, IndexView, Mode};
use crate::json;
use crate::json::{array, optional, pretty, Fields, Json, Values};
use crate::order;
use crate::order::order_desc;
use crate::path;
use crate::path::{is_absolute, join, strip_prefix};
use crate::registration;
use crate::registration::{Level, RegistrationView, Status, StatusView};
use crate::report;
use crate::report::{
    apparent, freed, held, is_shared, items_value, reclaimable, remark_on, Listed, ListedView,
};
use crate::rules;
use crate::text;
use crate::text::{
    align_right, chars_of, decimal_string, join_by, parse_u64, starts_with, str_eq, string_of,
};
use crate::util;
use crate::util::human;

verus! {

/// What `diskscour --help` prints.
pub const USAGE: &'static str = "\
DiskScour — disk-usage analyzer with dev-cache cleanup

  diskscour                        open the window
  diskscour scan <path> [--json] [--full]
                                   scan a folder and update its cached index
  diskscour caches <path> [--json] [--min <bytes>]
                                   list regenerable dev caches from the index
  diskscour status [--json]        show every indexed folder
  diskscour trash <path>... [--yes] [--allow-any]
                                   move caches to the Trash (previews unless --yes)
  diskscour mcp                    run as an MCP server on stdio

Scans reuse the previous result where they can, so a repeat scan of the same
folder is fast. --full re-stats everything.
";

// ---- arguments ----------------------------------------------------------------------

/// Parsed flags, plus whatever was left over as positional arguments.
pub struct Args {
    pub positional: Vec<String>,
    pub json: bool,
    pub full: bool,
    pub yes: bool,
    pub allow_any: bool,
    pub min: u64,
}

/// Parsed flags with characters for strings.
#[verifier::ext_equal]
pub struct ArgsView {
    pub positional: Seq<Seq<char>>,
    pub json: bool,
    pub full: bool,
    pub yes: bool,
    pub allow_any: bool,
    pub min: u64,
}

impl View for Args {
    type V = ArgsView;

    open spec fn view(&self) -> ArgsView {
        ArgsView {
            positional: text::strs(self.positional@),
            json: self.json,
            full: self.full,
            yes: self.yes,
            allow_any: self.allow_any,
            min: self.min,
        }
    }
}

/// No flags and no arguments.
pub open spec fn no_args() -> ArgsView {
    ArgsView {
        positional: Seq::empty(),
        json: false,
        full: false,
        yes: false,
        allow_any: false,
        min: 0,
    }
}

/// The number that a text writes, if 64 bits hold it.
pub open spec fn number_of(s: Seq<char>) -> Option<u64> {
    match text::unsigned_value(s) {
        Some(n) => if n <= u64::MAX {
            Some(n as u64)
        } else {
            None
        },
        None => None,
    }
}

/// What the arguments from the `k`-th on add to `a`, or what is wrong with them.
pub open spec fn reading(rest: Seq<Seq<char>>, k: nat, a: ArgsView) -> Result<ArgsView, Seq<char>>
    decreases rest.len() - k,
{
    if k >= rest.len() {
        Ok(a)
    } else {
        let arg = rest[k as int];
        if arg == "--json"@ {
            reading(rest, k + 1, ArgsView { json: true, ..a })
        } else if arg == "--full"@ {
            reading(rest, k + 1, ArgsView { full: true, ..a })
        } else if arg == "--yes"@ || arg == "-y"@ {
            reading(rest, k + 1, ArgsView { yes: true, ..a })
        } else if arg == "--allow-any"@ {
            reading(rest, k + 1, ArgsView { allow_any: true, ..a })
        } else if arg == "--min"@ {
            if k + 1 >= rest.len() {
                Err("--min needs a value"@)
            } else {
                match number_of(rest[k as int + 1]) {
                    Some(n) => reading(rest, k + 2, ArgsView { min: n, ..a }),
                    None => Err("--min: not a number: "@ + rest[k as int + 1]),
                }
            }
        } else if arg.len() > 0 && arg[0] == '-' {
            Err("unknown flag: "@ + arg)
        } else {
            reading(rest, k + 1, ArgsView { positional: a.positional.push(arg), ..a })
        }
    }
}

/// The view of parsed arguments, or of what is wrong with them.
pub open spec fn args_result(r: Result<Args, String>) -> Result<ArgsView, Seq<char>> {
    match r {
        Ok(a) => Ok(a@),
        Err(e) => Err(e@),
    }
}

fn is_flag(s: &str) -> (r: bool)
    ensures
        r == (s@.len() > 0 && s@[0] == '-'),
{
    let cs = chars_of(s);
    cs.len() > 0 && cs[0] == '-'
}

/// Separates flags from positional arguments.
pub fn parse(rest: &Vec<String>) -> (r: Result<Args, String>)
    ensures
        args_result(r) == reading(text::strs(rest@), 0, no_args()),
{
    let ghost all = text::strs(rest@);
    let mut a = Args {
        positional: Vec::new(),
        json: false,
        full: false,
        yes: false,
        allow_any: false,
        min: 0,
    };
    assert(a@ =~= no_args());
    let mut k: usize = 0;
    while k < rest.len()
        invariant
            all == text::strs(rest@),
            k <= rest@.len(),
            reading(all, 0, no_args()) == reading(all, k as nat, a@),
        decreases rest@.len() - k,
    {
        let arg = rest[k].as_str();
        let ghost before = a@;
        assert(all[k as int] == arg@);
        if str_eq(arg, "--json") {
            a.json = true;
            assert(a@ =~= ArgsView { json: true, ..before });
        } else if str_eq(arg, "--full") {
            a.full = true;
            assert(a@ =~= ArgsView { full: true, ..before });
        } else if str_eq(arg, "--yes") || str_eq(arg, "-y") {
            a.yes = true;
            assert(a@ =~= ArgsView { yes: true, ..before });
        } else if str_eq(arg, "--allow-any") {
            a.allow_any = true;
            assert(a@ =~= ArgsView { allow_any: true, ..before });
        } else if str_eq(arg, "--min") {
            k += 1;
            if k >= rest.len() {
                return Err("--min needs a value".to_owned());
            }
            assert(all[k as int] == rest@[k as int]@);
            match parse_u64(rest[k].as_str()) {
                Some(n) => {
                    a.min = n;
                    assert(a@ =~= ArgsView { min: n, ..before });
                },
                None => {
                    let mut e = "--min: not a number: ".to_owned();
                    e.append(rest[k].as_str());
                    return Err(e);
                },
            }
        } else if is_flag(arg) {
            let mut e = "unknown flag: ".to_owned();
            e.append(arg);
            return Err(e);
        } else {
            a.positional.push(arg.to_owned());
            assert(text::strs(a.positional@) =~= before.positional.push(arg@));
            assert(a@ =~= ArgsView { positional: before.positional.push(arg@), ..before });
        }
        k += 1;
    }
    Ok(a)
}

/// A path as the user writes it, made absolute: `~` stands for the home directory
/// and a relative path starts from `cwd`. Without a home directory `~` alone is
/// nowhere.
pub open spec fn expanded(raw: Seq<char>, home: Option<Seq<char>>, cwd: Seq<char>) -> Seq<char> {
    if raw == "~"@ {
        match home {
            Some(h) => h,
            None => Seq::empty(),
        }
    } else if "~/"@.is_prefix_of(raw) && home is Some {
        path::join_text(home->0, raw.skip(2))
    } else if path::absolute(raw) {
        raw
    } else {
        path::join_text(cwd, raw)
    }
}

/// What stands after `~/`, if that comes first.
pub(crate) fn after_tilde(raw: &str) -> (r: Option<String>)
    ensures
        match r {
            Some(rest) => "~/"@.is_prefix_of(raw@) && rest@ == raw@.skip(2),
            None => !"~/"@.is_prefix_of(raw@),
        },
{
    if !starts_with(raw, "~/") {
        return None;
    }
    proof {
        reveal_strlit("~/");
    }
    let cs = chars_of(raw);
    let rest = string_of(&cs.as_slice()[2..cs.len()]);
    assert(rest@ =~= raw@.skip(2));
    Some(rest)
}

/// A path as the user writes it, made absolute.
pub fn expand(raw: &str, home: Option<&str>, cwd: &str) -> (r: String)
    ensures
        r@ == expanded(raw@, index::opt_str(home), cwd@),
{
    if str_eq(raw, "~") {
        return match home {
            Some(h) => h.to_owned(),
            None => String::new(),
        };
    }
    if let Some(rest) = after_tilde(raw) {
        if let Some(h) = home {
            return join(h, rest.as_str());
        }
    }
    if is_absolute(raw) {
        raw.to_owned()
    } else {
        join(cwd, raw)
    }
}

/// The path that a command is given, made absolute.
pub fn path_arg(a: &Args, what: &str, home: Option<&str>, cwd: &str) -> (r: Result<String, String>)
    ensures
        match r {
            Ok(p) => a.positional@.len() > 0 && p@ == expanded(
                a.positional@[0]@,
                index::opt_str(home),
                cwd@,
            ),
            Err(e) => a.positional@.len() == 0 && e@ == what@ + " needs a path"@,
        },
{
    if a.positional.len() == 0 {
        let mut e = what.to_owned();
        e.append(" needs a path");
        return Err(e);
    }
    Ok(expand(a.positional[0].as_str(), home, cwd))
}

/// With a home directory, and standing in a directory, every path that is given
/// becomes absolute.
pub proof fn law_paths_become_absolute(raw: Seq<char>, home: Seq<char>, cwd: Seq<char>)
    requires
        path::absolute(home),
        path::absolute(cwd),
    ensures
        path::absolute(expanded(raw, Some(home), cwd)),
{
}

// ---- running a command --------------------------------------------------------------

/// What is to be done for a command line.
pub enum Task {
    Scan(Args),
    Caches(Args),
    Status(Args),
    Trash(Args),
    /// Nothing: say this and end with this code.
    Fail(i32, String),
}

/// Whether `t` is what is to be done for a command line. Flags that cannot be read
/// are reported before the command is looked at.
pub open spec fn task_for(command: Seq<char>, rest: Seq<Seq<char>>, t: Task) -> bool {
    match reading(rest, 0, no_args()) {
        Ok(a) => if command == "scan"@ {
            t matches Task::Scan(x) && x@ == a
        } else if command == "caches"@ {
            t matches Task::Caches(x) && x@ == a
        } else if command == "status"@ {
            t matches Task::Status(x) && x@ == a
        } else if command == "trash"@ {
            t matches Task::Trash(x) && x@ == a
        } else {
            t matches Task::Fail(code, say) && code == 1 && say@ == complaint(
                "unknown command: "@ + command,
            )
        },
        Err(e) => t matches Task::Fail(code, say) && code == 2 && say@ == "diskscour: "@ + e
            + "\n\n"@ + USAGE@ + "\n"@,
    }
}

/// What is said where a command fails.
pub open spec fn complaint(e: Seq<char>) -> Seq<char> {
    "diskscour: "@ + e + "\n"@
}

fn complain(e: &str) -> (r: String)
    ensures
        r@ == complaint(e@),
{
    let mut s = "diskscour: ".to_owned();
    s.append(e);
    s.append("\n");
    s
}

/// What is to be done for a command line.
pub fn run(command: &str, rest: &Vec<String>) -> (t: Task)
    ensures
        task_for(command@, text::strs(rest@), t),
{
    let args = match parse(rest) {
        Ok(a) => a,
        Err(e) => {
            let mut s = "diskscour: ".to_owned();
            s.append(e.as_str());
            s.append("\n\n");
            s.append(USAGE);
            s.append("\n");
            return Task::Fail(2, s);
        },
    };
    if str_eq(command, "scan") {
        Task::Scan(args)
    } else if str_eq(command, "caches") {
        Task::Caches(args)
    } else if str_eq(command, "status") {
        Task::Status(args)
    } else if str_eq(command, "trash") {
        Task::Trash(args)
    } else {
        let mut e = "unknown command: ".to_owned();
        e.append(command);
        Task::Fail(1, complain(e.as_str()))
    }
}

/// The exit code of a command, and what is said where it failed.
pub fn exit(result: Result<(), String>) -> (r: (i32, Option<String>))
    ensures
        match result {
            Ok(_) => r.0 == 0 && r.1 is None,
            Err(e) => r.0 == 1 && (r.1 matches Some(say) && say@ == complaint(e@)),
        },
{
    match result {
        Ok(_) => (0, None),
        Err(e) => (1, Some(complain(e.as_str()))),
    }
}

/// What is printed: the value as JSON, or the text for people.
pub open spec fn emitted(json: bool, value: Json, human: Seq<char>) -> Seq<char> {
    if json {
        json::pretty_text(value) + "\n"@
    } else {
        human
    }
}

/// What is printed: the value as JSON, or the text for people.
pub fn emit(as_json: bool, value: &Value, human: String) -> (r: String)
    ensures
        r@ == emitted(as_json, json::json(*value), human@),
{
    if as_json {
        let mut s = pretty(value);
        s.append("\n");
        s
    } else {
        human
    }
}

// ---- scan ---------------------------------------------------------------------------

/// The bytes below the root of an index.
pub open spec fn index_bytes(v: IndexView) -> u64 {
    v.dirs[v.root_ix as int].subtree_bytes
}

/// The bytes below the root of an index that no other file shares.
pub open spec fn index_private(v: IndexView) -> u64 {
    v.dirs[v.root_ix as int].subtree_private
}

/// The files below the root of an index.
pub open spec fn index_files(v: IndexView) -> u64 {
    v.dirs[v.root_ix as int].subtree_files
}

/// Why something that is no directory is not scanned.
pub fn not_a_directory(p: &str) -> (r: String)
    ensures
        r@ == p@ + " is not a directory"@,
{
    let mut s = p.to_owned();
    s.append(" is not a directory");
    s
}

/// How much a scan may reuse, by the flags.
pub fn freshness(a: &Args) -> (r: Freshness)
    ensures
        r == (if a.full {
            Freshness::Full
        } else {
            Freshness::Auto
        }),
{
    if a.full {
        Freshness::Full
    } else {
        Freshness::Auto
    }
}

/// A cache directory as `scan` reports it.
pub open spec fn largest_json(l: ListedView) -> Json {
    Json::Obj(
        map![
            "path"@ => Json::Str(l.hit.path),
            "in_use"@ => json::text_or_null(l.in_use),
            "bytes"@ => Json::Int(l.hit.private as int),
            "human"@ => Json::Str(util::human_size(l.hit.private)),
            "apparent_bytes"@ => Json::Int(l.hit.size as int),
            "apparent_human"@ => Json::Str(util::human_size(l.hit.size)),
            "shared"@ => Json::Bool(report::mostly_shared(l.hit)),
            "category"@ => Json::Str(rules::category_label(l.hit.category)),
        ],
    )
}

fn largest_value(l: &Listed) -> (r: Value)
    ensures
        json::json(r) == largest_json(l@),
{
    let mut o = Fields::new();
    o.put_str("path", l.hit.path.as_str());
    o.put("in_use", optional(&l.in_use));
    o.put_num("bytes", l.hit.private);
    o.put_str("human", human(l.hit.private).as_str());
    o.put_num("apparent_bytes", l.hit.size);
    o.put_str("apparent_human", human(l.hit.size).as_str());
    o.put_bool("shared", is_shared(&l.hit));
    o.put_str("category", l.hit.category.label());
    o.done()
}

/// How many rows a scan shows.
pub const SHOWN: usize = 25;

/// The smaller of two numbers.
pub open spec fn at_most(n: nat, cap: nat) -> nat {
    if n < cap {
        n
    } else {
        cap
    }
}

/// What a refresh came to, as JSON. `seconds` is how long it took.
pub open spec fn scan_json(
    root: Seq<char>,
    v: IndexView,
    mode: Mode,
    why: Seq<char>,
    changed: nat,
    saved: bool,
    seconds: Json,
    ls: Seq<ListedView>,
) -> Json {
    Json::Obj(
        map![
            "root"@ => Json::Str(root),
            "total_bytes"@ => Json::Int(index_bytes(v) as int),
            "total_human"@ => Json::Str(util::human_size(index_bytes(v))),
            "files"@ => Json::Int(index_files(v) as int),
            "reclaimable_bytes"@ => Json::Int(report::free_bytes(ls) as int),
            "reclaimable_human"@ => Json::Str(util::human_size(report::free_bytes(ls))),
            "apparent_bytes"@ => Json::Int(report::apparent_bytes(ls) as int),
            "apparent_human"@ => Json::Str(util::human_size(report::apparent_bytes(ls))),
            "in_use_bytes"@ => Json::Int(report::held_bytes(ls) as int),
            "in_use_human"@ => Json::Str(util::human_size(report::held_bytes(ls))),
            "cache_dirs"@ => Json::Int(ls.len() as int),
            "seconds"@ => seconds,
            "mode"@ => Json::Str(index::mode_str(mode)),
            "why"@ => Json::Str(why),
            "changed_dirs"@ => Json::Int(changed as int),
            "index_saved"@ => Json::Bool(saved),
            "largest"@ => Json::Arr(
                Seq::new(at_most(ls.len(), SHOWN as nat), |i: int| largest_json(ls[i])),
            ),
        ],
    )
}

/// What a refresh came to, as JSON.
pub fn scan_value(root: &str, r: &Refreshed, seconds: &Value, ls: &Vec<Listed>) -> (out: Value)
    requires
        r.index.root_ix < r.index.dirs@.len(),
    ensures
        json::json(out) == scan_json(
            root@,
            r.index@,
            r.mode,
            r.reason@,
            r.changed_dirs as nat,
            r.saved,
            json::json(*seconds),
            report::listed_view(ls@),
        ),
{
    let ghost lv = report::listed_view(ls@);
    let n: usize = if ls.len() < SHOWN {
        ls.len()
    } else {
        SHOWN
    };
    let ghost want = Seq::new(n as nat, |i: int| largest_json(lv[i]));
    let mut rows = Values::new();
    let mut i: usize = 0;
    while i < n
        invariant
            lv == report::listed_view(ls@),
            n <= ls@.len(),
            want == Seq::new(n as nat, |i: int| largest_json(lv[i])),
            i <= n,
            rows@ == want.take(i as int),
        decreases n - i,
    {
        assert(lv[i as int] == ls@[i as int]@);
        rows.push(largest_value(&ls[i]));
        i += 1;
        assert(rows@ =~= want.take(i as int));
    }
    assert(want.take(i as int) =~= want);
    let free: u64 = reclaimable(ls);
    let seeming: u64 = apparent(ls);
    let used: u64 = held(ls);
    let total: u64 = r.index.total_bytes();
    let mut o = Fields::new();
    o.put_str("root", root);
    o.put_num("total_bytes", total);
    o.put_str("total_human", human(total).as_str());
    o.put_num("files", r.index.total_files());
    o.put_num("reclaimable_bytes", free);
    o.put_str("reclaimable_human", human(free).as_str());
    o.put_num("apparent_bytes", seeming);
    o.put_str("apparent_human", human(seeming).as_str());
    o.put_num("in_use_bytes", used);
    o.put_str("in_use_human", human(used).as_str());
    o.put_num("cache_dirs", ls.len() as u64);
    o.put("seconds", seconds.clone());
    o.put_str("mode", r.mode.as_str());
    o.put_str("why", r.reason.as_str());
    o.put_num("changed_dirs", r.changed_dirs as u64);
    o.put_bool("index_saved", r.saved);
    o.put("largest", rows.done());
    o.done()
}

/// A row for a cache directory.
pub open spec fn row_text(l: ListedView, shown: Seq<char>) -> Seq<char> {
    "  "@ + text::right_aligned(util::human_size(l.hit.private), 10) + "  ["@
        + rules::category_label(l.hit.category) + "] "@ + shown + report::remark(l) + "\n"@
}

fn add_row(out: &mut String, l: &Listed, shown: &str)
    ensures
        final(out)@ == old(out)@ + row_text(l@, shown@),
{
    let mut s = "  ".to_owned();
    s.append(align_right(human(l.hit.private).as_str(), 10).as_str());
    s.append("  [");
    s.append(l.hit.category.label());
    s.append("] ");
    s.append(shown);
    s.append(remark_on(l).as_str());
    s.append("\n");
    out.append(s.as_str());
}

/// How a directory is shown below a root: by the way from there.
pub open spec fn relative(p: Seq<char>, root: Seq<char>) -> Seq<char> {
    if path::within(p, root) {
        path::joined(path::comps(p).skip(path::comps(root).len() as int))
    } else {
        p
    }
}

/// The rows for the first `k` directories, below a root.
pub open spec fn rows_below(ls: Seq<ListedView>, root: Seq<char>, k: nat) -> Seq<char>
    decreases k,
{
    if k == 0 {
        Seq::empty()
    } else {
        rows_below(ls, root, (k - 1) as nat) + row_text(
            ls[k - 1],
            relative(ls[k - 1].hit.path, root),
        )
    }
}

/// What each directory frees.
pub open spec fn private_sizes(ls: Seq<ListedView>) -> Seq<u64> {
    ls.map_values(|l: ListedView| l.hit.private)
}

/// The two lines over the rows of a scan.
pub open spec fn scan_head(
    root: Seq<char>,
    v: IndexView,
    mode: Mode,
    why: Seq<char>,
    secs: Seq<char>,
    ls: Seq<ListedView>,
) -> Seq<char> {
    "\n"@ + root + "\n  "@ + util::human_size(index_bytes(v)) + " across "@ + text::decimal(
        index_files(v) as nat,
    ) + " files in "@ + secs + "s  ["@ + index::mode_str(mode) + ": "@ + why + "]\n\n"@
        + "Dev caches: "@ + util::human_size(report::free_bytes(ls)) + " reclaimable across "@
        + text::decimal(ls.len()) + " dirs  ("@ + util::human_size(report::apparent_bytes(ls))
        + " apparent"@ + in_use_part(report::held_bytes(ls)) + ")\n"@
}

/// What is said of what is in use.
pub open spec fn in_use_part(used: u64) -> Seq<char> {
    if used > 0 {
        ", "@ + util::human_size(used) + " in use"@
    } else {
        Seq::empty()
    }
}

/// Whether `t` is what a scan tells people: two lines, then the directories that
/// free most.
pub open spec fn scan_told(
    root: Seq<char>,
    v: IndexView,
    mode: Mode,
    why: Seq<char>,
    secs: Seq<char>,
    ls: Seq<ListedView>,
    t: Seq<char>,
) -> bool {
    exists|s: Seq<ListedView>| #[trigger]
        order::sorted_desc(ls, private_sizes(ls), s) && t == scan_head(root, v, mode, why, secs, ls)
            + rows_below(s, root, at_most(ls.len(), SHOWN as nat))
}

/// What a scan tells people. `secs` is how long it took, in seconds.
pub fn scan_text(root: &str, r: &Refreshed, secs: &str, ls: &Vec<Listed>) -> (out: String)
    requires
        r.index.root_ix < r.index.dirs@.len(),
    ensures
        scan_told(
            root@,
            r.index@,
            r.mode,
            r.reason@,
            secs@,
            report::listed_view(ls@),
            out@,
        ),
{
    let ghost lv = report::listed_view(ls@);
    let used: u64 = held(ls);
    let mut s = "\n".to_owned();
    s.append(root);
    s.append("\n  ");
    s.append(human(r.index.total_bytes()).as_str());
    s.append(" across ");
    s.append(decimal_string(r.index.total_files()).as_str());
    s.append(" files in ");
    s.append(secs);
    s.append("s  [");
    s.append(r.mode.as_str());
    s.append(": ");
    s.append(r.reason.as_str());
    s.append("]\n\n");
    s.append("Dev caches: ");
    s.append(human(reclaimable(ls)).as_str());
    s.append(" reclaimable across ");
    s.append(decimal_string(ls.len() as u64).as_str());
    s.append(" dirs  (");
    s.append(human(apparent(ls)).as_str());
    s.append(" apparent");
    let part = if used > 0 {
        let mut t = ", ".to_owned();
        t.append(human(used).as_str());
        t.append(" in use");
        t
    } else {
        String::new()
    };
    s.append(part.as_str());
    s.append(")\n");
    let ghost head = s@;
    assert(lv.len() == ls@.len());
    assert(head == scan_head(root@, r.index@, r.mode, r.reason@, secs@, lv));
    let mut keys: Vec<u64> = Vec::new();
    let mut i: usize = 0;
    while i < ls.len()
        invariant
            lv == report::listed_view(ls@),
            i <= ls@.len(),
            keys@ == private_sizes(lv).take(i as int),
        decreases ls@.len() - i,
    {
        keys.push(ls[i].hit.private);
        i += 1;
        assert(keys@ =~= private_sizes(lv).take(i as int));
    }
    assert(keys@ =~= private_sizes(lv));
    let p = order_desc(&keys);
    let ghost sorted = order::arranged(lv, p@);
    assert(order::sorted_desc(lv, private_sizes(lv), sorted));
    let n: usize = if ls.len() < SHOWN {
        ls.len()
    } else {
        SHOWN
    };
    let mut k: usize = 0;
    assert(s@ =~= head + rows_below(sorted, root@, 0));
    while k < n
        invariant
            lv == report::listed_view(ls@),
            n <= ls@.len(),
            keys@ == private_sizes(lv),
            order::is_order(keys@, p@),
            sorted == order::arranged(lv, p@),
            k <= n,
            s@ == head + rows_below(sorted, root@, k as nat),
        decreases n - k,
    {
        assert(p@[k as int] < keys@.len());
        let l = &ls[p[k]];
        assert(sorted[k as int] == l@);
        let shown = match strip_prefix(l.hit.path.as_str(), root) {
            Some(rest) => rest,
            None => l.hit.path.clone(),
        };
        add_row(&mut s, l, shown.as_str());
        k += 1;
        assert(s@ =~= head + rows_below(sorted, root@, k as nat));
    }
    s
}

// ---- caches -------------------------------------------------------------------------

/// Why a path without an index is no use.
pub fn no_index(p: &str) -> (r: String)
    ensures
        r@ == "no index covers "@ + p@ + " — run `diskscour scan "@ + p@ + "` first"@,
{
    let mut s = "no index covers ".to_owned();
    s.append(p);
    s.append(" — run `diskscour scan ");
    s.append(p);
    s.append("` first");
    s
}

/// The index that covers a path, or why there is none.
pub fn require_index(found: Option<Index>, p: &str) -> (r: Result<Index, String>)
    ensures
        match found {
            Some(i) => r == Ok::<Index, String>(i),
            None => r matches Err(e) && e@ == "no index covers "@ + p@ + " — run `diskscour scan "@
                + p@ + "` first"@,
        },
{
    match found {
        Some(i) => Ok(i),
        None => Err(no_index(p)),
    }
}

/// A cache directory as `caches` lists it.
pub open spec fn cache_json(l: ListedView) -> Json {
    Json::Obj(
        map![
            "path"@ => Json::Str(l.hit.path),
            "in_use"@ => json::text_or_null(l.in_use),
            "bytes"@ => Json::Int(l.hit.private as int),
            "human"@ => Json::Str(util::human_size(l.hit.private)),
            "apparent_bytes"@ => Json::Int(l.hit.size as int),
            "apparent_human"@ => Json::Str(util::human_size(l.hit.size)),
            "shared"@ => Json::Bool(report::mostly_shared(l.hit)),
            "files"@ => Json::Int(l.hit.files as int),
            "category"@ => Json::Str(rules::category_label(l.hit.category)),
            "note"@ => Json::Str(l.hit.note),
        ],
    )
}

fn cache_value(l: &Listed) -> (r: Value)
    ensures
        json::json(r) == cache_json(l@),
{
    let mut o = Fields::new();
    o.put_str("path", l.hit.path.as_str());
    o.put("in_use", optional(&l.in_use));
    o.put_num("bytes", l.hit.private);
    o.put_str("human", human(l.hit.private).as_str());
    o.put_num("apparent_bytes", l.hit.size);
    o.put_str("apparent_human", human(l.hit.size).as_str());
    o.put_bool("shared", is_shared(&l.hit));
    o.put_num("files", l.hit.files);
    o.put_str("category", l.hit.category.label());
    o.put_str("note", l.hit.note);
    o.done()
}

/// The caches of an index, as JSON. `age` is the age of the index in seconds.
pub open spec fn caches_json(v: IndexView, age: u64, ls: Seq<ListedView>) -> Json {
    Json::Obj(
        map![
            "root"@ => Json::Str(v.root),
            "scanned_at"@ => Json::Int(v.scanned_at as int),
            "age_seconds"@ => Json::Int(age as int),
            "mode"@ => Json::Str(index::mode_str(v.mode)),
            "reclaimable_bytes"@ => Json::Int(report::free_bytes(ls) as int),
            "reclaimable_human"@ => Json::Str(util::human_size(report::free_bytes(ls))),
            "apparent_bytes"@ => Json::Int(report::apparent_bytes(ls) as int),
            "apparent_human"@ => Json::Str(util::human_size(report::apparent_bytes(ls))),
            "caches"@ => Json::Arr(ls.map_values(|l: ListedView| cache_json(l))),
        ],
    )
}

/// The caches of an index, as JSON.
pub fn caches_value(idx: &Index, age: u64, ls: &Vec<Listed>) -> (r: Value)
    ensures
        json::json(r) == caches_json(idx@, age, report::listed_view(ls@)),
{
    let ghost lv = report::listed_view(ls@);
    let ghost want = lv.map_values(|l: ListedView| cache_json(l));
    let mut rows = Values::new();
    let mut i: usize = 0;
    while i < ls.len()
        invariant
            lv == report::listed_view(ls@),
            want == lv.map_values(|l: ListedView| cache_json(l)),
            i <= ls@.len(),
            rows@ == want.take(i as int),
        decreases ls@.len() - i,
    {
        assert(lv[i as int] == ls@[i as int]@);
        rows.push(cache_value(&ls[i]));
        i += 1;
        assert(rows@ =~= want.take(i as int));
    }
    assert(want.take(i as int) =~= want);
    let free: u64 = reclaimable(ls);
    let seeming: u64 = apparent(ls);
    let mut o = Fields::new();
    o.put_str("root", idx.root.as_str());
    o.put_num("scanned_at", idx.scanned_at);
    o.put_num("age_seconds", age);
    o.put_str("mode", idx.mode.as_str());
    o.put_num("reclaimable_bytes", free);
    o.put_str("reclaimable_human", human(free).as_str());
    o.put_num("apparent_bytes", seeming);
    o.put_str("apparent_human", human(seeming).as_str());
    o.put("caches", rows.done());
    o.done()
}

/// The rows for the first `k` directories, with their whole paths.
pub open spec fn rows_upto(ls: Seq<ListedView>, k: nat) -> Seq<char>
    decreases k,
{
    if k == 0 {
        Seq::empty()
    } else {
        rows_upto(ls, (k - 1) as nat) + row_text(ls[k - 1], ls[k - 1].hit.path)
    }
}

/// The caches, for people.
pub open spec fn caches_told(p: Seq<char>, ls: Seq<ListedView>) -> Seq<char> {
    util::human_size(report::free_bytes(ls)) + " reclaimable across "@ + text::decimal(ls.len())
        + " dirs under "@ + p + "  ("@ + util::human_size(report::apparent_bytes(ls))
        + " apparent)\n"@ + rows_upto(ls, ls.len())
}

/// The caches, for people.
pub fn caches_text(p: &str, ls: &Vec<Listed>) -> (r: String)
    ensures
        r@ == caches_told(p@, report::listed_view(ls@)),
{
    let ghost lv = report::listed_view(ls@);
    let mut s = human(reclaimable(ls));
    s.append(" reclaimable across ");
    s.append(decimal_string(ls.len() as u64).as_str());
    s.append(" dirs under ");
    s.append(p);
    s.append("  (");
    s.append(human(apparent(ls)).as_str());
    s.append(" apparent)\n");
    let ghost head = s@;
    let mut i: usize = 0;
    assert(s@ =~= head + rows_upto(lv, 0));
    while i < ls.len()
        invariant
            lv == report::listed_view(ls@),
            i <= ls@.len(),
            s@ == head + rows_upto(lv, i as nat),
        decreases ls@.len() - i,
    {
        assert(lv[i as int] == ls@[i as int]@);
        add_row(&mut s, &ls[i], ls[i].hit.path.as_str());
        i += 1;
        assert(s@ =~= head + rows_upto(lv, i as nat));
    }
    s
}

// ---- status -------------------------------------------------------------------------

/// An indexed root as `status` shows it. `age` is the age of the index in seconds
/// and `ls` its caches.
pub open spec fn root_json(v: IndexView, age: u64, ls: Seq<ListedView>) -> Json {
    Json::Obj(
        map![
            "root"@ => Json::Str(v.root),
            "total_bytes"@ => Json::Int(index_bytes(v) as int),
            "total_human"@ => Json::Str(util::human_size(index_bytes(v))),
            "unshared_bytes"@ => Json::Int(index_private(v) as int),
            "unshared_human"@ => Json::Str(util::human_size(index_private(v))),
            "files"@ => Json::Int(index_files(v) as int),
            "reclaimable_bytes"@ => Json::Int(report::free_bytes(ls) as int),
            "reclaimable_human"@ => Json::Str(util::human_size(report::free_bytes(ls))),
            "scanned_at"@ => Json::Int(v.scanned_at as int),
            "age_seconds"@ => Json::Int(age as int),
            "mode"@ => Json::Str(index::mode_str(v.mode)),
        ],
    )
}

/// An indexed root as `status` shows it.
pub fn root_value(idx: &Index, age: u64, ls: &Vec<Listed>) -> (r: Value)
    requires
        idx.root_ix < idx.dirs@.len(),
    ensures
        json::json(r) == root_json(idx@, age, report::listed_view(ls@)),
{
    let free: u64 = reclaimable(ls);
    let mut o = Fields::new();
    o.put_str("root", idx.root.as_str());
    o.put_num("total_bytes", idx.total_bytes());
    o.put_str("total_human", human(idx.total_bytes()).as_str());
    o.put_num("unshared_bytes", idx.total_private());
    o.put_str("unshared_human", human(idx.total_private()).as_str());
    o.put_num("files", idx.total_files());
    o.put_num("reclaimable_bytes", free);
    o.put_str("reclaimable_human", human(free).as_str());
    o.put_num("scanned_at", idx.scanned_at);
    o.put_num("age_seconds", age);
    o.put_str("mode", idx.mode.as_str());
    o.done()
}

/// The row for an indexed root.
pub open spec fn root_text(v: IndexView, ls: Seq<ListedView>) -> Seq<char> {
    text::right_aligned(util::human_size(index_bytes(v)), 10) + "  "@ + text::right_aligned(
        util::human_size(report::free_bytes(ls)),
        10,
    ) + " reclaimable  "@ + text::right_aligned(index::mode_str(v.mode), 6) + "  "@ + v.root
        + "\n"@
}

/// The row for an indexed root.
pub fn root_row(idx: &Index, ls: &Vec<Listed>) -> (r: String)
    requires
        idx.root_ix < idx.dirs@.len(),
    ensures
        r@ == root_text(idx@, report::listed_view(ls@)),
{
    let mut s = align_right(human(idx.total_bytes()).as_str(), 10);
    s.append("  ");
    s.append(align_right(human(reclaimable(ls)).as_str(), 10).as_str());
    s.append(" reclaimable  ");
    s.append(align_right(idx.mode.as_str(), 6).as_str());
    s.append("  ");
    s.append(idx.root.as_str());
    s.append("\n");
    s
}

/// Everything that `status` shows, as JSON, from what it shows of each root.
pub fn status_value(roots: Vec<Value>, mcp: &Status) -> (r: Value)
    ensures
        json::json(r) == Json::Obj(
            map![
                "indexed_roots"@ => Json::Arr(json::jsons(roots@)),
                "mcp"@ => registration::status_json(mcp@),
            ],
        ),
{
    let mut o = Fields::new();
    o.put("indexed_roots", array(roots));
    o.put("mcp", mcp.to_json());
    o.done()
}

/// The texts, one after the other.
pub open spec fn all_of(v: Seq<Seq<char>>, k: nat) -> Seq<char>
    decreases k,
{
    if k == 0 {
        Seq::empty()
    } else {
        all_of(v, (k - 1) as nat) + v[k - 1]
    }
}

/// The row for one registration.
pub open spec fn registration_row(r: RegistrationView, version: Seq<char>) -> Seq<char> {
    "  registered  "@ + r.client + " · "@ + r.scope + " · "@ + r.command + " "@ + text::joined_by(
        r.args,
        " "@,
    ) + "  ["@ + registration::health_text(r.health, version) + "]\n"@
}

/// The rows for the first `k` registrations.
pub open spec fn registration_rows(
    rs: Seq<RegistrationView>,
    version: Seq<char>,
    k: nat,
) -> Seq<char>
    decreases k,
{
    if k == 0 {
        Seq::empty()
    } else {
        registration_rows(rs, version, (k - 1) as nat) + registration_row(rs[k - 1], version)
    }
}

/// What is said of the registrations.
pub open spec fn registered_part(s: StatusView) -> Seq<char> {
    if s.registrations.len() == 0 {
        "  not registered with "@ + s.agent_label + ". To add it:\n    "@ + registration::add_text(
            s.agent_command,
            s.binary,
        ) + "\n"@
    } else {
        registration_rows(s.registrations, s.version, s.registrations.len()) + (
        if registration::level_of(s.registrations) == Level::Warn {
            "  to re-register this build:\n    "@ + s.agent_command
                + " mcp remove diskscour && "@ + registration::add_text(s.agent_command, s.binary)
                + "\n"@
        } else {
            Seq::empty()
        })
    }
}

/// Whether `t` is what is said of the sessions.
pub open spec fn sessions_part(s: StatusView, t: Seq<char>) -> bool {
    if s.sessions.len() == 0 {
        t == "  sessions    none connected\n"@
    } else {
        exists|names: Seq<Seq<char>>| #[trigger]
            registration::roster(s.sessions, names, s.sessions.len()) && t == "  sessions    "@
                + text::decimal(s.sessions.len()) + " connected · "@ + text::joined_by(
                registration::tallied(s.sessions, names),
                ", "@,
            ) + "\n"@
    }
}

/// Whether `t` is the MCP block of `diskscour status`.
pub open spec fn mcp_told(s: StatusView, t: Seq<char>) -> bool {
    exists|ss: Seq<char>| #[trigger]
        sessions_part(s, ss) && t == "MCP server  stdio · v"@ + s.version + " · "@ + s.binary
            + "\n"@ + registered_part(s) + ss
}

fn registered_text(mcp: &Status) -> (r: String)
    ensures
        r@ == registered_part(mcp@),
{
    let ghost rs = mcp@.registrations;
    if mcp.registrations.len() == 0 {
        let mut s = "  not registered with ".to_owned();
        s.append(mcp.agent.label.as_str());
        s.append(". To add it:\n    ");
        s.append(mcp.add_command().as_str());
        s.append("\n");
        return s;
    }
    let mut s = String::new();
    let mut i: usize = 0;
    while i < mcp.registrations.len()
        invariant
            rs == mcp@.registrations,
            i <= rs.len(),
            s@ == registration_rows(rs, mcp.this_version@, i as nat),
        decreases rs.len() - i,
    {
        let r = &mcp.registrations[i];
        assert(rs[i as int] == r@);
        let mut row = "  registered  ".to_owned();
        row.append(r.client.as_str());
        row.append(" · ");
        row.append(r.scope.as_str());
        row.append(" · ");
        row.append(r.command.as_str());
        row.append(" ");
        row.append(join_by(&r.args, " ").as_str());
        row.append("  [");
        row.append(r.health.describe(mcp.this_version).as_str());
        row.append("]\n");
        s.append(row.as_str());
        i += 1;
    }
    let again = if mcp.level() == Level::Warn {
        let mut t = "  to re-register this build:\n    ".to_owned();
        t.append(mcp.agent.command.as_str());
        t.append(" mcp remove diskscour && ");
        t.append(mcp.add_command().as_str());
        t.append("\n");
        t
    } else {
        String::new()
    };
    s.append(again.as_str());
    s
}

fn sessions_text(mcp: &Status) -> (r: String)
    ensures
        sessions_part(mcp@, r@),
{
    let n: usize = mcp.sessions.len();
    assert(mcp@.sessions.len() == n);
    if n == 0 {
        return "  sessions    none connected\n".to_owned();
    }
    let mut s = "  sessions    ".to_owned();
    s.append(decimal_string(n as u64).as_str());
    s.append(" connected · ");
    s.append(mcp.sessions_by_client().as_str());
    s.append("\n");
    s
}

/// The MCP block of `diskscour status`: transport, registration, sessions.
pub fn mcp_text(mcp: &Status) -> (r: String)
    ensures
        mcp_told(mcp@, r@),
{
    let mut s = "MCP server  stdio · v".to_owned();
    s.append(mcp.this_version);
    s.append(" · ");
    s.append(mcp.this_binary.as_str());
    s.append("\n");
    s.append(registered_text(mcp).as_str());
    let ss = sessions_text(mcp);
    assert(sessions_part(mcp@, ss@));
    s.append(ss.as_str());
    s
}

/// Whether `t` is everything that `status` tells people, with the rows of the roots.
pub open spec fn status_told(rows: Seq<Seq<char>>, s: StatusView, t: Seq<char>) -> bool {
    exists|m: Seq<char>| #[trigger]
        mcp_told(s, m) && t == (if rows.len() == 0 {
            "Nothing indexed yet. Try `diskscour scan ~`.\n"@
        } else {
            all_of(rows, rows.len())
        }) + "\n"@ + m
}

/// Everything that `status` tells people, with the rows of the roots.
pub fn status_text(rows: &Vec<String>, mcp: &Status) -> (r: String)
    ensures
        status_told(text::strs(rows@), mcp@, r@),
{
    let ghost all = text::strs(rows@);
    let mut s = String::new();
    if rows.len() == 0 {
        s = "Nothing indexed yet. Try `diskscour scan ~`.\n".to_owned();
    } else {
        let mut i: usize = 0;
        while i < rows.len()
            invariant
                all == text::strs(rows@),
                i <= rows@.len(),
                s@ == all_of(all, i as nat),
            decreases rows@.len() - i,
        {
            assert(all[i as int] == rows@[i as int]@);
            s.append(rows[i].as_str());
            i += 1;
        }
    }
    assert(all.len() == rows@.len());
    s.append("\n");
    let m = mcp_text(mcp);
    assert(mcp_told(mcp@, m@));
    s.append(m.as_str());
    s
}

// ---- trash --------------------------------------------------------------------------

/// The paths that are to be trashed, made absolute; there must be one.
pub fn trash_paths(a: &Args, home: Option<&str>, cwd: &str) -> (r: Result<Vec<String>, String>)
    ensures
        match r {
            Ok(ps) => a.positional@.len() > 0 && ps@.len() == a.positional@.len() && forall|i: int|
                0 <= i < ps@.len() ==> (#[trigger] ps@[i])@ == expanded(
                    a.positional@[i]@,
                    index::opt_str(home),
                    cwd@,
                ),
            Err(e) => a.positional@.len() == 0 && e@ == "trash needs at least one path"@,
        },
{
    if a.positional.len() == 0 {
        return Err("trash needs at least one path".to_owned());
    }
    let mut out: Vec<String> = Vec::new();
    let mut i: usize = 0;
    while i < a.positional.len()
        invariant
            i <= a.positional@.len(),
            out@.len() == i,
            forall|k: int|
                0 <= k < i ==> (#[trigger] out@[k])@ == expanded(
                    a.positional@[k]@,
                    index::opt_str(home),
                    cwd@,
                ),
        decreases a.positional@.len() - i,
    {
        out.push(expand(a.positional[i].as_str(), home, cwd));
        i += 1;
    }
    Ok(out)
}

/// The lines for the first `k` refused targets.
pub open spec fn skipped_upto(rs: Seq<(Seq<char>, Seq<char>)>, k: nat) -> Seq<char>
    decreases k,
{
    if k == 0 {
        Seq::empty()
    } else {
        skipped_upto(rs, (k - 1) as nat) + ("  skipped  "@ + rs[k - 1].0 + "  ("@ + rs[k - 1].1
            + ")\n"@)
    }
}

/// What is said of the refused targets.
pub fn skipped_text(plan: &Plan) -> (r: String)
    ensures
        r@ == skipped_upto(cleanup::rejected_view(plan.rejected@), plan.rejected@.len()),
{
    let ghost rs = cleanup::rejected_view(plan.rejected@);
    let mut s = String::new();
    let mut i: usize = 0;
    while i < plan.rejected.len()
        invariant
            rs == cleanup::rejected_view(plan.rejected@),
            i <= rs.len(),
            s@ == skipped_upto(rs, i as nat),
        decreases rs.len() - i,
    {
        let x = &plan.rejected[i];
        assert(rs[i as int] == (x.path@, x.reason@));
        let mut line = "  skipped  ".to_owned();
        line.append(x.path.as_str());
        line.append("  (");
        line.append(x.reason.as_str());
        line.append(")\n");
        s.append(line.as_str());
        i += 1;
    }
    s
}

/// Why a plan is not carried out: nothing is left of it.
pub fn nothing_left(plan: &Plan) -> (r: Option<String>)
    ensures
        r is Some <==> plan.items@.len() == 0,
        r matches Some(e) ==> e@ == "nothing to trash"@,
{
    if plan.items.len() == 0 {
        Some("nothing to trash".to_owned())
    } else {
        None
    }
}

/// A plan that was not confirmed, as JSON.
pub open spec fn preview_json(items: Seq<ItemView>) -> Json {
    let n = util::sum64(cleanup::item_bytes(items));
    Json::Obj(
        map![
            "confirmed"@ => Json::Bool(false),
            "would_free_bytes"@ => Json::Int(n as int),
            "would_free_human"@ => Json::Str(util::human_size(n)),
            "would_trash"@ => Json::Arr(items.map_values(|i: ItemView| report::item_json(i))),
        ],
    )
}

/// A plan that was not confirmed, as JSON.
pub fn preview_value(plan: &Plan) -> (r: Value)
    ensures
        json::json(r) == preview_json(cleanup::items_view(plan.items@)),
{
    let n: u64 = plan.total_bytes();
    let mut o = Fields::new();
    o.put_bool("confirmed", false);
    o.put_num("would_free_bytes", n);
    o.put_str("would_free_human", human(n).as_str());
    o.put("would_trash", items_value(&plan.items));
    o.done()
}

/// The lines for the first `k` items of a plan.
pub open spec fn planned_upto(items: Seq<ItemView>, k: nat) -> Seq<char>
    decreases k,
{
    if k == 0 {
        Seq::empty()
    } else {
        planned_upto(items, (k - 1) as nat) + ("  "@ + text::right_aligned(
            util::human_size(items[k - 1].bytes),
            10,
        ) + "  "@ + items[k - 1].path + "\n"@)
    }
}

/// A plan that was not confirmed, for people.
pub open spec fn preview_told(items: Seq<ItemView>) -> Seq<char> {
    "Would move "@ + util::human_size(util::sum64(cleanup::item_bytes(items)))
        + " to the Trash ("@ + text::decimal(items.len()) + " items):\n"@ + planned_upto(
        items,
        items.len(),
    ) + "\nRe-run with --yes to do it.\n"@
}

/// A plan that was not confirmed, for people.
pub fn preview_text(plan: &Plan) -> (r: String)
    ensures
        r@ == preview_told(cleanup::items_view(plan.items@)),
{
    let ghost items = cleanup::items_view(plan.items@);
    let mut s = "Would move ".to_owned();
    s.append(human(plan.total_bytes()).as_str());
    s.append(" to the Trash (");
    s.append(decimal_string(plan.items.len() as u64).as_str());
    s.append(" items):\n");
    let mut rows = String::new();
    let mut i: usize = 0;
    while i < plan.items.len()
        invariant
            items == cleanup::items_view(plan.items@),
            i <= items.len(),
            rows@ == planned_upto(items, i as nat),
        decreases items.len() - i,
    {
        let x = &plan.items[i];
        assert(items[i as int] == x@);
        let mut line = "  ".to_owned();
        line.append(align_right(human(x.bytes).as_str(), 10).as_str());
        line.append("  ");
        line.append(x.path.as_str());
        line.append("\n");
        rows.append(line.as_str());
        i += 1;
    }
    assert(items.len() == plan.items@.len());
    s.append(rows.as_str());
    s.append("\nRe-run with --yes to do it.\n");
    s
}

/// What became of one item, as JSON.
pub open spec fn outcome_json(o: OutcomeView) -> Json {
    Json::Obj(
        map![
            "path"@ => Json::Str(o.path),
            "trashed"@ => Json::Bool(o.trashed),
            "bytes"@ => Json::Int(o.bytes as int),
            "error"@ => json::text_or_null(o.error),
        ],
    )
}

fn outcome_value(x: &Outcome) -> (r: Value)
    ensures
        json::json(r) == outcome_json(x@),
{
    let mut o = Fields::new();
    o.put_str("path", x.path.as_str());
    o.put_bool("trashed", x.trashed);
    o.put_num("bytes", x.bytes);
    o.put("error", optional(&x.error));
    o.done()
}

/// What became of a plan, as JSON.
pub open spec fn trashed_json(os: Seq<OutcomeView>) -> Json {
    Json::Obj(
        map![
            "confirmed"@ => Json::Bool(true),
            "freed_bytes"@ => Json::Int(report::freed_bytes(os) as int),
            "freed_human"@ => Json::Str(util::human_size(report::freed_bytes(os))),
            "trashed_count"@ => Json::Int(report::trashed_count(os) as int),
            "failed_count"@ => Json::Int(os.len() - report::trashed_count(os)),
            "results"@ => Json::Arr(os.map_values(|o: OutcomeView| outcome_json(o))),
        ],
    )
}

/// What became of a plan, as JSON.
pub fn trashed_value(os: &Vec<Outcome>) -> (r: Value)
    ensures
        json::json(r) == trashed_json(report::outcomes_view(os@)),
{
    let ghost all = report::outcomes_view(os@);
    let ghost want = all.map_values(|o: OutcomeView| outcome_json(o));
    let (count, bytes) = freed(os);
    let mut rows = Values::new();
    let mut i: usize = 0;
    while i < os.len()
        invariant
            all == report::outcomes_view(os@),
            want == all.map_values(|o: OutcomeView| outcome_json(o)),
            i <= os@.len(),
            rows@ == want.take(i as int),
        decreases os@.len() - i,
    {
        assert(all[i as int] == os@[i as int]@);
        rows.push(outcome_value(&os[i]));
        i += 1;
        assert(rows@ =~= want.take(i as int));
    }
    assert(want.take(i as int) =~= want);
    let failed: usize = os.len() - count;
    let mut o = Fields::new();
    o.put_bool("confirmed", true);
    o.put_num("freed_bytes", bytes);
    o.put_str("freed_human", human(bytes).as_str());
    o.put_num("trashed_count", count as u64);
    o.put_num("failed_count", failed as u64);
    o.put("results", rows.done());
    o.done()
}

/// The line for one outcome.
pub open spec fn outcome_line(o: OutcomeView) -> Seq<char> {
    match o.error {
        None => "  trashed  "@ + text::right_aligned(util::human_size(o.bytes), 10) + "  "@
            + o.path + "\n"@,
        Some(e) => "  FAILED   "@ + o.path + "  ("@ + e + ")\n"@,
    }
}

/// The lines for the first `k` outcomes.
pub open spec fn outcome_lines(os: Seq<OutcomeView>, k: nat) -> Seq<char>
    decreases k,
{
    if k == 0 {
        Seq::empty()
    } else {
        outcome_lines(os, (k - 1) as nat) + outcome_line(os[k - 1])
    }
}

/// What became of a plan, for people.
pub fn trashed_text(os: &Vec<Outcome>) -> (r: String)
    ensures
        r@ == outcome_lines(report::outcomes_view(os@), os@.len()) + "\nFreed "@
            + util::human_size(report::freed_bytes(report::outcomes_view(os@)))
            + " to the Trash.\n"@,
{
    let ghost all = report::outcomes_view(os@);
    let (_, bytes) = freed(os);
    let mut s = String::new();
    let mut i: usize = 0;
    while i < os.len()
        invariant
            all == report::outcomes_view(os@),
            i <= os@.len(),
            s@ == outcome_lines(all, i as nat),
        decreases os@.len() - i,
    {
        let x = &os[i];
        assert(all[i as int] == x@);
        let line = match &x.error {
            None => {
                let mut t = "  trashed  ".to_owned();
                t.append(align_right(human(x.bytes).as_str(), 10).as_str());
                t.append("  ");
                t.append(x.path.as_str());
                t.append("\n");
                t
            },
            Some(e) => {
                let mut t = "  FAILED   ".to_owned();
                t.append(x.path.as_str());
                t.append("  (");
                t.append(e.as_str());
                t.append(")\n");
                t
            },
        };
        s.append(line.as_str());
        i += 1;
    }
    s.append("\nFreed ");
    s.append(human(bytes).as_str());
    s.append(" to the Trash.\n");
    s
}

/// How the command ends: with an error where something could not be trashed.
pub fn trash_result(os: &Vec<Outcome>) -> (r: Result<(), String>)
    ensures
        ({
            let failed = os@.len() - report::trashed_count(report::outcomes_view(os@));
            match r {
                Ok(_) => failed == 0,
                Err(e) => failed > 0 && e@ == text::decimal(failed as nat)
                    + " item(s) could not be trashed"@,
            }
        }),
{
    let (count, _) = freed(os);
    let failed: usize = os.len() - count;
    if failed > 0 {
        let mut e = decimal_string(failed as u64);
        e.append(" item(s) could not be trashed");
        Err(e)
    } else {
        Ok(())
    }
}

} // verus!
