//! Deciding how much of a scan can be skipped.
//!
//! A refresh picks the cheapest strategy it can justify and always says why,
//! because the answer changes how much the numbers can be trusted:
//!
//! * events: the event history named the directories that changed, so only those
//!   subtrees are walked. Cheapest and the most precise.
//! * mtime: no usable event history, so every directory is visited but unchanged
//!   ones reuse their cached file sizes.
//! * full: everything is walked and stat'ed.
//!
//! Both incremental modes reuse cached sizes for files that are not stat'ed again,
//! so a file that grew in place without its directory changing keeps its old size
//! until the next full scan. [`MAX_INCREMENTAL_AGE`] bounds how long that can
//! persist.

use vstd::prelude::*;

use crate::fsevents;
use crate::fsevents::{dirty_closure, Replay};
use crate::index;
use crate::index::{from_tree, Index, IndexView, Mode, DEFAULT_THRESHOLD};
use crate::order;
use crate::order::{arrange, order_desc};
use crate::path;
use crate::path::{components, file_name, path_starts_with, PathSet};
use crate::scan::{Tree, TreeView};
use crate::text;
use crate::text::{chars_of, decimal_string};

verus! {

/// Past this age (a week, in seconds) an "auto" refresh does a full scan
/// regardless of what the event history says, so in-place file growth cannot go
/// unnoticed indefinitely.
pub const MAX_INCREMENTAL_AGE: u64 = 604_800;

/// How much a refresh may reuse.
#[derive(Clone, Copy, PartialEq, Eq, Debug, Structural)]
pub enum Freshness {
    /// Reuse whatever can be justified.
    Auto,
    /// Walk and stat everything.
    Full,
}

/// The strategy of a refresh, and why.
pub enum Strategy {
    Full(String),
    Mtime(String),
    /// The directories to visit, and how many changes there were.
    Events(PathSet, usize),
}

// ---- choosing a strategy ------------------------------------------------------------

/// Why everything has to be walked again whatever the event history says: nothing
/// cached, another volume, or an index that is too old.
pub open spec fn full_reason(prior: Option<IndexView>, device: u64, age: u64) -> Option<Seq<char>> {
    match prior {
        None => Some("no cached index"@),
        Some(v) => if v.device_id != 0 && device != 0 && v.device_id != device {
            Some("root moved to a different volume"@)
        } else if age > MAX_INCREMENTAL_AGE {
            Some("cached index is "@ + text::decimal((age / 86_400) as nat) + " days old"@)
        } else {
            None
        },
    }
}

/// The view of an optional index.
pub open spec fn opt_index(i: Option<&Index>) -> Option<IndexView> {
    match i {
        Some(i) => Some(i@),
        None => None,
    }
}

/// Why everything has to be walked again whatever the event history says, with an
/// index of the given age.
pub fn must_walk_all(prior: Option<&Index>, device: u64, age: u64) -> (r: Option<String>)
    ensures
        index::opt_string(r) == full_reason(opt_index(prior), device, age),
{
    match prior {
        None => Some("no cached index".to_owned()),
        Some(i) => if i.device_id != 0 && device != 0 && i.device_id != device {
            Some("root moved to a different volume".to_owned())
        } else if age > MAX_INCREMENTAL_AGE {
            let mut s = "cached index is ".to_owned();
            s.append(decimal_string(age / 86_400).as_str());
            s.append(" days old");
            Some(s)
        } else {
            None
        },
    }
}

/// Whether `s` is the strategy that follows from the replayed history. Events of
/// which none landed under the root are a namespace mismatch, not quiet: pruning on
/// them would report stale sizes for a tree that did change.
pub open spec fn replay_strategy(
    root: Seq<char>,
    canon: Option<Seq<char>>,
    replay: Replay,
    is_dir: Seq<bool>,
    s: Strategy,
) -> bool {
    match replay {
        Replay::Changed(paths) => {
            let ps = text::strs(paths@);
            let matched = fsevents::matched_upto(root, canon, ps, ps.len());
            if ps.len() > 0 && matched == 0 {
                s matches Strategy::Mtime(why) && why@
                    == "event paths did not match the scanned root"@
            } else {
                s matches Strategy::Events(dirty, n) && n == matched && dirty@
                    == fsevents::closure_upto(root, canon, ps, is_dir, ps.len())
            }
        },
        Replay::Unavailable(why) => s matches Strategy::Mtime(text) && text@
            == "event history unusable: "@ + why@,
    }
}

/// The strategy that follows from the replayed history. `is_dir` tells of each
/// changed path whether what it maps to is a directory.
pub fn after_replay(root: &str, canon: Option<&str>, replay: &Replay, is_dir: &Vec<bool>) -> (r:
    Strategy)
    requires
        replay matches Replay::Changed(paths) ==> is_dir@.len() == paths@.len(),
    ensures
        replay_strategy(root@, index::opt_str(canon), *replay, is_dir@, r),
{
    match replay {
        Replay::Changed(paths) => {
            let (dirty, matched) = dirty_closure(root, canon, paths, is_dir);
            if paths.len() > 0 && matched == 0 {
                Strategy::Mtime("event paths did not match the scanned root".to_owned())
            } else {
                Strategy::Events(dirty, matched)
            }
        },
        Replay::Unavailable(why) => {
            let mut s = "event history unusable: ".to_owned();
            s.append(*why);
            Strategy::Mtime(s)
        },
    }
}

/// Whether `s` is the strategy for a root whose cached index is `prior`: everything
/// where there is a reason for that, otherwise what the replayed history leaves.
pub open spec fn planned(
    root: Seq<char>,
    canon: Option<Seq<char>>,
    prior: Option<IndexView>,
    device: u64,
    age: u64,
    replay: Replay,
    is_dir: Seq<bool>,
    s: Strategy,
) -> bool {
    match full_reason(prior, device, age) {
        Some(why) => s matches Strategy::Full(text) && text@ == why,
        None => replay_strategy(root, canon, replay, is_dir, s),
    }
}

/// Choose a strategy, and say why. Every fallback lands on something that is still
/// correct, only slower: nothing is ever pruned on a guess.
pub fn plan(
    root: &str,
    canon: Option<&str>,
    prior: Option<&Index>,
    device: u64,
    age: u64,
    replay: &Replay,
    is_dir: &Vec<bool>,
) -> (r: Strategy)
    requires
        replay matches Replay::Changed(paths) ==> is_dir@.len() == paths@.len(),
    ensures
        planned(
            root@,
            index::opt_str(canon),
            opt_index(prior),
            device,
            age,
            *replay,
            is_dir@,
            r,
        ),
{
    match must_walk_all(prior, device, age) {
        Some(why) => Strategy::Full(why),
        None => after_replay(root, canon, replay, is_dir),
    }
}

/// Subtrees are only served from the index where an index of the same volume, no
/// older than a week, is there, its event history could be replayed, and where
/// events came back at all some of them landed under the root.
pub proof fn law_never_prunes_on_a_guess(
    root: Seq<char>,
    canon: Option<Seq<char>>,
    prior: Option<IndexView>,
    device: u64,
    age: u64,
    replay: Replay,
    is_dir: Seq<bool>,
    s: Strategy,
)
    requires
        planned(root, canon, prior, device, age, replay, is_dir, s),
        s is Events,
    ensures
        prior matches Some(v) && (v.device_id == 0 || device == 0 || v.device_id == device),
        age <= MAX_INCREMENTAL_AGE,
        replay matches Replay::Changed(paths) && (paths@.len() > 0 ==> fsevents::matched_upto(
            root,
            canon,
            text::strs(paths@),
            paths@.len(),
        ) > 0),
{
    if let Replay::Changed(paths) = replay {
        assert(text::strs(paths@).len() == paths@.len());
    }
}

/// An event-based refresh walks every change again: each changed directory, of each
/// other changed path the directory that holds it, and all above them up to the root.
/// It tells how many changes lie below the root, and visits nothing else.
pub proof fn law_events_walk_every_change(
    root: Seq<char>,
    canon: Option<Seq<char>>,
    prior: Option<IndexView>,
    device: u64,
    age: u64,
    paths: Vec<String>,
    is_dir: Seq<bool>,
    s: Strategy,
)
    requires
        planned(root, canon, prior, device, age, Replay::Changed(paths), is_dir, s),
        is_dir.len() == paths@.len(),
        canon matches Some(c) ==> path::comps(c).len() > 0,
    ensures
        s matches Strategy::Events(dirty, n) ==> {
            &&& n == text::strs(paths@).filter(
                |p: Seq<char>|
                    path::within(p, root) || (canon matches Some(c) && path::within(p, c)),
            ).len()
            &&& dirty@.contains(path::norm(root))
            &&& forall|i: int, at: Seq<char>, d: Seq<char>|
                0 <= i < paths@.len() && #[trigger] fsevents::happened_at(
                    root,
                    canon,
                    paths@[i]@,
                    at,
                ) && path::within(d, root) && path::within(at, d) && (is_dir[i] || !path::same(
                    at,
                    d,
                )) ==> #[trigger] dirty@.contains(path::norm(d))
            &&& forall|d: Seq<char>| #[trigger]
                dirty@.contains(path::norm(d)) && !path::same(d, root) ==> exists|
                    i: int,
                    at: Seq<char>,
                |
                    0 <= i < paths@.len() && #[trigger] fsevents::happened_at(
                        root,
                        canon,
                        paths@[i]@,
                        at,
                    ) && path::within(at, d)
        },
{
    let ps = text::strs(paths@);
    if let Strategy::Events(dirty, n) = s {
        fsevents::law_changes_below_the_root_are_counted(root, canon, ps);
        fsevents::lemma_root_is_visited(root, canon, ps, is_dir, ps.len());
        assert forall|i: int, at: Seq<char>, d: Seq<char>|
            0 <= i < paths@.len() && #[trigger] fsevents::happened_at(
                root,
                canon,
                paths@[i]@,
                at,
            ) && path::within(d, root) && path::within(at, d) && (is_dir[i] || !path::same(
                at,
                d,
            )) implies #[trigger] dirty@.contains(path::norm(d)) by {
            assert(ps[i] == paths@[i]@);
            fsevents::law_every_change_is_walked_again(root, canon, ps, is_dir, i, at);
        }
        assert forall|d: Seq<char>| #[trigger]
            dirty@.contains(path::norm(d)) && !path::same(d, root) implies exists|
            i: int,
            at: Seq<char>,
        |
            0 <= i < paths@.len() && #[trigger] fsevents::happened_at(root, canon, paths@[i]@, at)
                && path::within(at, d) by {
            let i = fsevents::law_nothing_is_walked_without_a_change(root, canon, ps, is_dir, d);
            assert(ps[i] == paths@[i]@);
            let at = choose|at: Seq<char>|
                #[trigger] fsevents::happened_at(root, canon, ps[i], at) && path::within(at, d)
                    && (is_dir[i] || !path::same(at, d));
            assert(fsevents::happened_at(root, canon, paths@[i]@, at));
        }
    }
}

/// Everything is walked just where there is no index, where the index is known to be of
/// another volume than the root, or where it is older than a week. Otherwise the event
/// history is used just where it could be replayed and either is silent or names a path
/// at or below the root, and the times of directories where it could not or does not.
pub proof fn law_strategy_follows_from_what_is_known(
    root: Seq<char>,
    canon: Option<Seq<char>>,
    prior: Option<IndexView>,
    device: u64,
    age: u64,
    replay: Replay,
    is_dir: Seq<bool>,
    s: Strategy,
)
    requires
        planned(root, canon, prior, device, age, replay, is_dir, s),
    ensures
        s is Full <==> {
            ||| prior is None
            ||| prior matches Some(v) && v.device_id != 0 && device != 0 && v.device_id != device
            ||| age > 7 * 24 * 60 * 60
        },
        !(s is Full) ==> (s is Events <==> (replay matches Replay::Changed(paths) && (paths@.len()
            == 0 || exists|i: int|
            0 <= i < paths@.len() && (path::within((#[trigger] paths@[i])@, root) || (
            canon matches Some(c) && path::within(paths@[i]@, c)))))),
        summary(s).0 == Mode::Full <==> s is Full,
        summary(s).0 == Mode::Events <==> s is Events,
        summary(s).0 == Mode::Mtime <==> s is Mtime,
        s matches Strategy::Full(why) ==> summary(s).1 == why@ && summary(s).2 == 0,
        s matches Strategy::Mtime(why) ==> summary(s).1 == why@ && summary(s).2 == 0,
        s matches Strategy::Events(_, n) ==> summary(s).2 == n,
        !(s is Full) && replay is Unavailable ==> (replay matches Replay::Unavailable(why)
            && s matches Strategy::Mtime(told) && why@.is_suffix_of(told@)),
{
    if !(s is Full) {
        match replay {
            Replay::Changed(paths) => {
                let ps = text::strs(paths@);
                let below = |p: Seq<char>|
                    path::within(p, root) || (canon matches Some(c) && path::within(p, c));
                fsevents::law_changes_below_the_root_are_counted(root, canon, ps);
                let some = ps.filter(below);
                if some.len() > 0 {
                    text::lemma_filter_members(ps, below, 0);
                    let i = choose|i: int| 0 <= i < ps.len() && ps[i] == some[0];
                    assert(below(ps[i]));
                    assert(ps[i] == paths@[i]@);
                }
                if exists|i: int|
                    0 <= i < paths@.len() && (path::within((#[trigger] paths@[i])@, root) || (
                    canon matches Some(c) && path::within(paths@[i]@, c))) {
                    let i = choose|i: int|
                        0 <= i < paths@.len() && (path::within((#[trigger] paths@[i])@, root) || (
                        canon matches Some(c) && path::within(paths@[i]@, c)));
                    assert(ps[i] == paths@[i]@);
                    assert(below(ps[i]));
                    text::lemma_filter_keeps(ps, below, i);
                }
            },
            Replay::Unavailable(why) => {
                let told = "event history unusable: "@ + why@;
                assert(told.skip(told.len() - why@.len()) =~= why@);
            },
        }
    }
}

/// The ending of "director...": `y` for one, `ies` for any other number.
pub open spec fn plural_end(n: usize) -> Seq<char> {
    if n == 1 {
        "y"@
    } else {
        "ies"@
    }
}

/// The ending of "director...".
pub fn plural(n: usize) -> (r: &'static str)
    ensures
        r@ == plural_end(n),
{
    if n == 1 {
        "y"
    } else {
        "ies"
    }
}

/// The mode of a strategy, why it was chosen, and how many changes there were.
pub open spec fn summary(s: Strategy) -> (Mode, Seq<char>, usize) {
    match s {
        Strategy::Full(why) => (Mode::Full, why@, 0),
        Strategy::Mtime(why) => (Mode::Mtime, why@, 0),
        Strategy::Events(_, n) => (
            Mode::Events,
            text::decimal(n as nat) + " director"@ + plural_end(n) + " changed since last scan"@,
            n,
        ),
    }
}

/// The mode of a strategy, why it was chosen, and how many changes there were.
pub fn summarize(s: &Strategy) -> (r: (Mode, String, usize))
    ensures
        (r.0, r.1@, r.2) == summary(*s),
{
    match s {
        Strategy::Full(why) => (Mode::Full, why.clone(), 0),
        Strategy::Mtime(why) => (Mode::Mtime, why.clone(), 0),
        Strategy::Events(_, n) => {
            let mut t = decimal_string(*n as u64);
            t.append(" director");
            t.append(plural(*n));
            t.append(" changed since last scan");
            (Mode::Events, t, *n)
        },
    }
}

/// What a refresh came to.
pub struct Refreshed {
    pub tree: Tree,
    pub index: Index,
    pub mode: Mode,
    /// Human-readable explanation of why this mode was chosen.
    pub reason: String,
    /// Directories walked again, when the mode was [`Mode::Events`].
    pub changed_dirs: usize,
    /// Whether the fresh index was written to the cache.
    pub saved: bool,
}

/// Whether `r` is what a refresh with the strategy `s` came to, where it found the
/// tree `t`: the tree and its index, with the mode of the strategy.
pub open spec fn concluded(
    t: TreeView,
    s: Strategy,
    event_id: u64,
    device: u64,
    r: Refreshed,
) -> bool {
    &&& r.tree@ == t
    &&& (r.mode, r.reason@, r.changed_dirs) == summary(s)
    &&& r.index@ == index::index_of_tree(
        t,
        r.mode,
        event_id,
        DEFAULT_THRESHOLD,
        device,
        r.index.scanned_at,
    )
}

/// The outcome of a refresh: the finished tree, with its index. The index is not
/// saved yet.
pub fn conclude(tree: Tree, strategy: &Strategy, event_id: u64, device: u64) -> (r: Refreshed)
    requires
        tree@.wf(),
        index::small_fit(tree@.nodes, DEFAULT_THRESHOLD),
    ensures
        r.tree == tree,
        concluded(tree@, *strategy, event_id, device, r),
        !r.saved,
{
    let (mode, reason, changed_dirs) = summarize(strategy);
    let index = from_tree(&tree, mode, event_id, DEFAULT_THRESHOLD, device);
    Refreshed { tree, index, mode, reason, changed_dirs, saved: false }
}

/// Whether the index of a refresh is of the mode that it reports and has the totals of
/// its tree, and changed directories are only counted where there were events.
pub open spec fn whole(r: Refreshed) -> bool {
    let top = r.index@.dirs[r.index.root_ix as int];
    let n = r.tree@.nodes[r.tree@.root as int];
    &&& r.index.mode == r.mode
    &&& r.index.root_ix < r.index@.dirs.len()
    &&& top.subtree_bytes == n.size
    &&& top.subtree_private == n.private
    &&& top.subtree_files == n.file_count
    &&& r.mode != Mode::Events ==> r.changed_dirs == 0
}

/// A refresh is of one piece: its index is of the mode that it reports and has the
/// totals of its tree, and only event-based ones count changed directories.
pub proof fn law_refresh_is_of_one_piece(
    t: TreeView,
    s: Strategy,
    event_id: u64,
    device: u64,
    r: Refreshed,
)
    requires
        t.wf(),
        !t.nodes[t.root as int].removed,
        concluded(t, s, event_id, device, r),
    ensures
        whole(r),
{
    index::lemma_live_wf(t.nodes);
    let w = index::recorded(t);
    assert(w[0] == t.root);
    assert(r.index@.dirs[0] == index::record(t, DEFAULT_THRESHOLD, 0));
    assert(r.index@.mode == r.index.mode && r.index@.root_ix == r.index.root_ix);
}

/// The index of a refresh remembers where it begins, on which volume, and up to which
/// event it is good.
pub proof fn law_refresh_remembers_where_it_was(
    t: TreeView,
    s: Strategy,
    event_id: u64,
    device: u64,
    r: Refreshed,
)
    requires
        concluded(t, s, event_id, device, r),
    ensures
        r.index@.root == t.root_path,
        r.index@.device_id == device,
        r.index@.last_event_id == event_id,
        r.index@.mode == summary(s).0,
        r.reason@ == summary(s).1,
        r.changed_dirs == summary(s).2,
{
}

// ---- the cached indexes ---------------------------------------------------------------

/// A cached index is told by a name that ends in `.idx`, with something before it.
pub proof fn law_index_files_end_in_idx(p: Seq<char>)
    ensures
        index_file(p) <==> (path::name_of(p) matches Some(n) && n.len() > 4 && ".idx"@.is_suffix_of(
            n,
        )),
{
    reveal_strlit("idx");
    reveal_strlit(".idx");
    assert(".idx"@ =~= seq!['.', 'i', 'd', 'x']);
    assert("idx"@ =~= seq!['i', 'd', 'x']);
    if let Some(n) = path::name_of(p) {
        lemma_extension(n, n.len());
        if ".idx"@.is_suffix_of(n) && n.len() > 4 {
            let end = n.subrange(n.len() - 4, n.len() as int);
            assert(end[0] == n[n.len() - 4] && end[1] == n[n.len() - 3] && end[2] == n[n.len() - 2]
                && end[3] == n[n.len() - 1]);
            reveal_with_fuel(extension, 5);
            assert(n.skip(n.len() - 3) =~= "idx"@);
        }
        if index_file(p) {
            assert(n.subrange(n.len() - 4, n.len() as int) =~= ".idx"@) by {
                let e = n.skip(n.len() - 3);
                assert(e[0] == n[n.len() - 3] && e[1] == n[n.len() - 2] && e[2] == n[n.len() - 1]);
            }
        }
    }
}

/// An extension follows a dot that something stands before.
proof fn lemma_extension(name: Seq<char>, k: nat)
    requires
        k <= name.len(),
    ensures
        extension(name, k) matches Some(e) ==> e.len() + 1 < name.len() && name[name.len()
            - e.len() - 1] == '.' && e == name.skip(name.len() - e.len()),
    decreases k,
{
    if k > 1 && name[k - 1] != '.' {
        lemma_extension(name, (k - 1) as nat);
    }
}

/// Of the indexes that cover a path the one with the deepest root answers, and where any
/// covers it one answers.
pub proof fn law_deepest_root_answers(vs: Seq<IndexView>, p: Seq<char>, r: Option<usize>)
    requires
        answering(vs, p, r),
    ensures
        r matches Some(k) ==> k < vs.len() && path::within(p, vs[k as int].root) && forall|j: int|
            0 <= j < vs.len() && path::within(p, (#[trigger] vs[j]).root) ==> path::comps(
                vs[j].root,
            ).len() <= path::comps(vs[k as int].root).len(),
        r is None ==> forall|j: int|
            0 <= j < vs.len() ==> !path::within(p, (#[trigger] vs[j]).root),
{
    if r is Some {
        let k = r->0;
        assert forall|j: int| 0 <= j < vs.len() && path::within(p, (#[trigger] vs[j]).root) implies
            path::comps(vs[j].root).len() <= path::comps(vs[k as int].root).len() by {
            assert(covers(vs[j], p));
        }
    } else {
        assert forall|j: int| 0 <= j < vs.len() implies !path::within(
            p,
            (#[trigger] vs[j]).root,
        ) by {
            assert(!covers(vs[j], p));
        }
    }
}

/// The last dot of a name and what follows it, where something stands before it.
pub open spec fn extension(name: Seq<char>, k: nat) -> Option<Seq<char>>
    decreases k,
{
    if k <= 1 {
        None
    } else if name[k - 1] == '.' {
        Some(name.skip(k as int))
    } else {
        extension(name, (k - 1) as nat)
    }
}

/// Whether the path names a cached index, by its extension.
pub open spec fn index_file(p: Seq<char>) -> bool {
    path::name_of(p) matches Some(n) && extension(n, n.len()) == Some("idx"@)
}

/// Whether the path names a cached index, by its extension.
pub fn is_index_file(p: &str) -> (r: bool)
    ensures
        r == index_file(p@),
{
    match file_name(p) {
        Some(name) => {
            let cs = chars_of(name.as_str());
            let mut k: usize = cs.len();
            while k > 1
                invariant
                    cs@ == name@,
                    path::name_of(p@) == Some(name@),
                    k <= cs@.len(),
                    extension(name@, name@.len()) == extension(name@, k as nat),
                decreases k,
            {
                if cs[k - 1] == '.' {
                    let ext = text::string_of(
                        vstd::slice::slice_subrange(cs.as_slice(), k, cs.len()),
                    );
                    assert(ext@ =~= name@.skip(k as int));
                    return text::str_eq(ext.as_str(), "idx");
                }
                k -= 1;
            }
            false
        },
        None => false,
    }
}

/// The total bytes of indexes.
pub open spec fn totals(v: Seq<IndexView>) -> Seq<u64> {
    v.map_values(|i: IndexView| i.dirs[i.root_ix as int].subtree_bytes)
}

/// The indexes, each as what it holds.
pub open spec fn indexes_view(v: Seq<Index>) -> Seq<IndexView> {
    v.map_values(|i: Index| i@)
}

/// Cached indexes, largest first.
pub fn largest_first(v: Vec<Index>) -> (r: Vec<Index>)
    requires
        forall|k: int| 0 <= k < v@.len() ==> (#[trigger] v@[k]).root_ix < v@[k].dirs@.len(),
    ensures
        order::sorted_desc(indexes_view(v@), totals(indexes_view(v@)), indexes_view(r@)),
{
    let ghost all = indexes_view(v@);
    let mut keys: Vec<u64> = Vec::new();
    let mut i: usize = 0;
    while i < v.len()
        invariant
            i <= v@.len(),
            all == indexes_view(v@),
            forall|k: int| 0 <= k < v@.len() ==> (#[trigger] v@[k]).root_ix < v@[k].dirs@.len(),
            keys@ == totals(all).take(i as int),
        decreases v@.len() - i,
    {
        assert(v@[i as int].root_ix < v@[i as int].dirs@.len());
        keys.push(v[i].total_bytes());
        i += 1;
        assert(keys@ =~= totals(all).take(i as int));
    }
    assert(keys@ =~= totals(all));
    let p = order_desc(&keys);
    let r = arrange(v, &keys, &p);
    assert(indexes_view(r@) =~= order::arranged(all, p@));
    r
}

/// Whether the index covers the path: its root is the path or lies above it.
pub open spec fn covers(v: IndexView, p: Seq<char>) -> bool {
    path::within(p, v.root)
}

/// Whether `k` is the most specific of the indexes that cover the path: none has a
/// longer root, and no later one an equally long one.
pub open spec fn most_specific(vs: Seq<IndexView>, p: Seq<char>, k: int) -> bool {
    &&& 0 <= k < vs.len()
    &&& covers(vs[k], p)
    &&& forall|j: int|
        0 <= j < vs.len() && covers(#[trigger] vs[j], p) ==> {
            let (a, b) = (path::comps(vs[j].root).len(), path::comps(vs[k].root).len());
            a < b || (a == b && j <= k)
        }
}

/// Which of the cached indexes answers for a path.
pub open spec fn answering(vs: Seq<IndexView>, p: Seq<char>, r: Option<usize>) -> bool {
    match r {
        Some(k) => most_specific(vs, p, k as int),
        None => forall|j: int| 0 <= j < vs.len() ==> !covers(#[trigger] vs[j], p),
    }
}

/// Which indexed root is the most specific one that contains the path.
fn covering_root(roots: &Vec<Index>, p: &str) -> (r: Option<usize>)
    ensures
        answering(indexes_view(roots@), p@, r),
{
    let ghost vs = indexes_view(roots@);
    let mut best: Option<usize> = None;
    let mut depth: usize = 0;
    let mut i: usize = 0;
    while i < roots.len()
        invariant
            vs == indexes_view(roots@),
            i <= roots@.len(),
            answering(vs.take(i as int), p@, best),
            best matches Some(k) ==> depth == path::comps(vs[k as int].root).len(),
        decreases roots@.len() - i,
    {
        let ghost seen = vs.take(i as int);
        let ghost now = vs.take(i + 1);
        assert forall|j: int| 0 <= j < i implies #[trigger] now[j] == seen[j] by {}
        assert(now[i as int] == roots@[i as int]@);
        if path_starts_with(p, roots[i].root.as_str()) {
            let d: usize = components(roots[i].root.as_str()).len();
            assert(d == path::comps(vs[i as int].root).len());
            let better = match best {
                Some(_) => d >= depth,
                None => true,
            };
            if better {
                best = Some(i);
                depth = d;
            }
        }
        assert forall|j: int| 0 <= j < now.len() && covers(#[trigger] now[j], p@) implies (
        best matches Some(k) && ({
            let (a, b) = (path::comps(now[j].root).len(), path::comps(now[k as int].root).len());
            a < b || (a == b && j <= k)
        })) by {
            if j < i {
                assert(now[j] == seen[j]);
                assert(covers(seen[j], p@));
            }
        }
        i += 1;
    }
    assert(vs.take(vs.len() as int) =~= vs);
    best
}

/// The index covering a path: the one cached for exactly that root, otherwise the
/// most specific of the cached ones that contain it.
pub fn index_covering(exact: Option<Index>, roots: Vec<Index>, p: &str) -> (r: Option<Index>)
    ensures
        match exact {
            Some(i) => r == Some(i),
            None => match r {
                Some(i) => exists|k: int|
                    #[trigger] most_specific(indexes_view(roots@), p@, k) && i == roots@[k],
                None => forall|j: int|
                    0 <= j < roots@.len() ==> !covers((#[trigger] roots@[j])@, p@),
            },
        },
{
    if exact.is_some() {
        return exact;
    }
    let mut roots = roots;
    match covering_root(&roots, p) {
        Some(k) => {
            assert(most_specific(indexes_view(roots@), p@, k as int));
            Some(roots.remove(k))
        },
        None => {
            assert forall|j: int| 0 <= j < roots@.len() implies !covers(
                (#[trigger] roots@[j])@,
                p@,
            ) by {
                assert(indexes_view(roots@)[j] == roots@[j]@);
            }
            None
        },
    }
}

/// The cached index for a root, from the bytes of its cache file: the same as
/// [`Index::load`].
pub fn cached(bytes: &[u8], root: &str, canonical: &str) -> (r: Option<Index>)
    ensures
        match r {
            Some(i) => crate::format::decodes_to(bytes@, i@) && (path::same(i.root@, canonical@)
                || path::same(i.root@, root@)),
            None => forall|i: IndexView| #[trigger]
                crate::format::decodes_to(bytes@, i) ==> !path::same(i.root, canonical@)
                    && !path::same(i.root, root@),
        },
{
    Index::load(bytes, root, canonical)
}

} // verus!
