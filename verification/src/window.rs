//! What the window shows, and how it changes with what the user does and with what
//! comes back from the scan and from the Trash.

use std::collections::HashSet;

use vstd::prelude::*;

use crate::caches;
use crate::caches::{detect, CacheHit, HitView};
use crate::order;
use crate::order::sort_desc;
use crate::removal;
use crate::scan;
use crate::scan::{Tree, TreeView};
use crate::text;
use crate::text::decimal_string;
use crate::util;
use crate::util::{human, total};

verus! {

broadcast use vstd::std_specs::hash::group_hash_axioms;

/// The views of a scanned tree.
#[derive(Clone, Copy, PartialEq, Eq, Debug, Structural)]
pub enum Tab {
    Tree,
    Treemap,
    Caches,
}

/// An item of a trash operation that waits for the user's word.
pub struct Doomed {
    pub node: usize,
    pub path: String,
    pub size: u64,
}

/// The items, each as its node, its path and its size.
pub open spec fn doomed_view(v: Seq<Doomed>) -> Seq<(usize, Seq<char>, u64)> {
    v.map_values(|d: Doomed| (d.node, d.path@, d.size))
}

/// What the user does.
pub enum Action {
    Toggle(usize),
    Select(usize),
    MapRoot(usize),
    Reveal(String),
    OpenPath(String),
    RequestTrash(Vec<Doomed>),
    ToggleCache(usize),
    CacheSelectAll,
    CacheSelectNone,
    RequestTrashCaches,
    ConfirmTrash,
    CancelTrash,
    StartScan(String),
}

/// What is to be done for it outside the window.
pub enum Effect {
    Nothing,
    Reveal(String),
    Open(String),
    Scan(String),
    Trash(Vec<Doomed>),
}

/// What the window shows.
pub struct Window {
    pub tree: Option<Tree>,
    pub hits: Vec<CacheHit>,
    pub scanning: bool,
    pub trashing: bool,
    pub expanded: HashSet<usize>,
    pub selected: Option<usize>,
    pub map_root: Option<usize>,
    pub chosen: HashSet<usize>,
    pub pending: Option<Vec<Doomed>>,
    pub status: String,
}

/// What the window shows, for specifications.
#[verifier::ext_equal]
pub struct WindowView {
    pub tree: Option<TreeView>,
    pub hits: Seq<HitView>,
    pub scanning: bool,
    pub trashing: bool,
    pub expanded: Set<usize>,
    pub selected: Option<usize>,
    pub map_root: Option<usize>,
    pub chosen: Set<usize>,
    pub pending: Option<Seq<(usize, Seq<char>, u64)>>,
    pub status: Seq<char>,
}

impl View for Window {
    type V = WindowView;

    open spec fn view(&self) -> WindowView {
        WindowView {
            tree: match self.tree {
                Some(t) => Some(t@),
                None => None,
            },
            hits: caches::hits_view(self.hits@),
            scanning: self.scanning,
            trashing: self.trashing,
            expanded: self.expanded@,
            selected: self.selected,
            map_root: self.map_root,
            chosen: self.chosen@,
            pending: match self.pending {
                Some(p) => Some(doomed_view(p@)),
                None => None,
            },
            status: self.status@,
        }
    }
}

/// Whether a node, if there is one, is one of the tree's.
pub open spec fn in_tree(t: TreeView, i: Option<usize>) -> bool {
    i matches Some(i) ==> i < t.nodes.len()
}

impl WindowView {
    /// The tree hangs together, and what is selected and what the map shows are
    /// nodes of it.
    pub open spec fn wf(self) -> bool {
        self.tree matches Some(t) ==> t.wf() && in_tree(t, self.selected) && in_tree(
            t,
            self.map_root,
        )
    }
}

impl Window {
    /// An empty window.
    pub fn new() -> (r: Window)
        ensures
            r@ == (WindowView {
                tree: None,
                hits: Seq::empty(),
                scanning: false,
                trashing: false,
                expanded: Set::empty(),
                selected: None,
                map_root: None,
                chosen: Set::empty(),
                pending: None,
                status: Seq::empty(),
            }),
            r@.wf(),
    {
        let r = Window {
            tree: None,
            hits: Vec::new(),
            scanning: false,
            trashing: false,
            expanded: HashSet::new(),
            selected: None,
            map_root: None,
            chosen: HashSet::new(),
            pending: None,
            status: String::new(),
        };
        assert(r@.hits =~= Seq::<HitView>::empty());
        assert(r@.expanded =~= Set::<usize>::empty());
        assert(r@.chosen =~= Set::<usize>::empty());
        assert(r@.status =~= Seq::<char>::empty());
        r
    }
}

/// The set with `i` put in or taken out.
pub open spec fn toggled(s: Set<usize>, i: usize) -> Set<usize> {
    if s.contains(i) {
        s.remove(i)
    } else {
        s.insert(i)
    }
}

fn toggle(s: &mut HashSet<usize>, i: usize)
    ensures
        final(s)@ == toggled(old(s)@, i),
{
    let ghost before = s@;
    if s.remove(&i) {
        assert(s@ =~= before.remove(i));
    } else {
        assert(s@ =~= before);
        s.insert(i);
    }
}

// ---- what the user does ---------------------------------------------------------------

/// The caches among the first `k` that are chosen.
pub open spec fn chosen_upto(hs: Seq<HitView>, chosen: Set<usize>, k: nat) -> Seq<
    (usize, Seq<char>, u64),
>
    decreases k,
{
    if k == 0 {
        Seq::empty()
    } else {
        let before = chosen_upto(hs, chosen, (k - 1) as nat);
        let h = hs[k - 1];
        if chosen.contains((k - 1) as usize) {
            before.push((h.node_idx, h.path, h.size))
        } else {
            before
        }
    }
}

/// The sizes of items.
pub open spec fn doomed_sizes(v: Seq<(usize, Seq<char>, u64)>) -> Seq<u64> {
    v.map_values(|d: (usize, Seq<char>, u64)| d.2)
}

/// Whether an action names a node that is there.
pub open spec fn fits(w: WindowView, a: Action) -> bool {
    w.tree matches Some(t) ==> match a {
        Action::Select(i) => i < t.nodes.len(),
        Action::MapRoot(i) => i < t.nodes.len(),
        _ => true,
    }
}

/// The window at the start of a scan.
pub open spec fn cleared(w: WindowView) -> WindowView {
    WindowView {
        tree: None,
        hits: Seq::empty(),
        scanning: true,
        expanded: Set::empty(),
        selected: None,
        map_root: None,
        chosen: Set::empty(),
        pending: None,
        status: "Scanning…"@,
        ..w
    }
}

/// Whether an action turns the window `w` into `v` and has the effect `e`.
pub open spec fn acts(w: WindowView, a: Action, v: WindowView, e: Effect) -> bool {
    match a {
        Action::Toggle(i) => v == (WindowView { expanded: toggled(w.expanded, i), ..w })
            && e is Nothing,
        Action::Select(i) => v == (WindowView {
            selected: Some(i),
            map_root: if w.tree matches Some(t) && t.nodes[i as int].is_dir {
                Some(i)
            } else {
                w.map_root
            },
            ..w
        }) && e is Nothing,
        Action::MapRoot(i) => v == (WindowView { selected: Some(i), map_root: Some(i), ..w })
            && e is Nothing,
        Action::Reveal(p) => v == w && (e matches Effect::Reveal(q) && q@ == p@),
        Action::OpenPath(p) => v == w && (e matches Effect::Open(q) && q@ == p@),
        Action::RequestTrash(items) => v == (WindowView {
            pending: Some(doomed_view(items@)),
            ..w
        }) && e is Nothing,
        Action::ToggleCache(i) => v == (WindowView { chosen: toggled(w.chosen, i), ..w })
            && e is Nothing,
        Action::CacheSelectAll => v == (WindowView {
            chosen: Set::new(|i: usize| i < w.hits.len()),
            ..w
        }) && e is Nothing,
        Action::CacheSelectNone => v == (WindowView { chosen: Set::empty(), ..w }) && e is Nothing,
        Action::RequestTrashCaches => {
            let picked = chosen_upto(w.hits, w.chosen, w.hits.len());
            e is Nothing && if picked.len() == 0 {
                v == w
            } else {
                exists|s: Seq<(usize, Seq<char>, u64)>| #[trigger]
                    order::sorted_desc(picked, doomed_sizes(picked), s) && v == (WindowView {
                        pending: Some(s),
                        ..w
                    })
            }
        },
        Action::ConfirmTrash => if w.trashing || w.pending is None {
            v == w && e is Nothing
        } else {
            v == (WindowView { pending: None, trashing: true, status: "Moving to Trash…"@, ..w })
                && (e matches Effect::Trash(items) && doomed_view(items@) == w.pending->0)
        },
        Action::CancelTrash => v == (WindowView { pending: None, ..w }) && e is Nothing,
        Action::StartScan(p) => if w.scanning {
            v == w && e is Nothing
        } else {
            v == cleared(w) && (e matches Effect::Scan(q) && q@ == p@)
        },
    }
}

impl Window {
    fn picked(&self) -> (r: Vec<Doomed>)
        ensures
            doomed_view(r@) == chosen_upto(self@.hits, self@.chosen, self@.hits.len()),
    {
        let ghost hs = self@.hits;
        let mut out: Vec<Doomed> = Vec::new();
        let mut i: usize = 0;
        assert(doomed_view(out@) =~= Seq::<(usize, Seq<char>, u64)>::empty());
        while i < self.hits.len()
            invariant
                hs == self@.hits,
                i <= hs.len(),
                hs.len() == self.hits@.len(),
                doomed_view(out@) == chosen_upto(hs, self@.chosen, i as nat),
            decreases hs.len() - i,
        {
            let h = &self.hits[i];
            assert(hs[i as int] == h@);
            if self.chosen.contains(&i) {
                let ghost before = out@;
                out.push(Doomed { node: h.node_idx, path: h.path.clone(), size: h.size });
                assert(doomed_view(out@) =~= doomed_view(before).push(
                    (h.node_idx, h.path@, h.size),
                ));
            }
            i += 1;
        }
        out
    }

    fn choose_all(&mut self)
        ensures
            final(self)@ == (WindowView {
                chosen: Set::new(|i: usize| i < old(self)@.hits.len()),
                ..old(self)@
            }),
    {
        let ghost before = self@;
        let n: usize = self.hits.len();
        assert(before.hits.len() == n);
        let mut all: HashSet<usize> = HashSet::new();
        let mut i: usize = 0;
        while i < n
            invariant
                i <= n,
                all@ == Set::new(|k: usize| k < i),
            decreases n - i,
        {
            all.insert(i);
            i += 1;
            assert(all@ =~= Set::new(|k: usize| k < i));
        }
        self.chosen = all;
        assert(self@ =~= WindowView {
            chosen: Set::new(|i: usize| i < before.hits.len()),
            ..before
        });
    }

    /// Apply what the user did. What is to be done outside the window comes back.
    pub fn apply(&mut self, a: Action) -> (e: Effect)
        requires
            old(self)@.wf(),
            fits(old(self)@, a),
        ensures
            acts(old(self)@, a, final(self)@, e),
            final(self)@.wf(),
    {
        let ghost w = self@;
        match a {
            Action::Toggle(i) => {
                toggle(&mut self.expanded, i);
                assert(self@ =~= WindowView { expanded: toggled(w.expanded, i), ..w });
                Effect::Nothing
            },
            Action::Select(i) => {
                let is_dir = match &self.tree {
                    Some(t) => {
                        assert(t@.nodes[i as int] == t.nodes@[i as int]@);
                        t.nodes[i].is_dir
                    },
                    None => false,
                };
                self.selected = Some(i);
                if is_dir {
                    self.map_root = Some(i);
                }
                Effect::Nothing
            },
            Action::MapRoot(i) => {
                self.map_root = Some(i);
                self.selected = Some(i);
                Effect::Nothing
            },
            Action::Reveal(p) => Effect::Reveal(p),
            Action::OpenPath(p) => Effect::Open(p),
            Action::RequestTrash(items) => {
                self.pending = Some(items);
                Effect::Nothing
            },
            Action::ToggleCache(i) => {
                toggle(&mut self.chosen, i);
                assert(self@ =~= WindowView { chosen: toggled(w.chosen, i), ..w });
                Effect::Nothing
            },
            Action::CacheSelectAll => {
                self.choose_all();
                Effect::Nothing
            },
            Action::CacheSelectNone => {
                self.chosen = HashSet::new();
                assert(self@ =~= WindowView { chosen: Set::empty(), ..w });
                Effect::Nothing
            },
            Action::RequestTrashCaches => {
                let items = self.picked();
                let ghost all = doomed_view(items@);
                assert(all.len() == items@.len());
                if items.len() > 0 {
                    let sorted = largest_doomed_first(items);
                    self.pending = Some(sorted);
                    assert(self@ =~= WindowView { pending: Some(doomed_view(sorted@)), ..w });
                }
                Effect::Nothing
            },
            Action::ConfirmTrash => {
                if self.trashing {
                    return Effect::Nothing;
                }
                match self.pending.take() {
                    Some(items) => {
                        self.trashing = true;
                        self.status = "Moving to Trash…".to_owned();
                        Effect::Trash(items)
                    },
                    None => Effect::Nothing,
                }
            },
            Action::CancelTrash => {
                self.pending = None;
                Effect::Nothing
            },
            Action::StartScan(p) => {
                if self.scanning {
                    return Effect::Nothing;
                }
                self.tree = None;
                self.hits = Vec::new();
                self.chosen = HashSet::new();
                self.selected = None;
                self.map_root = None;
                self.expanded = HashSet::new();
                self.pending = None;
                self.scanning = true;
                self.status = "Scanning…".to_owned();
                assert(self@.hits =~= Seq::<HitView>::empty());
                assert(self@.expanded =~= Set::<usize>::empty());
                assert(self@.chosen =~= Set::<usize>::empty());
                assert(self@ =~= cleared(w));
                Effect::Scan(p)
            },
        }
    }
}

fn largest_doomed_first(items: Vec<Doomed>) -> (r: Vec<Doomed>)
    ensures
        order::sorted_desc(
            doomed_view(items@),
            doomed_sizes(doomed_view(items@)),
            doomed_view(r@),
        ),
{
    let ghost all = doomed_view(items@);
    let ghost want = doomed_sizes(all);
    let mut keys: Vec<u64> = Vec::new();
    let mut i: usize = 0;
    while i < items.len()
        invariant
            all == doomed_view(items@),
            want == doomed_sizes(all),
            i <= items@.len(),
            keys@ == want.take(i as int),
        decreases items@.len() - i,
    {
        keys.push(items[i].size);
        i += 1;
        assert(keys@ =~= want.take(i as int));
    }
    assert(keys@ =~= want);
    let ghost before = items@;
    let r = sort_desc(items, &keys);
    proof {
        let p = choose|p: Seq<usize>| #[trigger]
            order::is_order(want, p) && r@ == order::arranged(before, p);
        assert forall|k: int| 0 <= k < p.len() implies #[trigger] doomed_view(r@)[k]
            == order::arranged(all, p)[k] by {
            assert(p[k] < want.len());
            assert(r@[k] == before[p[k] as int]);
        }
        assert(doomed_view(r@) =~= order::arranged(all, p));
    }
    r
}

// ---- what comes back ------------------------------------------------------------------

/// What is said of a finished scan.
pub open spec fn scanned_text(t: TreeView, secs: Seq<char>, hs: Seq<HitView>) -> Seq<char> {
    let r = t.nodes[t.root as int];
    util::human_size(r.size) + " across "@ + text::decimal(r.file_count as nat) + " files in "@
        + secs + "s · "@ + util::human_size(util::sum64(caches::hit_sizes(hs)))
        + " reclaimable in dev caches"@
}

/// Whether the hits are those of a tree, the largest first.
pub open spec fn hits_of(t: TreeView, hs: Seq<HitView>) -> bool {
    order::sorted_desc(
        caches::hits_upto(t, t.nodes.len()),
        caches::hit_sizes(caches::hits_upto(t, t.nodes.len())),
        hs,
    )
}

/// What all the hits hold.
pub fn hits_total(hits: &Vec<CacheHit>) -> (r: u64)
    ensures
        r == util::sum64(caches::hit_sizes(caches::hits_view(hits@))),
{
    let ghost want = caches::hit_sizes(caches::hits_view(hits@));
    let mut v: Vec<u64> = Vec::new();
    let mut i: usize = 0;
    while i < hits.len()
        invariant
            want == caches::hit_sizes(caches::hits_view(hits@)),
            i <= hits@.len(),
            v@ == want.take(i as int),
        decreases hits@.len() - i,
    {
        v.push(hits[i].size);
        i += 1;
        assert(v@ =~= want.take(i as int));
    }
    assert(want.take(i as int) =~= want);
    total(&v)
}

/// What came of an item: its node, whether it was trashed, and its size.
pub type Fate = (usize, bool, u64);

/// The tree without what was trashed among the first `k`.
pub open spec fn without_upto(t: TreeView, out: Seq<Fate>, k: nat) -> TreeView
    decreases k,
{
    if k == 0 {
        t
    } else {
        let before = without_upto(t, out, (k - 1) as nat);
        if out[k - 1].1 {
            removal::without(before, out[k - 1].0 as int)
        } else {
            before
        }
    }
}

/// The sizes of what was trashed among the first `k`.
pub open spec fn gone_sizes(out: Seq<Fate>, k: nat) -> Seq<u64>
    decreases k,
{
    if k == 0 {
        Seq::empty()
    } else {
        let before = gone_sizes(out, (k - 1) as nat);
        if out[k - 1].1 {
            before.push(out[k - 1].2)
        } else {
            before
        }
    }
}

/// What is said of what was trashed.
pub open spec fn trashed_text(out: Seq<Fate>) -> Seq<char> {
    let gone = gone_sizes(out, out.len());
    "Moved "@ + text::decimal(gone.len()) + " item(s) to Trash, freed "@ + util::human_size(
        util::sum64(gone),
    ) + (if gone.len() < out.len() {
        " — "@ + text::decimal((out.len() - gone.len()) as nat) + " failed"@
    } else {
        Seq::empty()
    })
}

/// The node, or the root where there is none or it was removed.
pub open spec fn alive(t: TreeView, i: Option<usize>) -> Option<usize> {
    match i {
        Some(k) => if t.nodes[k as int].removed {
            Some(t.root)
        } else {
            Some(k)
        },
        None => Some(t.root),
    }
}

proof fn lemma_gone_bound(out: Seq<Fate>, k: nat)
    ensures
        gone_sizes(out, k).len() <= k,
    decreases k,
{
    if k > 0 {
        lemma_gone_bound(out, (k - 1) as nat);
    }
}

fn alive_in(t: &Tree, i: Option<usize>) -> (r: Option<usize>)
    requires
        t@.wf(),
        in_tree(t@, i),
    ensures
        r == alive(t@, i),
        in_tree(t@, r),
{
    match i {
        Some(k) => {
            assert(t@.nodes[k as int] == t.nodes@[k as int]@);
            if t.nodes[k].removed {
                Some(t.root)
            } else {
                Some(k)
            }
        },
        None => Some(t.root),
    }
}

/// Removes what was trashed.
fn remove_gone(t: &mut Tree, out: &Vec<Fate>)
    requires
        old(t)@.wf(),
        forall|i: int|
            0 <= i < out@.len() && (#[trigger] out@[i]).1 ==> out@[i].0 < old(t)@.nodes.len(),
    ensures
        final(t)@ == without_upto(old(t)@, out@, out@.len()),
        final(t)@.wf(),
        final(t)@.nodes.len() == old(t)@.nodes.len(),
{
    let ghost t0 = t@;
    let mut i: usize = 0;
    while i < out.len()
        invariant
            i <= out@.len(),
            t@ == without_upto(t0, out@, i as nat),
            t@.wf(),
            t@.nodes.len() == t0.nodes.len(),
            forall|i: int|
                0 <= i < out@.len() && (#[trigger] out@[i]).1 ==> out@[i].0 < t0.nodes.len(),
        decreases out@.len() - i,
    {
        if out[i].1 {
            assert(out@[i as int].0 < t0.nodes.len());
            t.remove(out[i].0);
        }
        i += 1;
    }
}

/// The node, or the root where there is none or it is not in the tree.
pub open spec fn still_there(t: TreeView, i: Option<usize>) -> Option<usize> {
    match i {
        Some(k) => if k < t.nodes.len() {
            Some(k)
        } else {
            Some(t.root)
        },
        None => Some(t.root),
    }
}

fn still_in(t: &Tree, i: Option<usize>) -> (r: Option<usize>)
    ensures
        r == still_there(t@, i),
{
    match i {
        Some(k) => if k < t.nodes.len() {
            Some(k)
        } else {
            Some(t.root)
        },
        None => Some(t.root),
    }
}

/// The window with what a running scan has found so far. Caches are only listed once
/// the scan is finished, and nothing changes below a trash operation.
pub open spec fn browsing(w: WindowView, t: TreeView) -> WindowView {
    if w.scanning && !w.trashing {
        WindowView {
            tree: Some(t),
            expanded: if w.tree is None {
                w.expanded.insert(t.root)
            } else {
                w.expanded
            },
            selected: still_there(t, w.selected),
            map_root: still_there(t, w.map_root),
            ..w
        }
    } else {
        w
    }
}

/// What the user opened and selected in one snapshot of a running scan stays so in the
/// next one, which has all its nodes.
pub proof fn law_browsing_goes_on(w: WindowView, a: TreeView, b: TreeView)
    requires
        w.wf(),
        w.scanning && !w.trashing,
        w.tree == Some(a),
        w.selected is Some,
        w.map_root is Some,
        a.nodes.len() <= b.nodes.len(),
    ensures
        browsing(w, b) == (WindowView { tree: Some(b), ..w }),
{
}

impl Window {
    /// A running scan has found so much.
    pub fn partial(&mut self, tree: Tree)
        requires
            old(self)@.wf(),
            tree@.wf(),
        ensures
            final(self)@ == browsing(old(self)@, tree@),
            final(self)@.wf(),
    {
        if !self.scanning || self.trashing {
            return;
        }
        if self.tree.is_none() {
            self.expanded.insert(tree.root);
        }
        self.selected = still_in(&tree, self.selected);
        self.map_root = still_in(&tree, self.map_root);
        self.tree = Some(tree);
    }

    /// A scan is finished. `secs` is how long it took.
    pub fn scanned(&mut self, tree: Tree, secs: &str)
        requires
            tree@.wf(),
        ensures
            hits_of(tree@, final(self)@.hits),
            final(self)@ == (WindowView {
                tree: Some(tree@),
                hits: final(self)@.hits,
                scanning: false,
                expanded: old(self)@.expanded.insert(tree.root),
                selected: Some(tree.root),
                map_root: Some(tree.root),
                status: scanned_text(tree@, secs@, final(self)@.hits),
                ..old(self)@
            }),
            final(self)@.wf(),
    {
        proof {
            scan::lemma_wf_traceable(tree@);
        }
        let hits = detect(&tree);
        assert(tree@.nodes[tree.root as int] == tree.nodes@[tree.root as int]@);
        let mut s = human(tree.nodes[tree.root].size);
        s.append(" across ");
        s.append(decimal_string(tree.nodes[tree.root].file_count).as_str());
        s.append(" files in ");
        s.append(secs);
        s.append("s · ");
        s.append(human(hits_total(&hits)).as_str());
        s.append(" reclaimable in dev caches");
        self.hits = hits;
        self.selected = Some(tree.root);
        self.map_root = Some(tree.root);
        self.expanded.insert(tree.root);
        self.tree = Some(tree);
        self.scanning = false;
        self.status = s;
    }

    /// A scan ended without a tree.
    pub fn scan_lost(&mut self)
        ensures
            final(self)@ == (WindowView { scanning: false, status: "Scan failed."@, ..old(self)@ }),
    {
        self.scanning = false;
        self.status = "Scan failed.".to_owned();
    }

    /// A trash operation is finished.
    pub fn trashed(&mut self, out: &Vec<Fate>)
        requires
            old(self)@.wf(),
            old(self)@.tree matches Some(t) ==> forall|i: int|
                0 <= i < out@.len() && (#[trigger] out@[i]).1 ==> out@[i].0 < t.nodes.len(),
        ensures
            final(self)@.wf(),
            match old(self)@.tree {
                Some(t) => {
                    let left = without_upto(t, out@, out@.len());
                    hits_of(left, final(self)@.hits) && final(self)@ == (WindowView {
                        tree: Some(left),
                        hits: final(self)@.hits,
                        chosen: Set::empty(),
                        selected: alive(left, old(self)@.selected),
                        map_root: alive(left, old(self)@.map_root),
                        trashing: false,
                        status: trashed_text(out@),
                        ..old(self)@
                    })
                },
                None => final(self)@ == (WindowView {
                    chosen: Set::empty(),
                    trashing: false,
                    status: trashed_text(out@),
                    ..old(self)@
                }),
            },
    {
        match self.tree.take() {
            Some(tree) => {
                let mut t = tree;
                remove_gone(&mut t, out);
                proof {
                    scan::lemma_wf_traceable(t@);
                }
                self.hits = detect(&t);
                self.selected = alive_in(&t, self.selected);
                self.map_root = alive_in(&t, self.map_root);
                self.tree = Some(t);
            },
            None => {},
        }
        self.chosen = HashSet::new();
        assert(self@.chosen =~= Set::<usize>::empty());
        self.trashing = false;
        let mut gone: Vec<u64> = Vec::new();
        let mut i: usize = 0;
        while i < out.len()
            invariant
                i <= out@.len(),
                gone@ == gone_sizes(out@, i as nat),
            decreases out@.len() - i,
        {
            if out[i].1 {
                gone.push(out[i].2);
            }
            i += 1;
        }
        proof {
            lemma_gone_bound(out@, out@.len());
        }
        let mut s = "Moved ".to_owned();
        s.append(decimal_string(gone.len() as u64).as_str());
        s.append(" item(s) to Trash, freed ");
        s.append(human(total(&gone)).as_str());
        let failed: usize = out.len() - gone.len();
        let tail = if failed > 0 {
            let mut t = " — ".to_owned();
            t.append(decimal_string(failed as u64).as_str());
            t.append(" failed");
            t
        } else {
            String::new()
        };
        s.append(tail.as_str());
        self.status = s;
    }

    /// A trash operation ended without an answer.
    pub fn trash_lost(&mut self)
        ensures
            final(self)@ == (WindowView {
                trashing: false,
                status: "Trash failed."@,
                ..old(self)@
            }),
    {
        self.trashing = false;
        self.status = "Trash failed.".to_owned();
    }
}

/// Nothing is trashed without the user's word: only a confirmation carries a trash
/// operation out, and of just what was pending.
pub proof fn law_trash_needs_confirmation(w: WindowView, a: Action, v: WindowView, e: Effect)
    requires
        acts(w, a, v, e),
        e is Trash,
    ensures
        a is ConfirmTrash,
        !w.trashing,
        e matches Effect::Trash(items) && w.pending == Some(doomed_view(items@)),
        v.pending is None && v.trashing,
{
}

} // verus!
