//! What taking something out of a tree does to it, and what the window promises.

use vstd::prelude::*;

use crate::caches::HitView;
use crate::forest;
use crate::forest::Forest;
use crate::order;
use crate::removal;
use crate::scan;
use crate::scan::TreeView;
use crate::text;
use crate::util;
use crate::window;
use crate::window::{Action, Effect, Fate, WindowView};

verus! {

// ---- taking out -----------------------------------------------------------------------------

/// What lies below a node are those that have it above them.
proof fn lemma_below_is_above(f: Forest, x: int, i: int)
    requires
        f.wf(),
        0 <= x < f.len(),
        0 <= i < f.len(),
    ensures
        forest::walk(f, x).contains(i as usize) <==> forest::lineage(f, i).contains(x as usize),
    decreases forest::rank(f, i),
{
    let w = forest::walk(f, x);
    let l = forest::lineage(f, i);
    forest::lemma_rank(f);
    forest::lemma_lineage(f, i);
    assert(w[0] == x as usize);
    if i == x {
        assert(l[l.len() - 1] == x as usize);
    } else {
        match f.par[i] {
            Some(p) => {
                lemma_below_is_above(f, x, p as int);
                let up = forest::lineage(f, p as int);
                assert(l == up.push(i as usize));
                if up.contains(x as usize) {
                    let k = choose|k: int| 0 <= k < up.len() && up[k] == x as usize;
                    assert(l[k] == x as usize);
                    let j = choose|j: int| 0 <= j < w.len() && w[j] == p;
                    assert(f.kids[p as int].contains(i as usize));
                    let m = choose|m: int|
                        0 <= m < f.kids[p as int].len() && f.kids[p as int][m] == i as usize;
                    let q = forest::lemma_walk_kid_after(f, x, j, m);
                    assert(w[q] == i as usize);
                }
                if l.contains(x as usize) {
                    let k = choose|k: int| 0 <= k < l.len() && l[k] == x as usize;
                    assert(up[k] == x as usize);
                }
                if w.contains(i as usize) {
                    let j = choose|j: int| 0 <= j < w.len() && w[j] == i as usize;
                    forest::lemma_walk_member(f, x, j);
                }
            },
            None => {
                if w.contains(i as usize) {
                    let j = choose|j: int| 0 <= j < w.len() && w[j] == i as usize;
                    forest::lemma_walk_member(f, x, j);
                }
            },
        }
    }
}

/// Taking a node out marks it and all that hangs below it as removed, and nothing else; it
/// is no one's child any more, and all other nodes keep their parents, their children,
/// their names and, but for those above it, their totals. Taking it out again changes
/// nothing.
pub proof fn law_removal_takes_out_the_subtree(t: TreeView, idx: int, i: int)
    requires
        t.wf(),
        0 <= idx < t.nodes.len(),
        0 <= i < t.nodes.len(),
        !t.nodes[idx].removed,
    ensures
        removal::without(t, idx).root == t.root,
        removal::without(t, idx).root_path == t.root_path,
        removal::without(t, idx).nodes.len() == t.nodes.len(),
        removal::without(removal::without(t, idx), idx) == removal::without(t, idx),
        ({
            let a = t.nodes[i];
            let b = removal::without(t, idx).nodes[i];
            let up = forest::lineage(scan::links(t.nodes), i);
            &&& b.removed <==> a.removed || up.contains(idx as usize)
            &&& b.name == a.name
            &&& b.is_dir == a.is_dir
            &&& b.mtime_ns == a.mtime_ns
            &&& b.synthetic == a.synthetic
            &&& i != idx ==> b.parent == a.parent
            &&& i == idx ==> b.parent is None
            &&& !forest::lineage(scan::links(t.nodes), idx).contains(i as usize) || i == idx
                ==> b.size == a.size && b.private == a.private && b.file_count == a.file_count
            &&& forall|c: usize| #[trigger]
                b.children.contains(c) <==> a.children.contains(c) && c != idx
        }),
{
    let ns = t.nodes;
    let f = scan::links(ns);
    let out = removal::without(t, idx).nodes;
    let keep = removal::other_than(idx);
    assert(out[i] == removal::node_without(ns, idx, i));
    assert(out[idx] == removal::node_without(ns, idx, idx));
    lemma_below_is_above(f, idx, i);
    lemma_below_is_above(f, idx, idx);
    forest::lemma_lineage(f, idx);
    assert(forest::lineage(f, idx).contains(idx as usize));
    let l = forest::lineage(f, idx);
    assert(!removal::above(ns, idx, idx)) by {
        if l.drop_last().contains(idx as usize) {
            let k = choose|k: int| 0 <= k < l.drop_last().len() && l.drop_last()[k] == idx as usize;
            assert(l[k] == l[l.len() - 1]);
        }
    }
    if !l.contains(i as usize) {
        assert(!removal::above(ns, i, idx)) by {
            if l.drop_last().contains(i as usize) {
                let k = choose|k: int| 0 <= k < l.drop_last().len()
                    && l.drop_last()[k] == i as usize;
                assert(l[k] == i as usize);
            }
        }
    }
    let kids = ns[i].children;
    assert(f.kids[i] == kids);
    assert forall|c: usize| #[trigger] out[i].children.contains(c) <==> kids.contains(c) && c
        != idx by {
        if ns[idx].parent == Some(i as usize) {
            let some = kids.filter(keep);
            if some.contains(c) {
                let k = choose|k: int| 0 <= k < some.len() && some[k] == c;
                text::lemma_filter_members(kids, keep, k);
            }
            if kids.contains(c) && c != idx {
                let k = choose|k: int| 0 <= k < kids.len() && kids[k] == c;
                assert(keep(c));
                text::lemma_filter_keeps(kids, keep, k);
            }
        } else if kids.contains(c) {
            let k = choose|k: int| 0 <= k < kids.len() && kids[k] == c;
            assert(f.par[f.kids[i][k] as int] == Some(i as usize));
            assert(f.par[idx] == ns[idx].parent);
        }
    }
}

// ---- what the user does -----------------------------------------------------------------------

/// What is opened or chosen is put in, and taken out again the next time; nothing else
/// changes.
pub proof fn law_toggling_twice_changes_nothing(s: Set<usize>, i: usize, j: usize)
    ensures
        window::toggled(s, i).contains(i) <==> !s.contains(i),
        i != j ==> (window::toggled(s, i).contains(j) <==> s.contains(j)),
        window::toggled(window::toggled(s, i), i) == s,
{
    assert(window::toggled(window::toggled(s, i), i) =~= s);
}

/// Only a scan, a confirmation or a request touches what is not shown: whatever else the
/// user does, the tree, the caches and what runs stay as they are, and nothing is deleted.
pub proof fn law_browsing_changes_only_the_view(
    w: WindowView,
    a: Action,
    v: WindowView,
    e: Effect,
)
    requires
        window::acts(w, a, v, e),
        !(a is StartScan),
    ensures
        v.tree == w.tree,
        v.hits == w.hits,
        v.scanning == w.scanning,
        !(a is ConfirmTrash) ==> v.trashing == w.trashing && v.status == w.status && !(e is Trash),
        !(e is Scan),
        !(a is Toggle) ==> v.expanded == w.expanded,
        !(a is Select || a is MapRoot) ==> v.selected == w.selected && v.map_root == w.map_root,
        !(a is ToggleCache || a is CacheSelectAll || a is CacheSelectNone) ==> v.chosen == w.chosen,
        a matches Action::Select(i) ==> v.selected == Some(i) && (w.tree matches Some(t) ==> (
        t.nodes[i as int].is_dir ==> v.map_root == Some(i)) && (!t.nodes[i as int].is_dir
            ==> v.map_root == w.map_root)),
        a matches Action::MapRoot(i) ==> v.selected == Some(i) && v.map_root == Some(i),
        a matches Action::Toggle(i) ==> v.expanded == window::toggled(w.expanded, i),
        a matches Action::ToggleCache(i) ==> v.chosen == window::toggled(w.chosen, i),
        a is CacheSelectAll ==> forall|i: usize| #[trigger]
            v.chosen.contains(i) <==> i < w.hits.len(),
        a is CacheSelectNone ==> forall|i: usize| !#[trigger] v.chosen.contains(i),
        a is CancelTrash ==> v.pending is None && e is Nothing,
        a matches Action::RequestTrash(items) ==> v.pending == Some(window::doomed_view(items@)),
        a matches Action::Reveal(p) ==> (e matches Effect::Reveal(q) && q@ == p@),
        a matches Action::OpenPath(p) ==> (e matches Effect::Open(q) && q@ == p@),
{
}

/// A confirmation carries out what is pending, once: with nothing pending, or while
/// something is carried out, it does nothing.
pub proof fn law_confirming_carries_out_what_is_pending(
    w: WindowView,
    v: WindowView,
    e: Effect,
)
    requires
        window::acts(w, Action::ConfirmTrash, v, e),
    ensures
        w.pending matches Some(items) ==> w.trashing || ((e matches Effect::Trash(x)
            && window::doomed_view(x@) == items) && v.trashing && v.pending is None),
        w.pending is None || w.trashing ==> e is Nothing && v == w,
{
}

/// A scan starts where none runs, and then nothing of the last one is left; where one runs
/// nothing happens.
pub proof fn law_scans_start_afresh(w: WindowView, p: String, v: WindowView, e: Effect)
    requires
        window::acts(w, Action::StartScan(p), v, e),
    ensures
        w.scanning ==> v == w && e is Nothing,
        !w.scanning ==> {
            &&& v.scanning
            &&& v.tree is None
            &&& v.hits.len() == 0
            &&& v.selected is None
            &&& v.map_root is None
            &&& v.pending is None
            &&& v.expanded == Set::<usize>::empty()
            &&& v.chosen == Set::<usize>::empty()
            &&& v.trashing == w.trashing
            &&& e matches Effect::Scan(q) && q@ == p@
        },
{
}

/// Whether the item is that of one of the first `k` hits, and that one is chosen.
pub open spec fn is_chosen(
    hs: Seq<HitView>,
    chosen: Set<usize>,
    k: nat,
    d: (usize, Seq<char>, u64),
) -> bool {
    exists|i: int|
        0 <= i < k && chosen.contains(i as usize) && d == (
            (#[trigger] hs[i]).node_idx,
            hs[i].path,
            hs[i].size,
        )
}

proof fn lemma_chosen(hs: Seq<HitView>, chosen: Set<usize>, k: nat, d: (usize, Seq<char>, u64))
    requires
        k <= hs.len(),
    ensures
        window::chosen_upto(hs, chosen, k).contains(d) <==> is_chosen(hs, chosen, k, d),
        window::chosen_upto(hs, chosen, k).len() <= k,
    decreases k,
{
    if k > 0 {
        lemma_chosen(hs, chosen, (k - 1) as nat, d);
        let before = window::chosen_upto(hs, chosen, (k - 1) as nat);
        let now = window::chosen_upto(hs, chosen, k);
        let h = hs[k - 1];
        if now.contains(d) {
            let j = choose|j: int| 0 <= j < now.len() && now[j] == d;
            if j < before.len() {
                assert(before[j] == d);
                let i = choose|i: int|
                    0 <= i < k - 1 && chosen.contains(i as usize) && d == (
                        (#[trigger] hs[i]).node_idx,
                        hs[i].path,
                        hs[i].size,
                    );
                assert(hs[i].node_idx == d.0);
            } else {
                assert(hs[k - 1].node_idx == d.0);
            }
        }
        if is_chosen(hs, chosen, k, d) {
            let i = choose|i: int|
                0 <= i < k && chosen.contains(i as usize) && d == (
                    (#[trigger] hs[i]).node_idx,
                    hs[i].path,
                    hs[i].size,
                );
            if i < k - 1 {
                assert(is_chosen(hs, chosen, (k - 1) as nat, d));
                let j = choose|j: int| 0 <= j < before.len() && before[j] == d;
                assert(now[j] == d);
            } else {
                assert(now[before.len() as int] == d);
            }
        }
    }
}

/// What is asked to be trashed of the caches is every one that is chosen, with its own node,
/// path and size, and no other, the largest first; where none is chosen nothing is asked.
pub proof fn law_chosen_caches_are_asked_for(
    w: WindowView,
    v: WindowView,
    e: Effect,
    d: (usize, Seq<char>, u64),
)
    requires
        window::acts(w, Action::RequestTrashCaches, v, e),
        w.hits.len() <= usize::MAX,
    ensures
        e is Nothing,
        (forall|i: usize| #[trigger] w.chosen.contains(i) ==> i >= w.hits.len()) ==> v == w,
        is_chosen(w.hits, w.chosen, w.hits.len(), d) ==> (v.pending matches Some(items)
            && items.contains(d)),
        v != w ==> (v.pending matches Some(items) && (items.contains(d) ==> is_chosen(
            w.hits,
            w.chosen,
            w.hits.len(),
            d,
        )) && forall|a: int, b: int|
            0 <= a < b < items.len() ==> (#[trigger] items[a]).2 >= (#[trigger] items[b]).2),
{
    let n = w.hits.len();
    let picked = window::chosen_upto(w.hits, w.chosen, n);
    lemma_chosen(w.hits, w.chosen, n, d);
    if picked.len() > 0 {
        let keys = window::doomed_sizes(picked);
        let s = choose|s: Seq<(usize, Seq<char>, u64)>| #[trigger]
            order::sorted_desc(picked, keys, s) && v == (WindowView { pending: Some(s), ..w });
        order::lemma_sorted_keeps(picked, keys, s);
        order::law_sorted_is_descending(
            picked,
            keys,
            s,
            |d: (usize, Seq<char>, u64)| d.2,
        );
        let key = |d: (usize, Seq<char>, u64)| d.2;
        assert forall|a: int, b: int| 0 <= a < b < s.len() implies (#[trigger] s[a]).2 >= (
        #[trigger] s[b]).2 by {
            assert(key(s[a]) >= key(s[b]));
        }
        if forall|i: usize| #[trigger] w.chosen.contains(i) ==> i >= w.hits.len() {
            let x = picked[0];
            lemma_chosen(w.hits, w.chosen, n, x);
            assert(picked.contains(x));
        }
    }
    if is_chosen(w.hits, w.chosen, n, d) {
        assert(picked.contains(d));
    }
}

// ---- what comes back --------------------------------------------------------------------------

/// How many of the first `k` went to the Trash.
pub open spec fn gone_count(out: Seq<Fate>, k: nat) -> nat
    decreases k,
{
    if k == 0 {
        0
    } else {
        gone_count(out, (k - 1) as nat) + if out[k - 1].1 {
            1nat
        } else {
            0
        }
    }
}

/// What those of the first `k` that went to the Trash took.
pub open spec fn gone_bytes(out: Seq<Fate>, k: nat) -> nat
    decreases k,
{
    if k == 0 {
        0
    } else {
        gone_bytes(out, (k - 1) as nat) + if out[k - 1].1 {
            out[k - 1].2 as nat
        } else {
            0
        }
    }
}

proof fn lemma_gone(out: Seq<Fate>, k: nat)
    requires
        k <= out.len(),
    ensures
        window::gone_sizes(out, k).len() == gone_count(out, k),
        util::sum(window::gone_sizes(out, k)) == gone_bytes(out, k),
        gone_count(out, k) <= k,
    decreases k,
{
    if k > 0 {
        lemma_gone(out, (k - 1) as nat);
        let before = window::gone_sizes(out, (k - 1) as nat);
        assert(before.push(out[k - 1].2).drop_last() =~= before);
    }
}

/// After a trash operation it is said how many went, what they took, and how many did not,
/// if any.
pub proof fn law_trashed_text_counts(out: Seq<Fate>)
    requires
        gone_bytes(out, out.len()) <= u64::MAX,
    ensures
        ({
            let gone = gone_count(out, out.len());
            let head = "Moved "@ + text::decimal(gone) + " item(s) to Trash, freed "@
                + util::human_size(gone_bytes(out, out.len()) as u64);
            &&& gone == out.len() ==> window::trashed_text(out) == head
            &&& gone < out.len() ==> window::trashed_text(out) == head + (" — "@ + text::decimal(
                (out.len() - gone) as nat,
            ) + " failed"@)
        }),
{
    lemma_gone(out, out.len());
    util::law_sum_is_exact(window::gone_sizes(out, out.len()));
    let head = "Moved "@ + text::decimal(gone_count(out, out.len()))
        + " item(s) to Trash, freed "@ + util::human_size(gone_bytes(out, out.len()) as u64);
    assert(head + Seq::<char>::empty() =~= head);
}

/// What was taken out of the tree is what went to the Trash: nothing else is marked.
pub proof fn law_only_what_is_gone_is_taken_out(t: TreeView, out: Seq<Fate>, k: nat)
    requires
        k <= out.len(),
        forall|i: int| 0 <= i < k ==> !(#[trigger] out[i]).1,
    ensures
        window::without_upto(t, out, k) == t,
    decreases k,
{
    if k > 0 {
        law_only_what_is_gone_is_taken_out(t, out, (k - 1) as nat);
        assert(!out[k - 1].1);
    }
}

/// What is selected stays so while it is there, and otherwise the root is.
pub proof fn law_selection_falls_back_to_the_root(t: TreeView, i: Option<usize>)
    ensures
        window::alive(t, i) is Some && window::still_there(t, i) is Some,
        i matches Some(k) ==> window::alive(t, i) == Some(
            if t.nodes[k as int].removed {
                t.root
            } else {
                k
            },
        ),
        i is None ==> window::alive(t, i) == Some(t.root) && window::still_there(t, i) == Some(
            t.root,
        ),
        i matches Some(k) ==> window::still_there(t, i) == Some(
            if k < t.nodes.len() {
                k
            } else {
                t.root
            },
        ),
{
}

/// A finished scan is told with its size, how many files it holds, how long it took and what
/// its caches hold.
pub proof fn law_finished_scans_are_told(t: TreeView, secs: Seq<char>, hs: Seq<HitView>)
    ensures
        ({
            let root = t.nodes[t.root as int];
            let said = window::scanned_text(t, secs, hs);
            &&& (util::human_size(root.size) + " across "@ + text::decimal(root.file_count as nat)
                + " files in "@ + secs).is_prefix_of(said)
            &&& (util::human_size(util::sum64(hs.map_values(|h: HitView| h.size)))
                + " reclaimable in dev caches"@).is_suffix_of(said)
        }),
{
    let root = t.nodes[t.root as int];
    let said = window::scanned_text(t, secs, hs);
    let head = util::human_size(root.size) + " across "@ + text::decimal(root.file_count as nat)
        + " files in "@ + secs;
    let sum = util::human_size(util::sum64(hs.map_values(|h: HitView| h.size)));
    let tail = sum + " reclaimable in dev caches"@;
    assert(crate::caches::hit_sizes(hs) =~= hs.map_values(|h: HitView| h.size));
    let mid = head + "s · "@;
    assert(said == mid + sum + " reclaimable in dev caches"@);
    assert(said =~= mid + tail);
    assert(said.take(head.len() as int) =~= head);
    assert(said.subrange(said.len() - tail.len(), said.len() as int) =~= tail);
}

/// The first that a scan finds is shown with its root opened and selected; what comes while
/// nothing is scanned, or while something is trashed, is not shown.
pub proof fn law_first_find_opens_the_root(w: WindowView, t: TreeView)
    ensures
        w.scanning && !w.trashing && w.tree is None ==> {
            let v = window::browsing(w, t);
            &&& v.tree == Some(t)
            &&& v.expanded.contains(t.root)
            &&& w.expanded.subset_of(v.expanded)
            &&& w.selected is None ==> v.selected == Some(t.root)
            &&& w.map_root is None ==> v.map_root == Some(t.root)
        },
        !w.scanning || w.trashing ==> window::browsing(w, t) == w,
{
}

} // verus!
