//! What holds of the caches of a tree or an index as a whole.

use vstd::prelude::*;

use crate::agreement;
use crate::builder_laws;
use crate::caches;
use crate::caches::{ContextView, HitView, IndexHitView};
use crate::forest;
use crate::index;
use crate::index::{IndexView, Mode};
use crate::removal;
use crate::rules;
use crate::scan;
use crate::scan::{NodeView, TreeView};
use crate::util;
use crate::window;
use crate::window::Fate;

verus! {

// ---- hits of an index -------------------------------------------------------------------

/// What is below a cache is nested.
proof fn lemma_below_is_nested(v: IndexView, ctx: Seq<Option<ContextView>>, a: int, b: int)
    requires
        v.wf(),
        0 <= a < v.dirs.len(),
        0 <= b < v.dirs.len(),
        caches::rec_rule(v, ctx, a) is Some,
        forest::lineage(index::dir_links(v.dirs), b).drop_last().contains(a as usize),
    ensures
        caches::rec_nested(v, ctx, b),
    decreases forest::rank(index::dir_links(v.dirs), b),
{
    let f = index::dir_links(v.dirs);
    forest::lemma_rank(f);
    match v.dirs[b].parent {
        Some(p) => {
            assert(f.par[b] == Some(p as usize));
            let up = forest::lineage(f, p as int);
            forest::lemma_lineage(f, p as int);
            assert(forest::lineage(f, b).drop_last() =~= up);
            let j = choose|j: int| 0 <= j < up.len() && up[j] == a as usize;
            if j < up.len() - 1 {
                assert(up.drop_last()[j] == a as usize);
                lemma_below_is_nested(v, ctx, a, p as int);
            }
        },
        None => {
            assert(f.par[b] == None::<usize>);
            assert(forest::lineage(f, b).drop_last() =~= Seq::<usize>::empty());
        },
    }
}

/// No cache that an index lists lies in another one that it lists.
pub proof fn law_index_hits_do_not_nest(
    v: IndexView,
    ctx: Seq<Option<ContextView>>,
    a: int,
    b: int,
)
    requires
        v.wf(),
        0 <= a < v.dirs.len(),
        0 <= b < v.dirs.len(),
        caches::rec_hit(v, ctx, a),
        caches::rec_hit(v, ctx, b),
    ensures
        !forest::lineage(index::dir_links(v.dirs), b).drop_last().contains(a as usize),
{
    if forest::lineage(index::dir_links(v.dirs), b).drop_last().contains(a as usize) {
        lemma_below_is_nested(v, ctx, a, b);
    }
}

// ---- what deleting a hit frees ------------------------------------------------------------

/// The unshared bytes of each file, and nothing for a directory or another node with
/// entries.
pub open spec fn file_privates(ns: Seq<NodeView>) -> Seq<nat> {
    ns.map_values(
        |n: NodeView|
            if n.is_dir || n.children.len() > 0 {
                0
            } else {
                n.private as nat
            },
    )
}

/// Where directories have the totals of their children, a node has the unshared bytes
/// of the files at and below it.
proof fn lemma_private_is_of_files(ns: Seq<NodeView>, x: int)
    requires
        scan::links(ns).wf(),
        removal::adds_up(ns),
        0 <= x < ns.len(),
    ensures
        forest::total(scan::links(ns), file_privates(ns), x) == ns[x].private,
    decreases forest::height(scan::links(ns), x),
{
    let f = scan::links(ns);
    let kids = f.kids[x];
    assert(kids == ns[x].children);
    assert forall|j: int| 0 <= j < kids.len() implies {
        let c = #[trigger] f.kids[x][j] as int;
        scan::privates(ns)[c] == forest::total(f, file_privates(ns), c)
    } by {
        forest::lemma_kid(f, x, j);
        lemma_private_is_of_files(ns, f.kids[x][j] as int);
    }
    builder_laws::lemma_kids_total_is_sum(f, file_privates(ns), scan::privates(ns), x, kids.len());
    assert(kids.take(kids.len() as int) =~= kids);
    if ns[x].is_dir || ns[x].children.len() > 0 {
        assert(scan::privates(ns)[x] == removal::kid_sum(scan::privates(ns), kids));
    }
}

/// Deleting a hit frees the unshared bytes below it: in the index of a scanned tree,
/// the figure of a hit is the total of the unshared bytes of the files at and below
/// its directory.
pub proof fn law_hit_frees_its_unshared_bytes(
    t: TreeView,
    mode: Mode,
    last_event_id: u64,
    threshold: u64,
    device_id: u64,
    now: u64,
    ctx: Seq<Option<ContextView>>,
    k: int,
)
    requires
        t.wf(),
        removal::adds_up(t.nodes),
        0 <= k < index::recorded(t).len(),
    ensures
        ({
            let v = index::index_of_tree(t, mode, last_event_id, threshold, device_id, now);
            caches::rec_hit_of(v, ctx, k).private == forest::total(
                scan::links(t.nodes),
                file_privates(t.nodes),
                index::recorded(t)[k] as int,
            )
        }),
{
    let v = index::index_of_tree(t, mode, last_event_id, threshold, device_id, now);
    let l = index::live_links(t.nodes);
    index::lemma_live_wf(t.nodes);
    forest::lemma_walk_member(l, t.root as int, k);
    assert(v.dirs[k] == index::record(t, threshold, k));
    lemma_private_is_of_files(t.nodes, index::recorded(t)[k] as int);
}

// ---- what an index offers is part of its total --------------------------------------------

/// The unshared bytes of each record that is a hit, and nothing for the others.
spec fn rec_hit_weights(v: IndexView, ctx: Seq<Option<ContextView>>) -> Seq<nat> {
    Seq::new(
        v.dirs.len(),
        |i: int|
            if caches::rec_hit(v, ctx, i) {
                v.dirs[i].subtree_private as nat
            } else {
                0
            },
    )
}

/// Where a record lies in a cache, there is nothing more to offer at and below it.
proof fn lemma_no_rec_below(v: IndexView, ctx: Seq<Option<ContextView>>, x: int)
    requires
        v.wf(),
        0 <= x < v.dirs.len(),
        caches::rec_nested(v, ctx, x),
    ensures
        forest::total(index::dir_links(v.dirs), rec_hit_weights(v, ctx), x) == 0,
    decreases forest::height(index::dir_links(v.dirs), x), index::dir_links(v.dirs).kids[x].len() + 1,
{
    lemma_no_rec_in_kids(v, ctx, x, index::dir_links(v.dirs).kids[x].len());
}

proof fn lemma_no_rec_in_kids(v: IndexView, ctx: Seq<Option<ContextView>>, x: int, k: nat)
    requires
        v.wf(),
        0 <= x < v.dirs.len(),
        caches::rec_nested(v, ctx, x) || caches::rec_rule(v, ctx, x) is Some,
        k <= index::dir_links(v.dirs).kids[x].len(),
    ensures
        forest::kids_total(index::dir_links(v.dirs), rec_hit_weights(v, ctx), x, k) == 0,
    decreases forest::height(index::dir_links(v.dirs), x), k,
{
    let f = index::dir_links(v.dirs);
    if k > 0 {
        lemma_no_rec_in_kids(v, ctx, x, (k - 1) as nat);
        forest::lemma_kid(f, x, k - 1);
        let c = f.kids[x][k - 1] as int;
        assert(f.par[c] == Some(x as usize));
        lemma_no_rec_below(v, ctx, c);
    }
}

/// What is offered at and below a record is no more than is unshared there.
proof fn lemma_rec_part(v: IndexView, ctx: Seq<Option<ContextView>>, x: int)
    requires
        v.wf(),
        agreement::index_adds_up(v.dirs),
        0 <= x < v.dirs.len(),
    ensures
        forest::total(index::dir_links(v.dirs), rec_hit_weights(v, ctx), x)
            <= v.dirs[x].subtree_private,
    decreases forest::height(index::dir_links(v.dirs), x), index::dir_links(v.dirs).kids[x].len() + 1,
{
    let f = index::dir_links(v.dirs);
    let n = f.kids[x].len();
    if caches::rec_hit(v, ctx, x) {
        lemma_no_rec_in_kids(v, ctx, x, n);
    } else {
        lemma_rec_kids_part(v, ctx, x, n);
        assert(f.kids[x] == index::dir_kids(v.dirs, x));
        assert(f.kids[x].take(n as int) =~= f.kids[x]);
        assert(agreement::record_adds_up(v.dirs, x));
    }
}

proof fn lemma_rec_kids_part(v: IndexView, ctx: Seq<Option<ContextView>>, x: int, k: nat)
    requires
        v.wf(),
        agreement::index_adds_up(v.dirs),
        0 <= x < v.dirs.len(),
        k <= index::dir_links(v.dirs).kids[x].len(),
    ensures
        forest::kids_total(index::dir_links(v.dirs), rec_hit_weights(v, ctx), x, k)
            <= removal::kid_sum(
            agreement::subtree_private(v.dirs),
            index::dir_links(v.dirs).kids[x].take(k as int),
        ),
    decreases forest::height(index::dir_links(v.dirs), x), k,
{
    let f = index::dir_links(v.dirs);
    if k > 0 {
        lemma_rec_kids_part(v, ctx, x, (k - 1) as nat);
        forest::lemma_kid(f, x, k - 1);
        lemma_rec_part(v, ctx, f.kids[x][k - 1] as int);
        let head = f.kids[x].take(k as int);
        assert(head.drop_last() =~= f.kids[x].take(k - 1));
    }
}

/// The unshared bytes of hits in an index.
pub open spec fn hit_privates(hs: Seq<IndexHitView>) -> Seq<u64> {
    hs.map_values(|h: IndexHitView| h.private)
}

proof fn lemma_rec_hits_weigh(v: IndexView, ctx: Seq<Option<ContextView>>, k: nat)
    requires
        k <= v.dirs.len(),
    ensures
        util::sum(hit_privates(caches::rec_hits_upto(v, ctx, k))) == builder_laws::sum(
            rec_hit_weights(v, ctx).take(k as int),
        ),
    decreases k,
{
    let hs = caches::rec_hits_upto(v, ctx, k);
    if k == 0 {
        assert(hit_privates(hs).len() == 0);
        assert(rec_hit_weights(v, ctx).take(0).len() == 0);
    } else {
        lemma_rec_hits_weigh(v, ctx, (k - 1) as nat);
        let before = caches::rec_hits_upto(v, ctx, (k - 1) as nat);
        let w = rec_hit_weights(v, ctx).take(k as int);
        assert(w.drop_last() =~= rec_hit_weights(v, ctx).take(k - 1));
        if caches::rec_hit(v, ctx, k - 1) {
            let all = hit_privates(hs);
            assert(all.drop_last() =~= hit_privates(before));
            assert(all.last() == v.dirs[k - 1].subtree_private);
        }
    }
}

/// What an index offers to reclaim is part of its unshared total: the figures of all its
/// hits add up to no more than the unshared bytes below the root.
pub proof fn law_index_offers_part_of_the_total(
    v: IndexView,
    ctx: Seq<Option<ContextView>>,
    hs: Seq<IndexHitView>,
)
    requires
        v.wf(),
        agreement::index_adds_up(v.dirs),
        forall|i: int|
            0 <= i < v.dirs.len() && i != v.root_ix ==> (#[trigger] v.dirs[i]).parent is Some,
        hs == caches::rec_hits_upto(v, ctx, v.dirs.len()),
    ensures
        util::sum(hit_privates(hs)) <= v.dirs[v.root_ix as int].subtree_private,
{
    let f = index::dir_links(v.dirs);
    let n = v.dirs.len();
    let top = v.root_ix as int;
    assert forall|i: int| 0 <= i < f.len() && i != top implies (#[trigger] f.par[i]) is Some by {
        assert(v.dirs[i].parent is Some);
    }
    assert forall|i: int| 0 <= i < f.len() implies #[trigger] forest::walk(f, top).contains(
        i as usize,
    ) by {
        forest::lemma_all_below(f, top, i);
    }
    lemma_rec_part(v, ctx, top);
    agreement::lemma_total_is_all(f, rec_hit_weights(v, ctx), top);
    lemma_rec_hits_weigh(v, ctx, n);
    assert(rec_hit_weights(v, ctx).take(n as int) =~= rec_hit_weights(v, ctx));
}

// ---- caches are part of the total ---------------------------------------------------------

/// Whether the entries of no node weigh more than it does.
pub open spec fn holds_its_entries(ns: Seq<NodeView>) -> bool {
    forall|i: int|
        0 <= i < ns.len() ==> removal::kid_sum(scan::sizes(ns), (#[trigger] ns[i]).children)
            <= ns[i].size
}

/// A tree whose directories have the totals of their entries is one of these.
pub proof fn lemma_adding_up_holds(ns: Seq<NodeView>)
    requires
        removal::adds_up(ns),
    ensures
        holds_its_entries(ns),
{
    assert forall|i: int| 0 <= i < ns.len() implies removal::kid_sum(
        scan::sizes(ns),
        (#[trigger] ns[i]).children,
    ) <= ns[i].size by {
        if ns[i].children.len() > 0 {
            assert(scan::sizes(ns)[i] == removal::kid_sum(scan::sizes(ns), ns[i].children));
        }
    }
}

/// The size of each node that is a hit, and nothing for the others.
spec fn hit_weights(t: TreeView) -> Seq<nat> {
    Seq::new(
        t.nodes.len(),
        |i: int|
            if caches::is_hit(t, i) {
                t.nodes[i].size as nat
            } else {
                0
            },
    )
}

/// Where nothing at or below a node is a hit, there is nothing to reclaim.
proof fn lemma_nothing_below(t: TreeView, x: int)
    requires
        t.wf(),
        0 <= x < t.nodes.len(),
        caches::nested(t, x),
    ensures
        forest::total(scan::links(t.nodes), hit_weights(t), x) == 0,
    decreases forest::height(scan::links(t.nodes), x), scan::links(t.nodes).kids[x].len() + 1,
{
    lemma_nothing_in_kids(t, x, scan::links(t.nodes).kids[x].len());
}

proof fn lemma_nothing_in_kids(t: TreeView, x: int, k: nat)
    requires
        t.wf(),
        0 <= x < t.nodes.len(),
        caches::nested(t, x) || caches::node_rule(t, x) is Some,
        k <= scan::links(t.nodes).kids[x].len(),
    ensures
        forest::kids_total(scan::links(t.nodes), hit_weights(t), x, k) == 0,
    decreases forest::height(scan::links(t.nodes), x), k,
{
    let f = scan::links(t.nodes);
    if k > 0 {
        lemma_nothing_in_kids(t, x, (k - 1) as nat);
        forest::lemma_kid(f, x, k - 1);
        let c = f.kids[x][k - 1] as int;
        assert(t.nodes[c].parent == f.par[c]);
        lemma_nothing_below(t, c);
    }
}

/// What can be reclaimed at and below a node is no more than it holds.
proof fn lemma_part(t: TreeView, x: int)
    requires
        t.wf(),
        holds_its_entries(t.nodes),
        0 <= x < t.nodes.len(),
    ensures
        forest::total(scan::links(t.nodes), hit_weights(t), x) <= t.nodes[x].size,
    decreases forest::height(scan::links(t.nodes), x), scan::links(t.nodes).kids[x].len() + 1,
{
    let f = scan::links(t.nodes);
    let n = f.kids[x].len();
    if caches::is_hit(t, x) {
        lemma_nothing_in_kids(t, x, n);
    } else {
        lemma_kids_part(t, x, n);
        assert(f.kids[x] == t.nodes[x].children);
        assert(f.kids[x].take(n as int) =~= f.kids[x]);
        assert(removal::kid_sum(scan::sizes(t.nodes), t.nodes[x].children) <= t.nodes[x].size);
    }
}

proof fn lemma_kids_part(t: TreeView, x: int, k: nat)
    requires
        t.wf(),
        holds_its_entries(t.nodes),
        0 <= x < t.nodes.len(),
        k <= scan::links(t.nodes).kids[x].len(),
    ensures
        forest::kids_total(scan::links(t.nodes), hit_weights(t), x, k) <= removal::kid_sum(
            scan::sizes(t.nodes),
            scan::links(t.nodes).kids[x].take(k as int),
        ),
    decreases forest::height(scan::links(t.nodes), x), k,
{
    let f = scan::links(t.nodes);
    if k > 0 {
        lemma_kids_part(t, x, (k - 1) as nat);
        forest::lemma_kid(f, x, k - 1);
        lemma_part(t, f.kids[x][k - 1] as int);
        let head = f.kids[x].take(k as int);
        assert(head.drop_last() =~= f.kids[x].take(k - 1));
    }
}

proof fn lemma_hits_weigh(t: TreeView, k: nat)
    requires
        k <= t.nodes.len(),
    ensures
        util::sum(caches::hit_sizes(caches::hits_upto(t, k))) == builder_laws::sum(
            hit_weights(t).take(k as int),
        ),
    decreases k,
{
    let hs = caches::hits_upto(t, k);
    if k == 0 {
        assert(caches::hit_sizes(hs).len() == 0);
        assert(hit_weights(t).take(0).len() == 0);
    } else {
        lemma_hits_weigh(t, (k - 1) as nat);
        let before = caches::hits_upto(t, (k - 1) as nat);
        let w = hit_weights(t).take(k as int);
        assert(w.drop_last() =~= hit_weights(t).take(k - 1));
        if caches::is_hit(t, k - 1) {
            let sizes = caches::hit_sizes(hs);
            assert(sizes.drop_last() =~= caches::hit_sizes(before));
            assert(sizes.last() == t.nodes[k - 1].size);
        }
    }
}

/// What can be reclaimed is part of the total: the sizes of all caches of a tree add up
/// to no more than the size of its root. What was trashed need not hang in the tree any
/// more.
pub proof fn law_reclaimable_is_part_of_the_total(t: TreeView, hs: Seq<HitView>)
    requires
        t.wf(),
        holds_its_entries(t.nodes),
        removal::live_hang(t),
        hs == caches::hits_upto(t, t.nodes.len()),
    ensures
        util::sum(caches::hit_sizes(hs)) <= t.nodes[t.root as int].size,
{
    let f = scan::links(t.nodes);
    let n = t.nodes.len();
    lemma_part(t, t.root as int);
    assert forall|i: int| 0 <= i < f.len() && hit_weights(t)[i] > 0 implies #[trigger] forest::walk(
        f,
        t.root as int,
    ).contains(i as usize) by {
        assert(removal::below(t.nodes, i, t.root as int));
    }
    agreement::lemma_total_is_all(f, hit_weights(t), t.root as int);
    lemma_hits_weigh(t, n);
    assert(hit_weights(t).take(n as int) =~= hit_weights(t));
}

/// What is known of a tree after some of it was trashed.
proof fn lemma_after_trash(t: TreeView, out: Seq<Fate>, k: nat)
    requires
        t.wf(),
        removal::adds_up(t.nodes),
        removal::live_hang(t),
        k <= out.len(),
        forall|i: int| 0 <= i < out.len() && (#[trigger] out[i]).1 ==> out[i].0 < t.nodes.len(),
    ensures
        ({
            let left = window::without_upto(t, out, k);
            &&& left.wf()
            &&& left.nodes.len() == t.nodes.len()
            &&& removal::adds_up(left.nodes)
            &&& removal::live_hang(left)
        }),
    decreases k,
{
    if k > 0 {
        lemma_after_trash(t, out, (k - 1) as nat);
        let before = window::without_upto(t, out, (k - 1) as nat);
        if out[k - 1].1 {
            let idx = out[k - 1].0 as int;
            removal::law_removal_keeps_totals(before, idx);
            removal::law_removal_keeps_the_rest(before, idx);
        }
    }
}

/// However much of a scanned tree was trashed, what can still be reclaimed is part of
/// what the root still holds.
pub proof fn law_reclaimable_after_trashing(t: TreeView, out: Seq<Fate>, hs: Seq<HitView>)
    requires
        t.wf(),
        removal::adds_up(t.nodes),
        removal::live_hang(t),
        forall|i: int| 0 <= i < out.len() && (#[trigger] out[i]).1 ==> out[i].0 < t.nodes.len(),
        hs == caches::hits_upto(window::without_upto(t, out, out.len()), t.nodes.len()),
    ensures
        util::sum(caches::hit_sizes(hs)) <= window::without_upto(
            t,
            out,
            out.len(),
        ).nodes[t.root as int].size,
{
    let left = window::without_upto(t, out, out.len());
    lemma_after_trash(t, out, out.len());
    lemma_root_stays(t, out, out.len());
    lemma_adding_up_holds(left.nodes);
    law_reclaimable_is_part_of_the_total(left, hs);
}

proof fn lemma_root_stays(t: TreeView, out: Seq<Fate>, k: nat)
    ensures
        window::without_upto(t, out, k).root == t.root,
    decreases k,
{
    if k > 0 {
        lemma_root_stays(t, out, (k - 1) as nat);
    }
}

/// The candidates are the records below the root whose names may be those of caches, in
/// order.
pub proof fn law_candidates_are_listed_in_order(v: IndexView, k: nat, i: int)
    requires
        k <= u32::MAX,
    ensures
        0 <= i < k && i != v.root_ix && rules::name_listed(v.dirs[i].name)
            ==> caches::candidates_upto(v, k).contains(i as u32),
        caches::candidates_upto(v, k).contains(i as u32) && 0 <= i <= u32::MAX ==> i < k && i
            != v.root_ix && rules::name_listed(v.dirs[i].name),
        forall|a: int, b: int|
            0 <= a < b < caches::candidates_upto(v, k).len()
                ==> #[trigger] caches::candidates_upto(v, k)[a]
                < #[trigger] caches::candidates_upto(v, k)[b],
        forall|a: int|
            0 <= a < caches::candidates_upto(v, k).len() ==> #[trigger] caches::candidates_upto(
                v,
                k,
            )[a] < k,
    decreases k,
{
    if k > 0 {
        law_candidates_are_listed_in_order(v, (k - 1) as nat, i);
        let before = caches::candidates_upto(v, (k - 1) as nat);
        let now = caches::candidates_upto(v, k);
        if caches::is_candidate(v, k - 1) {
            assert(now[before.len() as int] == (k - 1) as u32);
            assert forall|x: u32| before.contains(x) implies now.contains(x) by {
                let j = choose|j: int| 0 <= j < before.len() && before[j] == x;
                assert(now[j] == x);
            }
        }
    }
}

} // verus!
