//! Which directories are offered as caches: all that the rules mark, and no others.

use vstd::prelude::*;

use crate::caches;
use crate::caches::{ContextView, HitView, IndexHitView};
use crate::forest;
use crate::index;
use crate::index::IndexView;
use crate::order;
use crate::removal;
use crate::rules;
use crate::rules::RuleView;
use crate::scan;
use crate::scan::TreeView;

verus! {

// ---- in a tree ------------------------------------------------------------------------

/// The rule that marks a node as a cache, by its own name, the names beside it and those
/// in it.
pub open spec fn mark(t: TreeView, i: int) -> Option<RuleView> {
    let kids = t.nodes[i].children;
    rules::classified(
        t.nodes[i].name,
        match t.nodes[i].parent {
            Some(p) => {
                let beside = t.nodes[p as int].children;
                Some(Seq::new(beside.len(), |k: int| t.nodes[beside[k] as int].name))
            },
            None => None,
        },
        Seq::new(kids.len(), |k: int| t.nodes[kids[k] as int].name),
    )
}

/// Whether a node is marked: a directory that is still there, other than the root.
pub open spec fn marked(t: TreeView, i: int) -> bool {
    t.nodes[i].is_dir && !t.nodes[i].removed && i != t.root && mark(t, i) is Some
}

proof fn lemma_marked(t: TreeView, i: int)
    ensures
        caches::node_rule(t, i) is Some <==> marked(t, i),
        marked(t, i) ==> caches::node_rule(t, i) == mark(t, i),
{
    let kids = t.nodes[i].children;
    assert(caches::names(t.nodes, kids) =~= Seq::new(
        kids.len(),
        |k: int| t.nodes[kids[k] as int].name,
    ));
    if let Some(p) = t.nodes[i].parent {
        let beside = t.nodes[p as int].children;
        assert(caches::names(t.nodes, beside) =~= Seq::new(
            beside.len(),
            |k: int| t.nodes[beside[k] as int].name,
        ));
    }
}

/// A node is nested just where a node above it is marked.
proof fn lemma_nested(t: TreeView, i: int)
    requires
        t.traceable(),
        t.nodes.len() <= usize::MAX,
        0 <= i < t.nodes.len(),
    ensures
        caches::nested(t, i) <==> exists|a: int|
            0 <= a < t.nodes.len() && #[trigger] removal::above(t.nodes, a, i) && marked(t, a),
    decreases forest::rank(scan::links(t.nodes), i),
{
    let f = scan::links(t.nodes);
    forest::lemma_rank(f);
    assert(f.par[i] == t.nodes[i].parent);
    match f.par[i] {
        Some(p) => {
            let p = p as int;
            let up = forest::lineage(f, p);
            forest::lemma_lineage(f, p);
            assert(forest::lineage(f, i).drop_last() =~= up);
            lemma_nested(t, p);
            lemma_marked(t, p);
            if caches::nested(t, p) {
                let a = choose|a: int|
                    0 <= a < t.nodes.len() && #[trigger] removal::above(t.nodes, a, p) && marked(
                        t,
                        a,
                    );
                let j = choose|j: int| 0 <= j < up.drop_last().len()
                    && up.drop_last()[j] == a as usize;
                assert(up[j] == a as usize);
                assert(removal::above(t.nodes, a, i));
            }
            if caches::node_rule(t, p) is Some {
                assert(up[up.len() - 1] == p as usize);
                assert(removal::above(t.nodes, p, i));
            }
            if exists|a: int|
                0 <= a < t.nodes.len() && #[trigger] removal::above(t.nodes, a, i) && marked(t, a) {
                let a = choose|a: int|
                    0 <= a < t.nodes.len() && #[trigger] removal::above(t.nodes, a, i) && marked(
                        t,
                        a,
                    );
                let j = choose|j: int| 0 <= j < up.len() && up[j] == a as usize;
                if j < up.len() - 1 {
                    assert(up.drop_last()[j] == a as usize);
                    assert(removal::above(t.nodes, a, p));
                }
            }
        },
        None => {
            assert(forest::lineage(f, i).drop_last() =~= Seq::<usize>::empty());
        },
    }
}

/// Whether a node is to be offered: it is marked, holds something, and no node above it is
/// marked.
pub open spec fn offered(t: TreeView, i: int) -> bool {
    &&& 0 <= i < t.nodes.len()
    &&& marked(t, i)
    &&& t.nodes[i].size > 0
    &&& forall|a: int|
        0 <= a < t.nodes.len() && #[trigger] removal::above(t.nodes, a, i) ==> !marked(t, a)
}

/// The hit of a node says where it is, how large it is, and what it is.
pub open spec fn stands_for(t: TreeView, h: HitView, i: int) -> bool {
    &&& h.node_idx == i
    &&& h.path == scan::node_path(t, i)
    &&& h.size == t.nodes[i].size
    &&& mark(t, i) matches Some(r) && h.category == r.category && h.note == r.note
}

proof fn lemma_hits(t: TreeView, k: nat)
    requires
        t.traceable(),
        t.nodes.len() <= usize::MAX,
        k <= t.nodes.len(),
    ensures
        forall|j: int|
            0 <= j < caches::hits_upto(t, k).len() ==> {
                let h = #[trigger] caches::hits_upto(t, k)[j];
                h.node_idx < k && offered(t, h.node_idx as int) && stands_for(
                    t,
                    h,
                    h.node_idx as int,
                )
            },
        forall|i: int|
            0 <= i < k && #[trigger] offered(t, i) ==> exists|j: int|
                0 <= j < caches::hits_upto(t, k).len() && (#[trigger] caches::hits_upto(
                    t,
                    k,
                )[j]).node_idx == i,
        caches::hits_upto(t, k).len() <= k,
        caches::hits_upto(t, k).no_duplicates(),
    decreases k,
{
    if k > 0 {
        let i = k - 1;
        let before = caches::hits_upto(t, i as nat);
        let now = caches::hits_upto(t, k);
        lemma_hits(t, i as nat);
        lemma_marked(t, i);
        lemma_nested(t, i);
        assert(caches::is_hit(t, i) <==> offered(t, i));
        assert forall|j: int| 0 <= j < now.len() implies {
            let h = #[trigger] now[j];
            h.node_idx < k && offered(t, h.node_idx as int) && stands_for(t, h, h.node_idx as int)
        } by {
            if j < before.len() {
                assert(now[j] == before[j]);
            }
        }
        assert forall|x: int| 0 <= x < k && #[trigger] offered(t, x) implies exists|j: int|
            0 <= j < now.len() && (#[trigger] now[j]).node_idx == x by {
            if x < i {
                let j = choose|j: int|
                    0 <= j < before.len() && (#[trigger] before[j]).node_idx == x;
                assert(now[j].node_idx == x);
            } else {
                assert(now[before.len() as int].node_idx == x);
            }
        }
        assert forall|a: int, b: int| 0 <= a < b < now.len() implies now[a] != now[b] by {
            assert(before[a] == now[a]);
            if b < before.len() {
                assert(before[b] == now[b]);
            }
        }
    }
}

/// What is found in a tree is every marked directory that holds something and lies in no
/// other marked one, each once, with its own path and size and the category and note of
/// its rule, the largest first; and nothing else.
pub proof fn law_every_cache_is_found(t: TreeView, hs: Seq<HitView>)
    requires
        t.traceable(),
        t.nodes.len() <= usize::MAX,
        order::sorted_desc(
            caches::hits_upto(t, t.nodes.len()),
            caches::hit_sizes(caches::hits_upto(t, t.nodes.len())),
            hs,
        ),
    ensures
        forall|i: int| #[trigger]
            offered(t, i) ==> exists|k: int|
                0 <= k < hs.len() && stands_for(t, #[trigger] hs[k], i),
        forall|k: int|
            0 <= k < hs.len() ==> offered(t, (#[trigger] hs[k]).node_idx as int) && stands_for(
                t,
                hs[k],
                hs[k].node_idx as int,
            ),
        forall|a: int, b: int|
            0 <= a < b < hs.len() ==> (#[trigger] hs[a]).node_idx != (#[trigger] hs[b]).node_idx
                && hs[a].size >= hs[b].size,
{
    let all = caches::hits_upto(t, t.nodes.len());
    let keys = caches::hit_sizes(all);
    lemma_hits(t, t.nodes.len());
    order::lemma_sorted_keeps(all, keys, hs);
    order::law_sorted_is_descending(all, keys, hs, |h: HitView| h.size);
    let key = |h: HitView| h.size;
    assert forall|i: int| #[trigger] offered(t, i) implies exists|k: int|
        0 <= k < hs.len() && stands_for(t, #[trigger] hs[k], i) by {
        let j = choose|j: int| 0 <= j < all.len() && (#[trigger] all[j]).node_idx == i;
        assert(all.contains(all[j]));
        let k = choose|k: int| 0 <= k < hs.len() && hs[k] == all[j];
        assert(stands_for(t, hs[k], i));
    }
    assert forall|k: int| 0 <= k < hs.len() implies offered(
        t,
        (#[trigger] hs[k]).node_idx as int,
    ) && stands_for(t, hs[k], hs[k].node_idx as int) by {
        assert(hs.contains(hs[k]));
        let j = choose|j: int| 0 <= j < all.len() && all[j] == hs[k];
        assert(offered(t, all[j].node_idx as int));
    }
    assert forall|a: int, b: int| 0 <= a < b < hs.len() implies (#[trigger] hs[a]).node_idx != (
    #[trigger] hs[b]).node_idx && hs[a].size >= hs[b].size by {
        assert(key(hs[a]) >= key(hs[b]));
        if hs[a].node_idx == hs[b].node_idx {
            assert(hs[a] =~= hs[b]);
        }
    }
}

// ---- in an index ------------------------------------------------------------------------

/// Whether a record is marked by the names around it: not the root, nor a record around
/// which nothing is known.
pub open spec fn rec_marked(v: IndexView, ctx: Seq<Option<ContextView>>, i: int) -> bool {
    i != v.root_ix && (ctx[i] matches Some(c) && rules::classified(
        v.dirs[i].name,
        c.siblings,
        c.children,
    ) is Some)
}

/// Whether the record `a` lies above the record `i`.
pub open spec fn rec_above(v: IndexView, a: int, i: int) -> bool {
    forest::lineage(index::dir_links(v.dirs), i).drop_last().contains(a as usize)
}

/// A record is nested just where a record above it is marked.
proof fn lemma_rec_nested(v: IndexView, ctx: Seq<Option<ContextView>>, i: int)
    requires
        v.wf(),
        0 <= i < v.dirs.len(),
    ensures
        caches::rec_nested(v, ctx, i) <==> exists|a: int|
            0 <= a < v.dirs.len() && #[trigger] rec_above(v, a, i) && rec_marked(v, ctx, a),
    decreases forest::rank(index::dir_links(v.dirs), i),
{
    let f = index::dir_links(v.dirs);
    forest::lemma_rank(f);
    match v.dirs[i].parent {
        Some(p) => {
            assert(f.par[i] == Some(p as usize));
            let p = p as int;
            let up = forest::lineage(f, p);
            forest::lemma_lineage(f, p);
            assert(forest::lineage(f, i).drop_last() =~= up);
            lemma_rec_nested(v, ctx, p);
            assert(caches::rec_rule(v, ctx, p) is Some <==> rec_marked(v, ctx, p));
            if caches::rec_nested(v, ctx, p) {
                let a = choose|a: int|
                    0 <= a < v.dirs.len() && #[trigger] rec_above(v, a, p) && rec_marked(
                        v,
                        ctx,
                        a,
                    );
                let j = choose|j: int| 0 <= j < up.drop_last().len()
                    && up.drop_last()[j] == a as usize;
                assert(up[j] == a as usize);
                assert(rec_above(v, a, i));
            }
            if rec_marked(v, ctx, p) {
                assert(up[up.len() - 1] == p as usize);
                assert(rec_above(v, p, i));
            }
            if exists|a: int|
                0 <= a < v.dirs.len() && #[trigger] rec_above(v, a, i) && rec_marked(v, ctx, a) {
                let a = choose|a: int|
                    0 <= a < v.dirs.len() && #[trigger] rec_above(v, a, i) && rec_marked(
                        v,
                        ctx,
                        a,
                    );
                let j = choose|j: int| 0 <= j < up.len() && up[j] == a as usize;
                if j < up.len() - 1 {
                    assert(up.drop_last()[j] == a as usize);
                    assert(rec_above(v, a, p));
                }
            }
        },
        None => {
            assert(f.par[i] == None::<usize>);
            assert(forest::lineage(f, i).drop_last() =~= Seq::<usize>::empty());
        },
    }
}

/// Whether a record is to be offered: it is marked, holds something, and no record above
/// it is marked.
pub open spec fn rec_offered(v: IndexView, ctx: Seq<Option<ContextView>>, i: int) -> bool {
    &&& 0 <= i < v.dirs.len()
    &&& rec_marked(v, ctx, i)
    &&& v.dirs[i].subtree_bytes > 0
    &&& forall|a: int|
        0 <= a < v.dirs.len() && #[trigger] rec_above(v, a, i) ==> !rec_marked(v, ctx, a)
}

/// The hit of a record says where it is, what deleting it frees, how large it is, in how
/// many files, and what it is.
pub open spec fn rec_stands_for(
    v: IndexView,
    ctx: Seq<Option<ContextView>>,
    h: IndexHitView,
    i: int,
) -> bool {
    &&& h.path == index::rec_path(v, i)
    &&& h.private == v.dirs[i].subtree_private
    &&& h.size == v.dirs[i].subtree_bytes
    &&& h.files == v.dirs[i].subtree_files
    &&& ctx[i] matches Some(c)
        && rules::classified(v.dirs[i].name, c.siblings, c.children) matches Some(
        r,
    ) && h.category == r.category && h.note == r.note
}

/// Whether a record among the first `k` stands behind the hit.
pub open spec fn has_record(
    v: IndexView,
    ctx: Seq<Option<ContextView>>,
    h: IndexHitView,
    k: nat,
) -> bool {
    exists|i: int| 0 <= i < k && #[trigger] rec_offered(v, ctx, i) && rec_stands_for(v, ctx, h, i)
}

proof fn lemma_rec_hits(v: IndexView, ctx: Seq<Option<ContextView>>, k: nat)
    requires
        v.wf(),
        k <= v.dirs.len(),
    ensures
        forall|j: int|
            0 <= j < caches::rec_hits_upto(v, ctx, k).len() ==> has_record(
                v,
                ctx,
                #[trigger] caches::rec_hits_upto(v, ctx, k)[j],
                k,
            ),
        forall|i: int|
            0 <= i < k && #[trigger] rec_offered(v, ctx, i) ==> exists|j: int|
                0 <= j < caches::rec_hits_upto(v, ctx, k).len() && rec_stands_for(
                    v,
                    ctx,
                    #[trigger] caches::rec_hits_upto(v, ctx, k)[j],
                    i,
                ),
        caches::rec_hits_upto(v, ctx, k).len() <= k,
    decreases k,
{
    if k > 0 {
        let i = k - 1;
        let before = caches::rec_hits_upto(v, ctx, i as nat);
        let now = caches::rec_hits_upto(v, ctx, k);
        lemma_rec_hits(v, ctx, i as nat);
        lemma_rec_nested(v, ctx, i);
        assert(caches::rec_hit(v, ctx, i) <==> rec_offered(v, ctx, i));
        assert forall|j: int| 0 <= j < now.len() implies has_record(v, ctx, #[trigger] now[j], k) by {
            if j < before.len() {
                assert(now[j] == before[j]);
                assert(has_record(v, ctx, before[j], i as nat));
            } else {
                assert(rec_offered(v, ctx, i) && rec_stands_for(v, ctx, now[j], i));
            }
        }
        assert forall|x: int| 0 <= x < k && #[trigger] rec_offered(v, ctx, x) implies exists|j: int|
            0 <= j < now.len() && rec_stands_for(v, ctx, #[trigger] now[j], x) by {
            if x < i {
                let j = choose|j: int|
                    0 <= j < before.len() && rec_stands_for(v, ctx, #[trigger] before[j], x);
                assert(now[j] == before[j]);
            } else {
                assert(rec_stands_for(v, ctx, now[before.len() as int], x));
            }
        }
    }
}

/// What is found in an index is every marked record that holds something and lies in no
/// other marked one, with its own path, sizes and files and the category and note of its
/// rule, the largest first; and nothing else.
pub proof fn law_every_cache_is_found_in_an_index(
    v: IndexView,
    ctx: Seq<Option<ContextView>>,
    hs: Seq<IndexHitView>,
)
    requires
        v.wf(),
        v.dirs.len() <= u32::MAX,
        order::sorted_desc(
            caches::rec_hits_upto(v, ctx, v.dirs.len()),
            caches::index_hit_sizes(caches::rec_hits_upto(v, ctx, v.dirs.len())),
            hs,
        ),
    ensures
        forall|i: int| #[trigger]
            rec_offered(v, ctx, i) ==> exists|k: int|
                0 <= k < hs.len() && rec_stands_for(v, ctx, #[trigger] hs[k], i),
        forall|k: int|
            0 <= k < hs.len() ==> has_record(v, ctx, #[trigger] hs[k], v.dirs.len()),
        forall|a: int, b: int|
            0 <= a < b < hs.len() ==> (#[trigger] hs[a]).size >= (#[trigger] hs[b]).size,
{
    let all = caches::rec_hits_upto(v, ctx, v.dirs.len());
    let keys = caches::index_hit_sizes(all);
    lemma_rec_hits(v, ctx, v.dirs.len());
    order::lemma_sorted_keeps(all, keys, hs);
    order::law_sorted_is_descending(all, keys, hs, |h: IndexHitView| h.size);
    let key = |h: IndexHitView| h.size;
    assert forall|i: int| #[trigger] rec_offered(v, ctx, i) implies exists|k: int|
        0 <= k < hs.len() && rec_stands_for(v, ctx, #[trigger] hs[k], i) by {
        let j = choose|j: int| 0 <= j < all.len() && rec_stands_for(v, ctx, #[trigger] all[j], i);
        assert(all.contains(all[j]));
        let k = choose|k: int| 0 <= k < hs.len() && hs[k] == all[j];
        assert(rec_stands_for(v, ctx, hs[k], i));
    }
    assert forall|k: int| 0 <= k < hs.len() implies has_record(
        v,
        ctx,
        #[trigger] hs[k],
        v.dirs.len(),
    ) by {
        assert(hs.contains(hs[k]));
        let j = choose|j: int| 0 <= j < all.len() && all[j] == hs[k];
        assert(has_record(v, ctx, all[j], v.dirs.len()));
    }
    assert forall|a: int, b: int| 0 <= a < b < hs.len() implies (#[trigger] hs[a]).size >= (
    #[trigger] hs[b]).size by {
        assert(key(hs[a]) >= key(hs[b]));
    }
}

} // verus!
