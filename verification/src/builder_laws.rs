//! What holds of a scan as a whole.

use vstd::prelude::*;

use crate::builder;
use crate::builder::{BuilderView, WalkView};
use crate::forest;
use crate::index;
use crate::index::{DirView, IndexView};
use crate::order;
use crate::path;
use crate::removal;
use crate::scan;
use crate::scan::{NodeView, TreeView};
use crate::text;

verus! {

// ---- the arena only grows -----------------------------------------------------------

/// Attaching a cached subtree only adds nodes.
pub proof fn lemma_subtree_extends(ns: Seq<NodeView>, parent: int, ds: Seq<DirView>, rec: int)
    requires
        0 <= parent < ns.len(),
        index::dir_links(ds).wf(),
        0 <= rec < ds.len(),
    ensures
        builder::extends(ns, builder::with_subtree(ns, parent, ds, rec), parent),
    decreases forest::height(index::dir_links(ds), rec), index::dir_kids(ds, rec).len() + 1,
{
    let fs = index::file_nodes(parent as usize, ds[rec]);
    let base = builder::with_children(ns, parent, fs);
    builder::lemma_with_children(ns, parent, fs);
    let n = index::dir_kids(ds, rec).len();
    lemma_subdirs_extends(base, parent, ds, rec, n);
    let out = builder::with_subdirs(base, parent, ds, rec, n);
    builder::lemma_prefix_trans(ns[parent].children, base[parent].children, out[parent].children);
}

pub proof fn lemma_subdirs_extends(ns: Seq<NodeView>, parent: int, ds: Seq<DirView>, rec: int, k: nat)
    requires
        0 <= parent < ns.len(),
        index::dir_links(ds).wf(),
        0 <= rec < ds.len(),
        k <= index::dir_kids(ds, rec).len(),
    ensures
        builder::extends(ns, builder::with_subdirs(ns, parent, ds, rec, k), parent),
    decreases forest::height(index::dir_links(ds), rec), k,
{
    if k == 0 {
        assert(ns[parent].children =~= ns[parent].children.take(
            ns[parent].children.len() as int,
        ));
    } else {
        let g = index::dir_links(ds);
        assert(g.kids[rec] == index::dir_kids(ds, rec));
        forest::lemma_kid(g, rec, k - 1);
        lemma_subdirs_extends(ns, parent, ds, rec, (k - 1) as nat);
        let m = builder::with_subdirs(ns, parent, ds, rec, (k - 1) as nat);
        let c = index::dir_kids(ds, rec)[k - 1] as int;
        let m1 = builder::with_child(m, parent, builder::cached_dir(ds[c], parent));
        builder::lemma_grown_by_child(ns, m, parent, builder::cached_dir(ds[c], parent));
        lemma_subtree_extends(m1, m.len() as int, ds, c);
        builder::lemma_extends_below(
            ns,
            m1,
            builder::with_subtree(m1, m.len() as int, ds, c),
            parent,
            m.len() as int,
        );
    }
}

/// Whether `b` holds all that `a` holds: each node of `a` is still there under the
/// same index and name, with its parent and its children, and each path still
/// stands for its node.
pub open spec fn keeps(a: BuilderView, b: BuilderView) -> bool {
    &&& b.root == a.root
    &&& a.nodes.len() <= b.nodes.len()
    &&& forall|i: int|
        0 <= i < a.nodes.len() ==> {
            let n = #[trigger] b.nodes[i];
            &&& n.name == a.nodes[i].name
            &&& a.nodes[i].children.is_prefix_of(n.children)
            &&& a.nodes[i].parent is Some ==> n.parent == a.nodes[i].parent
        }
    &&& forall|key: Seq<char>| #[trigger]
        a.places.contains_key(key) ==> b.places.contains_key(key) && b.places[key] == a.places[key]
}

pub proof fn lemma_keeps_trans(a: BuilderView, b: BuilderView, c: BuilderView)
    requires
        keeps(a, b),
        keeps(b, c),
    ensures
        keeps(a, c),
{
    assert forall|i: int| 0 <= i < a.nodes.len() implies {
        let n = #[trigger] c.nodes[i];
        &&& n.name == a.nodes[i].name
        &&& a.nodes[i].children.is_prefix_of(n.children)
        &&& a.nodes[i].parent is Some ==> n.parent == a.nodes[i].parent
    } by {
        assert(b.nodes[i].name == a.nodes[i].name);
        builder::lemma_prefix_trans(
            a.nodes[i].children,
            b.nodes[i].children,
            c.nodes[i].children,
        );
    }
}

proof fn lemma_same_prefix<T>(s: Seq<T>)
    ensures
        s.is_prefix_of(s),
{
    assert(s =~= s.take(s.len() as int));
}

proof fn lemma_keeps_path(a: BuilderView, p: Seq<char>)
    ensures
        keeps(a, a.with_path(p)),
{
    let b = a.with_path(p);
    assert forall|i: int| 0 <= i < a.nodes.len() implies {
        let n = #[trigger] b.nodes[i];
        &&& n.name == a.nodes[i].name
        &&& a.nodes[i].children.is_prefix_of(n.children)
        &&& a.nodes[i].parent is Some ==> n.parent == a.nodes[i].parent
    } by {
        lemma_same_prefix(a.nodes[i].children);
    }
}

proof fn lemma_keeps_node(a: BuilderView, i: int, n: NodeView)
    requires
        0 <= i < a.nodes.len(),
        n.name == a.nodes[i].name,
        n.children == a.nodes[i].children,
        n.parent == a.nodes[i].parent,
    ensures
        keeps(a, a.with_node(i, n)),
{
    let b = a.with_node(i, n);
    assert forall|x: int| 0 <= x < a.nodes.len() implies {
        let m = #[trigger] b.nodes[x];
        &&& m.name == a.nodes[x].name
        &&& a.nodes[x].children.is_prefix_of(m.children)
        &&& a.nodes[x].parent is Some ==> m.parent == a.nodes[x].parent
    } by {
        lemma_same_prefix(a.nodes[x].children);
    }
}

proof fn lemma_keeps_link(a: BuilderView, i: int, j: int)
    requires
        0 <= i < a.nodes.len(),
        0 <= j < a.nodes.len(),
        i != j,
        a.nodes[i].parent is None,
    ensures
        keeps(a, a.with_link(i, j)),
{
    let b = a.with_link(i, j);
    assert forall|x: int| 0 <= x < a.nodes.len() implies {
        let m = #[trigger] b.nodes[x];
        &&& m.name == a.nodes[x].name
        &&& a.nodes[x].children.is_prefix_of(m.children)
        &&& a.nodes[x].parent is Some ==> m.parent == a.nodes[x].parent
    } by {
        lemma_same_prefix(a.nodes[x].children);
        if x == j {
            assert(a.nodes[x].children =~= b.nodes[x].children.take(
                a.nodes[x].children.len() as int,
            ));
        }
    }
}

proof fn lemma_keeps_extends(a: BuilderView, b: BuilderView, i: int)
    requires
        0 <= i < a.nodes.len(),
        builder::extends(a.nodes, b.nodes, i),
        b.root == a.root,
        b.places == a.places,
    ensures
        keeps(a, b),
{
    assert forall|x: int| 0 <= x < a.nodes.len() implies {
        let m = #[trigger] b.nodes[x];
        &&& m.name == a.nodes[x].name
        &&& a.nodes[x].children.is_prefix_of(m.children)
        &&& a.nodes[x].parent is Some ==> m.parent == a.nodes[x].parent
    } by {
        lemma_same_prefix(a.nodes[x].children);
    }
}

/// Hanging an entry below its parent only adds to the arena.
proof fn lemma_keeps_entry(a: BuilderView, e: WalkView)
    requires
        a.sound(),
        a.has_parent(e.path) ==> a.unlinked(e.path),
        a.nodes.len() < usize::MAX,
    ensures
        keeps(a, a.with_entry(e)),
        a.with_entry(e).places.contains_key(path::norm(e.path)),
        0 <= a.with_entry(e).place(e.path) < a.with_entry(e).nodes.len(),
{
    let r = choose|r: Seq<nat>| #[trigger]
        builder::linked(a.nodes, r) && builder::placed(a.places, a.nodes, r);
    let b = a.with_path(e.path);
    let i = b.place(e.path);
    lemma_keeps_path(a, e.path);
    let c = a.with_entry_node(e);
    lemma_keeps_node(b, i, c.nodes[i]);
    lemma_keeps_trans(a, b, c);
    if a.has_parent(e.path) {
        let q = path::parent_of(e.path)->0;
        let d = c.with_path(q);
        let j = d.place(q);
        lemma_keeps_path(c, q);
        lemma_keeps_trans(a, c, d);
        lemma_parent_differs(e.path);
        path::lemma_norm_same(e.path, q);
        assert(i != j) by {
            if a.places.contains_key(path::norm(e.path)) && a.places.contains_key(path::norm(q)) {
                path::lemma_norm_same(e.path, e.path);
                path::lemma_norm_same(q, q);
            }
        }
        lemma_keeps_link(d, i, j);
        lemma_keeps_trans(a, d, d.with_link(i, j));
    }
}

/// A path is not its own parent.
proof fn lemma_parent_differs(t: Seq<char>)
    requires
        path::parent_of(t) is Some,
    ensures
        path::comps(path::parent_of(t)->0).len() + 1 == path::comps(t).len(),
        !path::same(t, path::parent_of(t)->0),
{
    builder::lemma_parent_comps(t);
}

/// The arena is append-only: what an entry of the walk adds leaves all earlier
/// nodes under their indices, so index-keyed state stays valid from one snapshot to
/// the next and to the finished tree.
pub proof fn law_arena_only_grows(a: BuilderView, e: WalkView, prior: Option<IndexView>)
    requires
        a.sound(),
        a.has_parent(e.path) ==> a.unlinked(e.path),
        a.nodes.len() < usize::MAX,
        prior matches Some(v) ==> v.wf() && v.dirs.len() <= u32::MAX && (e.reused matches Some(rec)
            ==> rec < v.dirs.len()),
    ensures
        keeps(a, a.after(e, prior)),
{
    lemma_keeps_entry(a, e);
    let b = a.with_entry(e);
    if e.is_dir {
        let i = b.place(e.path);
        let c = b.with_info(e, prior);
        if let Some(info) = e.info {
            let m = b.with_mtime(i, info.mtime_ns);
            lemma_keeps_node(b, i, NodeView { mtime_ns: info.mtime_ns, ..b.nodes[i] });
            lemma_keeps_trans(a, b, m);
            if let Some(v) = prior {
                let paths = index::paths_upto(v, v.dirs.len());
                if info.files_cached && paths.contains_key(path::norm(e.path)) {
                    let rec = paths[path::norm(e.path)] as int;
                    builder::lemma_with_children(
                        m.nodes,
                        i,
                        index::file_nodes(i as usize, v.dirs[rec]),
                    );
                    lemma_keeps_extends(m, c, i);
                    lemma_keeps_trans(a, m, c);
                }
            }
        }
        if let (Some(rec), Some(v)) = (e.reused, prior) {
            let m = c.with_mtime(i, v.dirs[rec as int].mtime_ns);
            lemma_keeps_node(c, i, NodeView { mtime_ns: v.dirs[rec as int].mtime_ns, ..c.nodes[i] });
            lemma_keeps_trans(a, c, m);
            lemma_subtree_extends(m.nodes, i, v.dirs, rec as int);
            let d = m.with_tree(i, v.dirs, rec as int);
            lemma_keeps_extends(m, d, i);
            lemma_keeps_trans(a, m, d);
        }
    }
}

// ---- totals never shrink --------------------------------------------------------------

/// Whether the path `p` weighs nothing yet.
pub open spec fn weightless(a: BuilderView, p: Seq<char>) -> bool {
    a.places.contains_key(path::norm(p)) ==> {
        let n = a.nodes[a.place(p)];
        n.size == 0 && n.private == 0 && n.file_count == 0
    }
}

/// Whether no node of `a` weighs less in `b`.
spec fn no_lighter(a: BuilderView, b: BuilderView) -> bool {
    forall|i: int|
        0 <= i < a.nodes.len() ==> {
            let n = #[trigger] b.nodes[i];
            &&& a.nodes[i].size <= n.size
            &&& a.nodes[i].private <= n.private
            &&& a.nodes[i].file_count <= n.file_count
        }
}

proof fn lemma_no_lighter(a: BuilderView, e: WalkView, prior: Option<IndexView>)
    requires
        a.sound(),
        a.has_parent(e.path) ==> a.unlinked(e.path),
        weightless(a, e.path),
        a.nodes.len() < usize::MAX,
        prior matches Some(v) ==> v.wf() && v.dirs.len() <= u32::MAX && (e.reused matches Some(rec)
            ==> rec < v.dirs.len()),
    ensures
        no_lighter(a, a.after(e, prior)),
{
    let r = choose|r: Seq<nat>| #[trigger]
        builder::linked(a.nodes, r) && builder::placed(a.places, a.nodes, r);
    lemma_keeps_entry(a, e);
    let b = a.with_entry(e);
    let i = b.place(e.path);
    assert(no_lighter(a, b));
    if e.is_dir {
        let c = b.with_info(e, prior);
        assert(b.nodes.len() <= c.nodes.len() && no_lighter(b, c)) by {
            if let Some(info) = e.info {
                let m = b.with_mtime(i, info.mtime_ns);
                if let Some(v) = prior {
                    let paths = index::paths_upto(v, v.dirs.len());
                    if info.files_cached && paths.contains_key(path::norm(e.path)) {
                        let rec = paths[path::norm(e.path)] as int;
                        builder::lemma_with_children(
                            m.nodes,
                            i,
                            index::file_nodes(i as usize, v.dirs[rec]),
                        );
                    }
                }
            }
        }
        let d = c.with_reused(e, prior);
        assert(no_lighter(c, d)) by {
            if let (Some(rec), Some(v)) = (e.reused, prior) {
                let m = c.with_mtime(i, v.dirs[rec as int].mtime_ns);
                lemma_subtree_extends(m.nodes, i, v.dirs, rec as int);
            }
        }
        assert forall|x: int| 0 <= x < a.nodes.len() implies {
            let n = #[trigger] d.nodes[x];
            &&& a.nodes[x].size <= n.size
            &&& a.nodes[x].private <= n.private
            &&& a.nodes[x].file_count <= n.file_count
        } by {
            assert(a.nodes[x].size <= b.nodes[x].size);
            assert(b.nodes[x].size <= c.nodes[x].size);
        }
    }
}

/// A growing arena never weighs less: between two snapshots the totals of the root
/// do not shrink.
pub proof fn law_totals_never_shrink(a: BuilderView, e: WalkView, prior: Option<IndexView>)
    requires
        a.sound(),
        a.after(e, prior).sound(),
        a.has_parent(e.path) ==> a.unlinked(e.path),
        weightless(a, e.path),
        a.nodes.len() < usize::MAX,
        a.places.contains_key(path::norm(a.root)),
        prior matches Some(v) ==> v.wf() && v.dirs.len() <= u32::MAX && (e.reused matches Some(rec)
            ==> rec < v.dirs.len()),
    ensures
        ({
            let b = a.after(e, prior);
            let (f, g) = (scan::links(a.nodes), scan::links(b.nodes));
            let x = a.root_place();
            &&& b.root_place() == x
            &&& forest::total(f, scan::sizes(a.nodes), x) <= forest::total(
                g,
                scan::sizes(b.nodes),
                x,
            )
            &&& forest::total(f, scan::privates(a.nodes), x) <= forest::total(
                g,
                scan::privates(b.nodes),
                x,
            )
            &&& forest::total(f, scan::counts(a.nodes), x) <= forest::total(
                g,
                scan::counts(b.nodes),
                x,
            )
        }),
{
    let b = a.after(e, prior);
    let (f, g) = (scan::links(a.nodes), scan::links(b.nodes));
    let x = a.root_place();
    let r = choose|r: Seq<nat>| #[trigger]
        builder::linked(a.nodes, r) && builder::placed(a.places, a.nodes, r);
    let s = choose|s: Seq<nat>| #[trigger]
        builder::linked(b.nodes, s) && builder::placed(b.places, b.nodes, s);
    builder::lemma_linked_wf(a.nodes, r);
    builder::lemma_linked_wf(b.nodes, s);
    law_arena_only_grows(a, e, prior);
    lemma_no_lighter(a, e, prior);
    assert forall|i: int| 0 <= i < f.len() implies (#[trigger] f.kids[i]).is_prefix_of(
        g.kids[i],
    ) by {
        assert(b.nodes[i].name == a.nodes[i].name);
        assert(f.kids[i] == a.nodes[i].children && g.kids[i] == b.nodes[i].children);
    }
    assert forall|i: int| 0 <= i < f.len() implies #[trigger] scan::sizes(a.nodes)[i]
        <= scan::sizes(b.nodes)[i] by {
        assert(a.nodes[i].size <= b.nodes[i].size);
    }
    assert forall|i: int| 0 <= i < f.len() implies #[trigger] scan::privates(a.nodes)[i]
        <= scan::privates(b.nodes)[i] by {
        assert(a.nodes[i].private <= b.nodes[i].private);
    }
    assert forall|i: int| 0 <= i < f.len() implies #[trigger] scan::counts(a.nodes)[i]
        <= scan::counts(b.nodes)[i] by {
        assert(a.nodes[i].file_count <= b.nodes[i].file_count);
    }
    forest::lemma_total_grows(f, g, scan::sizes(a.nodes), scan::sizes(b.nodes), x);
    forest::lemma_total_grows(f, g, scan::privates(a.nodes), scan::privates(b.nodes), x);
    forest::lemma_total_grows(f, g, scan::counts(a.nodes), scan::counts(b.nodes), x);
}

// ---- the finished tree adds up ----------------------------------------------------------

/// Distinct nodes weigh the same in any order.
pub proof fn lemma_kid_sum_reordered(w: Seq<nat>, a: Seq<usize>, b: Seq<usize>)
    requires
        a.no_duplicates(),
        b.no_duplicates(),
        forall|x: usize| a.contains(x) <==> b.contains(x),
    ensures
        removal::kid_sum(w, a) == removal::kid_sum(w, b),
    decreases a.len(),
{
    if a.len() == 0 {
        if b.len() > 0 {
            assert(b.contains(b[0]));
        }
    } else {
        let x = a.last();
        let front = a.drop_last();
        let keep = removal::other_than(x as int);
        let rest = b.filter(keep);
        assert(a[a.len() - 1] == x);
        assert(a.contains(x));
        removal::lemma_kid_sum_filtered(w, b, x as int);
        text::lemma_filter_distinct(b, keep);
        assert(front.no_duplicates()) by {
            assert forall|i: int, j: int|
                0 <= i < front.len() && 0 <= j < front.len() && i != j implies front[i]
                != front[j] by {
                assert(a[i] != a[j]);
            }
        }
        assert forall|y: usize| front.contains(y) <==> rest.contains(y) by {
            if front.contains(y) {
                let i = choose|i: int| 0 <= i < front.len() && front[i] == y;
                assert(a[i] == y);
                assert(a[i] != a[a.len() - 1]);
                assert(a.contains(y));
                let j = choose|j: int| 0 <= j < b.len() && b[j] == y;
                text::lemma_filter_keeps(b, keep, j);
            }
            if rest.contains(y) {
                let j = choose|j: int| 0 <= j < rest.len() && rest[j] == y;
                text::lemma_filter_members(b, keep, j);
                assert(b.contains(y));
                assert(a.contains(y));
                let i = choose|i: int| 0 <= i < a.len() && a[i] == y;
                assert(front[i] == y);
            }
        }
        lemma_kid_sum_reordered(w, front, rest);
    }
}

pub proof fn lemma_kids_total_is_sum(f: forest::Forest, w: Seq<nat>, v: Seq<nat>, x: int, k: nat)
    requires
        f.wf(),
        0 <= x < f.len(),
        k <= f.kids[x].len(),
        forall|j: int|
            0 <= j < k ==> v[#[trigger] f.kids[x][j] as int] == forest::total(
                f,
                w,
                f.kids[x][j] as int,
            ),
    ensures
        forest::kids_total(f, w, x, k) == removal::kid_sum(v, f.kids[x].take(k as int)),
    decreases k,
{
    if k > 0 {
        lemma_kids_total_is_sum(f, w, v, x, (k - 1) as nat);
        let s = f.kids[x].take(k as int);
        assert(s.drop_last() =~= f.kids[x].take(k - 1));
        assert(s.last() == f.kids[x][k - 1]);
    }
}

/// Whether no directory has a weight of its own.
pub open spec fn dirs_weightless(ns: Seq<NodeView>) -> bool {
    forall|i: int|
        0 <= i < ns.len() && ((#[trigger] ns[i]).is_dir || ns[i].children.len() > 0) ==> ns[i].size
            == 0 && ns[i].private == 0 && ns[i].file_count == 0
}

proof fn lemma_settled_sums(
    ns: Seq<NodeView>,
    root: int,
    out: Seq<NodeView>,
    w: Seq<nat>,
    v: Seq<nat>,
)
    requires
        scan::links(ns).wf(),
        0 <= root < ns.len(),
        forall|i: int|
            0 <= i < ns.len() ==> #[trigger] forest::walk(scan::links(ns), root).contains(
                i as usize,
            ),
        scan::all_sorted(scan::aggregated(ns, root), out),
        w.len() == ns.len(),
        v.len() == ns.len(),
        forall|i: int| 0 <= i < ns.len() ==> #[trigger] v[i] == forest::total(scan::links(ns), w, i),
        forall|i: int|
            0 <= i < ns.len() && ((#[trigger] ns[i]).is_dir || ns[i].children.len() > 0) ==> w[i]
                == 0,
    ensures
        removal::sums(out, v),
{
    let f = scan::links(ns);
    let mid = scan::aggregated(ns, root);
    assert forall|i: int|
        0 <= i < out.len() && ((#[trigger] out[i]).is_dir || out[i].children.len() > 0) implies v[i]
        == removal::kid_sum(v, out[i].children) by {
        assert(scan::kids_sorted(mid, mid[i], out[i]));
        assert(mid[i].children == ns[i].children && mid[i].is_dir == ns[i].is_dir);
        let kids = f.kids[i];
        assert(kids == ns[i].children);
        assert(kids.no_duplicates());
        if ns[i].is_dir {
            scan::lemma_no_dup_len(f, i);
            order::lemma_sorted_keeps(kids, scan::kid_sizes(mid, kids), out[i].children);
        }
        lemma_kid_sum_reordered(v, kids, out[i].children);
        assert(out[i].children.len() > 0 ==> kids.len() > 0);
        assert(ns[i].is_dir || ns[i].children.len() > 0);
        assert forall|j: int| 0 <= j < kids.len() implies v[#[trigger] f.kids[i][j] as int]
            == forest::total(f, w, f.kids[i][j] as int) by {
            forest::lemma_kid(f, i, j);
        }
        lemma_kids_total_is_sum(f, w, v, i, kids.len());
        assert(kids.take(kids.len() as int) =~= kids);
        assert(v[i] == forest::total(f, w, i));
    }
}

/// In a finished tree every directory has the totals of its children.
pub proof fn law_finished_tree_adds_up(b: BuilderView, root: int, t: TreeView)
    requires
        scan::links(b.nodes).wf(),
        0 <= root < b.nodes.len(),
        scan::totals_fit(b.nodes, root),
        dirs_weightless(b.nodes),
        forall|i: int|
            0 <= i < b.nodes.len() ==> #[trigger] forest::walk(
                scan::links(b.nodes),
                root,
            ).contains(i as usize),
        b.is_tree(root, t),
    ensures
        removal::adds_up(t.nodes),
{
    let ns = b.nodes;
    let f = scan::links(ns);
    let mid = scan::aggregated(ns, root);
    assert forall|i: int| 0 <= i < ns.len() implies {
        &&& (#[trigger] t.nodes[i]).size == forest::total(f, scan::sizes(ns), i)
        &&& t.nodes[i].private == forest::total(f, scan::privates(ns), i)
        &&& t.nodes[i].file_count == forest::total(f, scan::counts(ns), i)
    } by {
        assert(forest::walk(f, root).contains(i as usize));
        let j = choose|j: int| 0 <= j < forest::walk(f, root).len() && forest::walk(f, root)[j] == i as usize;
        forest::lemma_walk_total_bound(f, scan::sizes(ns), root, j);
        forest::lemma_walk_total_bound(f, scan::privates(ns), root, j);
        forest::lemma_walk_total_bound(f, scan::counts(ns), root, j);
        assert(scan::kids_sorted(mid, mid[i], t.nodes[i]));
    }
    assert forall|i: int|
        0 <= i < ns.len() && ((#[trigger] ns[i]).is_dir || ns[i].children.len() > 0) implies scan::sizes(ns)[i]
        == 0 && scan::privates(ns)[i] == 0 && scan::counts(ns)[i] == 0 by {}
    assert forall|i: int| 0 <= i < ns.len() implies #[trigger] scan::sizes(t.nodes)[i]
        == forest::total(f, scan::sizes(ns), i) by {
        assert(t.nodes[i].size == forest::total(f, scan::sizes(ns), i));
    }
    assert forall|i: int| 0 <= i < ns.len() implies #[trigger] scan::privates(t.nodes)[i]
        == forest::total(f, scan::privates(ns), i) by {
        assert(t.nodes[i].private == forest::total(f, scan::privates(ns), i));
    }
    assert forall|i: int| 0 <= i < ns.len() implies #[trigger] scan::counts(t.nodes)[i]
        == forest::total(f, scan::counts(ns), i) by {
        assert(t.nodes[i].file_count == forest::total(f, scan::counts(ns), i));
    }
    lemma_settled_sums(ns, root, t.nodes, scan::sizes(ns), scan::sizes(t.nodes));
    lemma_settled_sums(ns, root, t.nodes, scan::privates(ns), scan::privates(t.nodes));
    lemma_settled_sums(ns, root, t.nodes, scan::counts(ns), scan::counts(t.nodes));
}

// ---- reuse adds what the index says -------------------------------------------------------

/// The weights, added up.
pub open spec fn sum(w: Seq<nat>) -> nat
    decreases w.len(),
{
    if w.len() == 0 {
        0
    } else {
        sum(w.drop_last()) + w.last()
    }
}

proof fn lemma_sum_push(w: Seq<nat>, n: nat)
    ensures
        sum(w.push(n)) == sum(w) + n,
{
    assert(w.push(n).drop_last() =~= w);
}

pub proof fn lemma_child_weight(ns: Seq<NodeView>, parent: int, n: NodeView)
    requires
        0 <= parent < ns.len(),
    ensures
        sum(scan::sizes(builder::with_child(ns, parent, n))) == sum(scan::sizes(ns)) + n.size,
        sum(scan::privates(builder::with_child(ns, parent, n))) == sum(scan::privates(ns))
            + n.private,
        sum(scan::counts(builder::with_child(ns, parent, n))) == sum(scan::counts(ns))
            + n.file_count,
{
    let out = builder::with_child(ns, parent, n);
    assert(scan::sizes(out) =~= scan::sizes(ns).push(n.size as nat));
    assert(scan::privates(out) =~= scan::privates(ns).push(n.private as nat));
    assert(scan::counts(out) =~= scan::counts(ns).push(n.file_count as nat));
    lemma_sum_push(scan::sizes(ns), n.size as nat);
    lemma_sum_push(scan::privates(ns), n.private as nat);
    lemma_sum_push(scan::counts(ns), n.file_count as nat);
}

proof fn lemma_large_weight(ns: Seq<NodeView>, parent: int, d: DirView, k: nat)
    requires
        0 <= parent < ns.len(),
        k <= d.large.len(),
    ensures
        ({
            let out = builder::with_children(
                ns,
                parent,
                index::large_nodes(parent as usize, d, k),
            );
            &&& sum(scan::sizes(out)) == sum(scan::sizes(ns)) + builder::large_bytes(d, k)
            &&& sum(scan::privates(out)) == sum(scan::privates(ns)) + builder::large_private(d, k)
            &&& sum(scan::counts(out)) == sum(scan::counts(ns)) + k
        }),
    decreases k,
{
    let fs = index::large_nodes(parent as usize, d, k);
    if k > 0 {
        assert(fs.drop_last() =~= index::large_nodes(parent as usize, d, (k - 1) as nat));
        lemma_large_weight(ns, parent, d, (k - 1) as nat);
        builder::lemma_with_children(ns, parent, fs.drop_last());
        lemma_child_weight(builder::with_children(ns, parent, fs.drop_last()), parent, fs.last());
    }
}

pub proof fn lemma_record_weight(ns: Seq<NodeView>, parent: int, ds: Seq<DirView>, rec: int)
    requires
        0 <= parent < ns.len(),
        0 <= rec < ds.len(),
    ensures
        ({
            let out = builder::with_children(
                ns,
                parent,
                index::file_nodes(parent as usize, ds[rec]),
            );
            &&& sum(scan::sizes(out)) == sum(scan::sizes(ns)) + builder::byte_weights(ds)[rec]
            &&& sum(scan::privates(out)) == sum(scan::privates(ns)) + builder::private_weights(
                ds,
            )[rec]
            &&& sum(scan::counts(out)) == sum(scan::counts(ns)) + builder::file_weights(ds)[rec]
        }),
{
    let d = ds[rec];
    let large = index::large_nodes(parent as usize, d, d.large.len());
    lemma_large_weight(ns, parent, d, d.large.len());
    if d.own_files > 0 {
        let fs = index::file_nodes(parent as usize, d);
        assert(fs.drop_last() =~= large);
        builder::lemma_with_children(ns, parent, large);
        lemma_child_weight(builder::with_children(ns, parent, large), parent, fs.last());
    }
}

/// Attaching a cached subtree adds to the arena just the bytes, the unshared bytes
/// and the files that the index has at and below its record.
pub proof fn law_reuse_adds_what_the_index_says(
    ns: Seq<NodeView>,
    parent: int,
    ds: Seq<DirView>,
    rec: int,
)
    requires
        0 <= parent < ns.len(),
        index::dir_links(ds).wf(),
        0 <= rec < ds.len(),
    ensures
        ({
            let g = index::dir_links(ds);
            let out = builder::with_subtree(ns, parent, ds, rec);
            &&& sum(scan::sizes(out)) == sum(scan::sizes(ns)) + forest::total(
                g,
                builder::byte_weights(ds),
                rec,
            )
            &&& sum(scan::privates(out)) == sum(scan::privates(ns)) + forest::total(
                g,
                builder::private_weights(ds),
                rec,
            )
            &&& sum(scan::counts(out)) == sum(scan::counts(ns)) + forest::total(
                g,
                builder::file_weights(ds),
                rec,
            )
        }),
    decreases forest::height(index::dir_links(ds), rec), index::dir_kids(ds, rec).len() + 1,
{
    let fs = index::file_nodes(parent as usize, ds[rec]);
    builder::lemma_with_children(ns, parent, fs);
    lemma_record_weight(ns, parent, ds, rec);
    assert(index::dir_links(ds).kids[rec] == index::dir_kids(ds, rec));
    lemma_subdirs_weight(
        builder::with_children(ns, parent, fs),
        parent,
        ds,
        rec,
        index::dir_kids(ds, rec).len(),
    );
}

proof fn lemma_subdirs_weight(ns: Seq<NodeView>, parent: int, ds: Seq<DirView>, rec: int, k: nat)
    requires
        0 <= parent < ns.len(),
        index::dir_links(ds).wf(),
        0 <= rec < ds.len(),
        k <= index::dir_kids(ds, rec).len(),
    ensures
        ({
            let g = index::dir_links(ds);
            let out = builder::with_subdirs(ns, parent, ds, rec, k);
            &&& sum(scan::sizes(out)) == sum(scan::sizes(ns)) + forest::kids_total(
                g,
                builder::byte_weights(ds),
                rec,
                k,
            )
            &&& sum(scan::privates(out)) == sum(scan::privates(ns)) + forest::kids_total(
                g,
                builder::private_weights(ds),
                rec,
                k,
            )
            &&& sum(scan::counts(out)) == sum(scan::counts(ns)) + forest::kids_total(
                g,
                builder::file_weights(ds),
                rec,
                k,
            )
        }),
    decreases forest::height(index::dir_links(ds), rec), k,
{
    let g = index::dir_links(ds);
    assert(g.kids[rec] == index::dir_kids(ds, rec));
    if k > 0 {
        forest::lemma_kid(g, rec, k - 1);
        lemma_subdirs_extends(ns, parent, ds, rec, (k - 1) as nat);
        lemma_subdirs_weight(ns, parent, ds, rec, (k - 1) as nat);
        let m = builder::with_subdirs(ns, parent, ds, rec, (k - 1) as nat);
        let c = index::dir_kids(ds, rec)[k - 1] as int;
        let n = builder::cached_dir(ds[c], parent);
        lemma_child_weight(m, parent, n);
        law_reuse_adds_what_the_index_says(
            builder::with_child(m, parent, n),
            m.len() as int,
            ds,
            c,
        );
    }
}

proof fn lemma_small_files_weigh_less(ns: Seq<NodeView>, kids: Seq<usize>, threshold: u64, k: nat)
    requires
        k <= kids.len(),
        forall|j: int| 0 <= j < kids.len() ==> #[trigger] kids[j] < ns.len(),
    ensures
        index::small_bytes(ns, kids, threshold, k) <= removal::kid_sum(
            scan::sizes(ns),
            kids.take(k as int),
        ),
        index::small_private(ns, kids, threshold, k) <= removal::kid_sum(
            scan::privates(ns),
            kids.take(k as int),
        ),
        index::small_files(ns, kids, threshold, k) <= removal::kid_sum(
            scan::counts(ns),
            kids.take(k as int),
        ),
    decreases k,
{
    if k > 0 {
        lemma_small_files_weigh_less(ns, kids, threshold, (k - 1) as nat);
        assert(kids.take(k as int).drop_last() =~= kids.take(k - 1));
        assert(kids.take(k as int).last() == kids[k - 1]);
    }
}

/// Where every directory weighs what its entries do, its small files can be counted.
pub proof fn law_adding_up_fits(t: TreeView, threshold: u64)
    requires
        t.wf(),
        removal::adds_up(t.nodes),
    ensures
        index::small_fit(t.nodes, threshold),
{
    let ns = t.nodes;
    let f = scan::links(ns);
    assert forall|i: int| 0 <= i < ns.len() implies index::kids_fit(
        ns,
        (#[trigger] ns[i]).children,
        threshold,
    ) by {
        let kids = ns[i].children;
        assert(f.kids[i] == kids);
        assert forall|j: int| 0 <= j < kids.len() implies #[trigger] kids[j] < ns.len() by {
            assert(f.kids[i][j] < f.len());
        }
        lemma_small_files_weigh_less(ns, kids, threshold, kids.len());
        assert(kids.take(kids.len() as int) =~= kids);
        if kids.len() > 0 {
            assert(scan::sizes(ns)[i] == removal::kid_sum(scan::sizes(ns), kids));
            assert(scan::privates(ns)[i] == removal::kid_sum(scan::privates(ns), kids));
            assert(scan::counts(ns)[i] == removal::kid_sum(scan::counts(ns), kids));
        }
    }
}

} // verus!
