//! Finding nodes in a tree, and the largest below one.

use vstd::prelude::*;

use crate::forest;
use crate::forest::Forest;
use crate::order;
use crate::order::sort_desc;
use crate::path;
use crate::path::{components, comps_start_with};
use crate::scan;
use crate::scan::{NodeView, Tree, TreeView};
use crate::text;
use crate::text::str_eq;

verus! {

// ---- by path ------------------------------------------------------------------------

/// The first of the children from the `k`-th on that has the name.
pub open spec fn child_named(ns: Seq<NodeView>, kids: Seq<usize>, name: Seq<char>, k: nat) -> Option<
    int,
>
    decreases kids.len() - k,
{
    if k >= kids.len() {
        None
    } else if ns[kids[k as int] as int].name == name {
        Some(kids[k as int] as int)
    } else {
        child_named(ns, kids, name, k + 1)
    }
}

/// Where the first `k` names lead from the node `from`.
pub open spec fn descent(ns: Seq<NodeView>, from: int, names: Seq<Seq<char>>, k: nat) -> Option<int>
    decreases k,
{
    if k == 0 {
        Some(from)
    } else {
        match descent(ns, from, names, (k - 1) as nat) {
            Some(i) => child_named(ns, ns[i].children, names[k - 1], 0),
            None => None,
        }
    }
}

/// The node at a path.
pub open spec fn located(t: TreeView, p: Seq<char>) -> Option<int> {
    if path::within(p, t.root_path) {
        let names = path::comps(p).skip(path::comps(t.root_path).len() as int);
        descent(t.nodes, t.root as int, names, names.len())
    } else {
        None
    }
}

fn find_child(tree: &Tree, at: usize, name: &str) -> (r: Option<usize>)
    requires
        tree@.wf(),
        at < tree.nodes@.len(),
    ensures
        match r {
            Some(c) => c < tree.nodes@.len() && child_named(
                tree@.nodes,
                tree@.nodes[at as int].children,
                name@,
                0,
            ) == Some(c as int),
            None => child_named(tree@.nodes, tree@.nodes[at as int].children, name@, 0) is None,
        },
{
    let ghost ns = tree@.nodes;
    let ghost f = scan::links(ns);
    let n = &tree.nodes[at];
    let ghost kids = ns[at as int].children;
    assert(ns[at as int] == n@);
    let mut k: usize = 0;
    while k < n.children.len()
        invariant
            ns == tree@.nodes,
            f == scan::links(ns),
            f.wf(),
            at < ns.len(),
            kids == ns[at as int].children,
            kids == n.children@,
            k <= kids.len(),
            child_named(ns, kids, name@, 0) == child_named(ns, kids, name@, k as nat),
        decreases kids.len() - k,
    {
        let c: usize = n.children[k];
        proof {
            assert(f.kids[at as int] == kids);
            assert(f.kids[at as int][k as int] < f.len());
            assert(ns[c as int] == tree.nodes@[c as int]@);
        }
        if str_eq(tree.nodes[c].name.as_str(), name) {
            return Some(c);
        }
        k += 1;
    }
    None
}

/// Locate a node by absolute path in a tree.
pub fn node_at(tree: &Tree, p: &str) -> (r: Option<usize>)
    requires
        tree@.wf(),
    ensures
        match r {
            Some(i) => i < tree.nodes@.len() && located(tree@, p@) == Some(i as int),
            None => located(tree@, p@) is None,
        },
{
    let ghost t = tree@;
    let cp = components(p);
    let cr = components(tree.root_path.as_str());
    if !comps_start_with(&cp, &cr) {
        return None;
    }
    let skip: usize = cr.len();
    let ghost names = path::comps(p@).skip(skip as int);
    assert(path::comps(t.root_path).len() == skip);
    assert(path::comps(p@).len() == cp@.len());
    let mut cur: usize = tree.root;
    let mut k: usize = skip;
    while k < cp.len()
        invariant
            t == tree@,
            t.wf(),
            text::strs(cp@) == path::comps(p@),
            names == path::comps(p@).skip(skip as int),
            skip <= k <= cp@.len(),
            cur < t.nodes.len(),
            descent(t.nodes, t.root as int, names, (k - skip) as nat) == Some(cur as int),
            located(t, p@) == descent(t.nodes, t.root as int, names, names.len()),
        decreases cp@.len() - k,
    {
        assert(names[k - skip] == cp@[k as int]@);
        match find_child(tree, cur, cp[k].as_str()) {
            Some(c) => {
                cur = c;
            },
            None => {
                proof {
                    lemma_lost(t.nodes, t.root as int, names, (k - skip + 1) as nat, names.len());
                }
                return None;
            },
        }
        k += 1;
    }
    Some(cur)
}

/// Where the first names lead nowhere, more of them lead nowhere.
proof fn lemma_lost(ns: Seq<NodeView>, from: int, names: Seq<Seq<char>>, k: nat, n: nat)
    requires
        k <= n,
        descent(ns, from, names, k) is None,
    ensures
        descent(ns, from, names, n) is None,
    decreases n,
{
    if k < n {
        lemma_lost(ns, from, names, k, (n - 1) as nat);
    }
}

/// Whether each name can stand in a path, and no two children of a node share one.
pub open spec fn names_tell(t: TreeView) -> bool {
    &&& t.root_path.len() > 0
    &&& forall|i: int|
        0 <= i < t.nodes.len() && i != t.root ==> path::plain((#[trigger] t.nodes[i]).name)
    &&& forall|i: int, j: int|
        0 <= i < t.nodes.len() && 0 <= j < t.nodes.len() && i != j && (
        #[trigger] t.nodes[i]).parent is Some && t.nodes[i].parent == (
        #[trigger] t.nodes[j]).parent ==> t.nodes[i].name != t.nodes[j].name
}

/// The nodes of a tree are found by their paths, as long as names are ones that a
/// file system gives.
pub proof fn law_nodes_are_found(t: TreeView, i: int)
    requires
        t.wf(),
        names_tell(t),
        0 <= i < t.nodes.len(),
        forest::lineage(scan::links(t.nodes), i).contains(t.root),
    ensures
        located(t, scan::node_path(t, i)) == Some(i),
    decreases forest::rank(scan::links(t.nodes), i),
{
    let f = scan::links(t.nodes);
    let base = path::comps(t.root_path);
    if i == t.root {
        assert(base.skip(base.len() as int) =~= Seq::<Seq<char>>::empty());
        assert(base.is_prefix_of(base)) by {
            assert(base.take(base.len() as int) =~= base);
        }
    } else {
        forest::lemma_rank(f);
        assert(f.par[i] == t.nodes[i].parent);
        lemma_lineage_up(f, i, t.root);
        let p = t.nodes[i].parent->0 as int;
        law_nodes_are_found(t, p);
        lemma_path_nonempty(t, p);
        let up = scan::node_path(t, p);
        let name = t.nodes[i].name;
        path::lemma_comps_join(up, name);
        let cs = path::comps(scan::node_path(t, i));
        assert(cs == path::comps(up).push(name));
        assert(base.is_prefix_of(cs)) by {
            assert(cs.take(base.len() as int) =~= path::comps(up).take(base.len() as int));
        }
        let a = path::comps(up).skip(base.len() as int);
        let b = cs.skip(base.len() as int);
        assert(b =~= a.push(name));
        lemma_descent_prefix(t.nodes, t.root as int, a, b, a.len());
        let kids = t.nodes[p].children;
        assert(f.kids[p] == kids);
        assert(kids.contains(i as usize));
        let k = choose|k: int| 0 <= k < kids.len() && kids[k] == i as usize;
        assert forall|j: int| 0 <= j < kids.len() && j != k implies t.nodes[
            #[trigger] kids[j] as int
        ].name != name by {
            assert(f.par[f.kids[p][j] as int] == Some(p as usize));
            assert(f.kids[p].no_duplicates());
            assert(t.nodes[kids[j] as int].parent == t.nodes[i].parent);
        }
        lemma_only_child_named(t.nodes, kids, name, k, 0);
    }
}

/// What is found by a path lies at that path.
pub proof fn law_what_is_found_lies_there(t: TreeView, p: Seq<char>, i: int)
    requires
        t.wf(),
        names_tell(t),
        located(t, p) == Some(i),
    ensures
        0 <= i < t.nodes.len(),
        path::same(scan::node_path(t, i), p),
{
    let base = path::comps(t.root_path);
    let names = path::comps(p).skip(base.len() as int);
    lemma_descent_path(t, names, names.len(), i);
    assert(path::comps(p) =~= base + names.take(names.len() as int)) by {
        assert(names.take(names.len() as int) =~= names);
        assert(path::comps(p).take(base.len() as int) =~= base);
    }
}

proof fn lemma_child_named(t: TreeView, x: int, name: Seq<char>, k: nat)
    requires
        t.wf(),
        0 <= x < t.nodes.len(),
    ensures
        child_named(t.nodes, t.nodes[x].children, name, k) matches Some(c) ==> {
            &&& 0 <= c < t.nodes.len()
            &&& t.nodes[c].name == name
            &&& t.nodes[c].parent == Some(x as usize)
        },
    decreases t.nodes[x].children.len() - k,
{
    let kids = t.nodes[x].children;
    let f = scan::links(t.nodes);
    if k < kids.len() {
        assert(f.kids[x][k as int] == kids[k as int]);
        assert(f.par[kids[k as int] as int] == t.nodes[kids[k as int] as int].parent);
        if t.nodes[kids[k as int] as int].name != name {
            lemma_child_named(t, x, name, k + 1);
        }
    }
}

proof fn lemma_descent_path(t: TreeView, names: Seq<Seq<char>>, k: nat, i: int)
    requires
        t.wf(),
        names_tell(t),
        k <= names.len(),
        descent(t.nodes, t.root as int, names, k) == Some(i),
    ensures
        0 <= i < t.nodes.len(),
        forest::rank(scan::links(t.nodes), t.root as int) + k <= forest::rank(
            scan::links(t.nodes),
            i,
        ),
        path::comps(scan::node_path(t, i)) == path::comps(t.root_path) + names.take(k as int),
    decreases k,
{
    let f = scan::links(t.nodes);
    if k == 0 {
        assert(path::comps(t.root_path) + names.take(0) =~= path::comps(t.root_path));
    } else {
        let y = descent(t.nodes, t.root as int, names, (k - 1) as nat)->0;
        lemma_descent_path(t, names, (k - 1) as nat, y);
        lemma_child_named(t, y, names[k - 1], 0);
        forest::lemma_rank(f);
        assert(f.par[i] == t.nodes[i].parent);
        lemma_path_nonempty(t, y);
        assert(path::plain(t.nodes[i].name));
        path::lemma_comps_join(scan::node_path(t, y), t.nodes[i].name);
        assert(path::comps(t.root_path) + names.take(k as int) =~= (path::comps(t.root_path)
            + names.take(k - 1)).push(names[k - 1]));
    }
}

proof fn lemma_path_nonempty(t: TreeView, i: int)
    requires
        t.wf(),
        names_tell(t),
        0 <= i < t.nodes.len(),
    ensures
        scan::node_path(t, i).len() > 0,
{
    if i != t.root {
        assert(path::plain(t.nodes[i].name));
    }
}

proof fn lemma_lineage_up(f: Forest, i: int, root: usize)
    requires
        f.wf(),
        0 <= i < f.len(),
        i != root,
        forest::lineage(f, i).contains(root),
    ensures
        f.par[i] is Some,
        forest::lineage(f, f.par[i]->0 as int).contains(root),
{
    let l = forest::lineage(f, i);
    let k = choose|k: int| 0 <= k < l.len() && l[k] == root;
    forest::lemma_lineage(f, i);
    if let Some(p) = f.par[i] {
        let up = forest::lineage(f, p as int);
        assert(up[k] == l[k]);
    }
}

proof fn lemma_descent_prefix(
    ns: Seq<NodeView>,
    from: int,
    a: Seq<Seq<char>>,
    b: Seq<Seq<char>>,
    k: nat,
)
    requires
        k <= a.len(),
        k <= b.len(),
        forall|i: int| 0 <= i < k ==> a[i] == b[i],
    ensures
        descent(ns, from, a, k) == descent(ns, from, b, k),
    decreases k,
{
    if k > 0 {
        lemma_descent_prefix(ns, from, a, b, (k - 1) as nat);
    }
}

proof fn lemma_only_child_named(
    ns: Seq<NodeView>,
    kids: Seq<usize>,
    name: Seq<char>,
    k: int,
    from: nat,
)
    requires
        from <= k < kids.len(),
        ns[kids[k] as int].name == name,
        forall|j: int|
            0 <= j < kids.len() && j != k ==> ns[#[trigger] kids[j] as int].name != name,
    ensures
        child_named(ns, kids, name, from) == Some(kids[k] as int),
    decreases k - from,
{
    if from < k {
        assert(ns[kids[from as int] as int].name != name);
        lemma_only_child_named(ns, kids, name, k, from + 1);
    }
}

// ---- what lies below -----------------------------------------------------------------

/// Tells the directories that have a path of their own.
pub open spec fn opens(ns: Seq<NodeView>) -> spec_fn(usize) -> bool {
    |c: usize| ns[c as int].is_dir && !ns[c as int].synthetic
}

/// Tells the nodes that are listed: those with a path of their own, and only the
/// directories among them where only those are asked for.
pub open spec fn shows(ns: Seq<NodeView>, dirs_only: bool) -> spec_fn(usize) -> bool {
    |c: usize| !ns[c as int].synthetic && (!dirs_only || ns[c as int].is_dir)
}

/// The links between directories.
pub open spec fn folders(ns: Seq<NodeView>) -> Forest {
    forest::pruned(scan::links(ns), opens(ns))
}

/// The listed children of the first `k` nodes of `order`, one node after the other.
pub open spec fn shown_upto(ns: Seq<NodeView>, order: Seq<usize>, dirs_only: bool, k: nat) -> Seq<
    usize,
>
    decreases k,
{
    if k == 0 {
        Seq::empty()
    } else {
        shown_upto(ns, order, dirs_only, (k - 1) as nat) + ns[order[k - 1] as int].children.filter(
            shows(ns, dirs_only),
        )
    }
}

/// Everything that is listed anywhere below a node.
pub open spec fn below(ns: Seq<NodeView>, start: int, dirs_only: bool) -> Seq<usize> {
    let order = forest::walk(folders(ns), start);
    shown_upto(ns, order, dirs_only, order.len())
}

/// Lists the children of a node, and opens the directories among them.
fn list_children(
    tree: &Tree,
    at: usize,
    dirs_only: bool,
    out: &mut Vec<usize>,
    stack: &mut Vec<usize>,
)
    requires
        tree@.wf(),
        at < tree.nodes@.len(),
    ensures
        final(out)@ == old(out)@ + tree@.nodes[at as int].children.filter(
            shows(tree@.nodes, dirs_only),
        ),
        final(stack)@ == old(stack)@ + folders(tree@.nodes).kids[at as int],
{
    let ghost ns = tree@.nodes;
    let ghost f = scan::links(ns);
    let n = &tree.nodes[at];
    let ghost kids = ns[at as int].children;
    let ghost (show, open) = (shows(ns, dirs_only), opens(ns));
    let ghost (out0, st0) = (out@, stack@);
    let mut k: usize = 0;
    assert(ns[at as int] == n@);
    assert(f.kids[at as int] == kids);
    proof {
        reveal_with_fuel(Seq::filter, 1);
        assert(kids.take(0).filter(show) =~= Seq::<usize>::empty());
        assert(kids.take(0).filter(open) =~= Seq::<usize>::empty());
        assert(out@ =~= out0 + kids.take(0).filter(show));
        assert(stack@ =~= st0 + kids.take(0).filter(open));
    }
    while k < n.children.len()
        invariant
            ns == tree@.nodes,
            f == scan::links(ns),
            f.wf(),
            at < ns.len(),
            f.kids[at as int] == kids,
            kids == n.children@,
            show == shows(ns, dirs_only),
            open == opens(ns),
            k <= kids.len(),
            out@ == out0 + kids.take(k as int).filter(show),
            stack@ == st0 + kids.take(k as int).filter(open),
        decreases kids.len() - k,
    {
        let c: usize = n.children[k];
        proof {
            assert(f.kids[at as int][k as int] < f.len());
            assert(ns[c as int] == tree.nodes@[c as int]@);
            let s = kids.take(k + 1);
            assert(s.drop_last() =~= kids.take(k as int));
            assert(s.last() == c);
            text::lemma_filter_last(s, show);
            text::lemma_filter_last(s, open);
        }
        let ch = &tree.nodes[c];
        if !ch.synthetic {
            if !dirs_only || ch.is_dir {
                out.push(c);
            }
            if ch.is_dir {
                stack.push(c);
            }
        }
        k += 1;
        assert(out@ =~= out0 + kids.take(k as int).filter(show));
        assert(stack@ =~= st0 + kids.take(k as int).filter(open));
    }
    assert(kids.take(k as int) =~= kids);
}

/// Everything that is listed anywhere below a node. Stand-ins for small files are
/// left out: they have no path to act on.
pub fn entries_below(tree: &Tree, start: usize, dirs_only: bool) -> (r: Vec<usize>)
    requires
        tree@.wf(),
        start < tree.nodes@.len(),
    ensures
        r@ == below(tree@.nodes, start as int, dirs_only),
        forall|i: int| 0 <= i < r@.len() ==> #[trigger] r@[i] < tree.nodes@.len(),
{
    let ghost ns = tree@.nodes;
    let ghost g = folders(ns);
    let ghost order = forest::walk(g, start as int);
    let ghost mut done = Seq::<usize>::empty();
    proof {
        forest::lemma_pruned_wf(scan::links(ns), opens(ns));
    }
    let mut out: Vec<usize> = Vec::new();
    let mut stack: Vec<usize> = Vec::new();
    stack.push(start);
    assert(stack@ =~= seq![start]);
    assert(stack@.drop_last() =~= Seq::<usize>::empty());
    assert(forest::stack_walk(g, stack@.drop_last()) == Seq::<usize>::empty());
    assert(done + forest::stack_walk(g, stack@) =~= order);
    while stack.len() > 0
        invariant
            ns == tree@.nodes,
            tree@.wf(),
            g == folders(ns),
            g.wf(),
            g.len() == ns.len(),
            order == forest::walk(g, start as int),
            done + forest::stack_walk(g, stack@) == order,
            forall|j: int| 0 <= j < stack@.len() ==> #[trigger] stack@[j] < g.len(),
            out@ == shown_upto(ns, order, dirs_only, done.len()),
        decreases forest::stack_walk(g, stack@).len(),
    {
        let ghost st0 = stack@;
        let ghost done0 = done;
        let n: usize = stack.pop().unwrap();
        let ghost st = stack@;
        assert(st =~= st0.drop_last());
        assert(n == st0[st0.len() - 1]);
        let ghost kids = g.kids[n as int];
        let ghost kw = forest::kids_walk(g, n as int, kids.len());
        list_children(tree, n, dirs_only, &mut out, &mut stack);
        proof {
            assert(kids.take(kids.len() as int) =~= kids);
            forest::lemma_stack_push(g, st, n as int, kids.len());
            assert(done0 + ((seq![n] + kw) + forest::stack_walk(g, st)) =~= done0.push(n) + (kw
                + forest::stack_walk(g, st)));
            done = done0.push(n);
            assert(order[done0.len() as int] == n);
            assert forall|j: int| 0 <= j < stack@.len() implies #[trigger] stack@[j]
                < g.len() by {
                if j < st.len() {
                    assert(stack@[j] == st0[j]);
                } else {
                    forest::lemma_kid(g, n as int, j - st.len());
                }
            }
        }
    }
    assert(done =~= order);
    assert forall|i: int| 0 <= i < out@.len() implies #[trigger] out@[i] < ns.len() by {
        lemma_shown_in_range(tree@, start as int, dirs_only, order.len(), i);
    }
    out
}

proof fn lemma_shown_in_range(t: TreeView, start: int, dirs_only: bool, k: nat, i: int)
    requires
        t.wf(),
        folders(t.nodes).wf(),
        0 <= start < t.nodes.len(),
        k <= forest::walk(folders(t.nodes), start).len(),
        0 <= i < shown_upto(t.nodes, forest::walk(folders(t.nodes), start), dirs_only, k).len(),
    ensures
        shown_upto(t.nodes, forest::walk(folders(t.nodes), start), dirs_only, k)[i]
            < t.nodes.len(),
    decreases k,
{
    let g = folders(t.nodes);
    let f = scan::links(t.nodes);
    let order = forest::walk(g, start);
    let before = shown_upto(t.nodes, order, dirs_only, (k - 1) as nat);
    if i < before.len() {
        lemma_shown_in_range(t, start, dirs_only, (k - 1) as nat, i);
    } else {
        forest::lemma_walk_member(g, start, k - 1);
        let x = order[k - 1] as int;
        let kids = t.nodes[x].children;
        let show = shows(t.nodes, dirs_only);
        text::lemma_filter_members(kids, show, i - before.len());
        let j = choose|j: int| 0 <= j < kids.len() && kids[j] == kids.filter(show)[i - before.len()];
        assert(f.kids[x] == kids);
        assert(f.kids[x][j] < f.len());
    }
}

/// The sizes of nodes.
pub open spec fn node_sizes(ns: Seq<NodeView>, v: Seq<usize>) -> Seq<u64> {
    v.map_values(|i: usize| ns[i as int].size)
}

/// The nodes, the largest first.
pub fn largest_first(tree: &Tree, v: Vec<usize>) -> (r: Vec<usize>)
    requires
        forall|i: int| 0 <= i < v@.len() ==> #[trigger] v@[i] < tree.nodes@.len(),
    ensures
        order::sorted_desc(v@, node_sizes(tree@.nodes, v@), r@),
        forall|i: int| 0 <= i < r@.len() ==> #[trigger] r@[i] < tree.nodes@.len(),
{
    let ghost ns = tree@.nodes;
    let ghost want = node_sizes(ns, v@);
    let mut keys: Vec<u64> = Vec::new();
    let mut i: usize = 0;
    while i < v.len()
        invariant
            ns == tree@.nodes,
            want == node_sizes(ns, v@),
            forall|i: int| 0 <= i < v@.len() ==> #[trigger] v@[i] < tree.nodes@.len(),
            i <= v@.len(),
            keys@ == want.take(i as int),
        decreases v@.len() - i,
    {
        assert(v@[i as int] < ns.len());
        assert(ns[v@[i as int] as int] == tree.nodes@[v@[i as int] as int]@);
        keys.push(tree.nodes[v[i]].size);
        i += 1;
        assert(keys@ =~= want.take(i as int));
    }
    assert(keys@ =~= want);
    let ghost all = v@;
    let r = sort_desc(v, &keys);
    proof {
        let p = choose|p: Seq<usize>| #[trigger]
            order::is_order(want, p) && r@ == order::arranged(all, p);
        assert forall|i: int| 0 <= i < r@.len() implies #[trigger] r@[i] < ns.len() by {
            assert(p[i] < want.len());
            assert(r@[i] == all[p[i] as int]);
        }
    }
    r
}

/// A node is listed below another where it is a shown child of a node that is walked.
proof fn lemma_shown(t: TreeView, order: Seq<usize>, dirs_only: bool, k: nat, c: usize)
    requires
        k <= order.len(),
    ensures
        shown_upto(t.nodes, order, dirs_only, k).contains(c) <==> !t.nodes[c as int].synthetic && (
        !dirs_only || t.nodes[c as int].is_dir) && exists|j: int|
            0 <= j < k && t.nodes[(#[trigger] order[j]) as int].children.contains(c),
    decreases k,
{
    if k > 0 {
        let show = shows(t.nodes, dirs_only);
        let kids = t.nodes[order[k - 1] as int].children;
        let before = shown_upto(t.nodes, order, dirs_only, (k - 1) as nat);
        let now = before + kids.filter(show);
        lemma_shown(t, order, dirs_only, (k - 1) as nat, c);
        if now.contains(c) {
            let i = choose|i: int| 0 <= i < now.len() && now[i] == c;
            if i < before.len() {
                assert(before[i] == c);
            } else {
                text::lemma_filter_members(kids, show, i - before.len());
            }
        }
        if before.contains(c) {
            let i = choose|i: int| 0 <= i < before.len() && before[i] == c;
            assert(now[i] == c);
        }
        if kids.contains(c) && show(c) {
            let i = choose|i: int| 0 <= i < kids.len() && kids[i] == c;
            text::lemma_filter_keeps(kids, show, i);
            let m = choose|m: int| 0 <= m < kids.filter(show).len() && kids.filter(show)[m] == c;
            assert(now[before.len() + m] == c);
        }
    }
}

proof fn lemma_shown_once(t: TreeView, order: Seq<usize>, dirs_only: bool, k: nat)
    requires
        t.wf(),
        k <= order.len(),
        order.no_duplicates(),
        forall|j: int| 0 <= j < order.len() ==> #[trigger] order[j] < t.nodes.len(),
    ensures
        shown_upto(t.nodes, order, dirs_only, k).no_duplicates(),
    decreases k,
{
    if k > 0 {
        let f = scan::links(t.nodes);
        let show = shows(t.nodes, dirs_only);
        let x = order[k - 1] as int;
        let kids = t.nodes[x].children;
        let some = kids.filter(show);
        let before = shown_upto(t.nodes, order, dirs_only, (k - 1) as nat);
        lemma_shown_once(t, order, dirs_only, (k - 1) as nat);
        assert(f.kids[x] == kids);
        text::lemma_filter_distinct(kids, show);
        let now = before + some;
        assert forall|a: int, b: int| 0 <= a < b < now.len() implies now[a] != now[b] by {
            if a < before.len() && b >= before.len() {
                let c = now[a];
                assert(before[a] == c);
                assert(before.contains(c));
                lemma_shown(t, order, dirs_only, (k - 1) as nat, c);
                let j = choose|j: int|
                    0 <= j < k - 1 && t.nodes[(#[trigger] order[j]) as int].children.contains(c);
                let y = order[j] as int;
                assert(f.kids[y] == t.nodes[y].children);
                let m = choose|m: int| 0 <= m < f.kids[y].len() && f.kids[y][m] == c;
                assert(f.par[f.kids[y][m] as int] == Some(y as usize));
                text::lemma_filter_members(kids, show, b - before.len());
                let d = now[b];
                let n = choose|n: int| 0 <= n < kids.len() && kids[n] == d;
                assert(f.par[f.kids[x][n] as int] == Some(x as usize));
                assert(order[j] != order[k - 1]);
            } else if a >= before.len() {
                assert(some[a - before.len()] != some[b - before.len()]);
            } else {
                assert(before[a] != before[b]);
            }
        }
    }
}

/// What is listed below a node is each of its children, each child of a directory that is
/// listed, and so on down, once, and nothing else: no stand-in for small files, and only
/// directories where only those are asked for.
pub proof fn law_everything_below_is_listed(t: TreeView, start: int, dirs_only: bool)
    requires
        t.wf(),
        0 <= start < t.nodes.len(),
    ensures
        below(t.nodes, start, dirs_only).no_duplicates(),
        forall|c: usize| #[trigger]
            below(t.nodes, start, dirs_only).contains(c) ==> {
                &&& c < t.nodes.len()
                &&& !t.nodes[c as int].synthetic
                &&& dirs_only ==> t.nodes[c as int].is_dir
                &&& t.nodes[c as int].parent matches Some(p) && (p == start || below(
                    t.nodes,
                    start,
                    dirs_only,
                ).contains(p) && t.nodes[p as int].is_dir)
            },
        forall|c: usize|
            c < t.nodes.len() && !t.nodes[c as int].synthetic && (!dirs_only
                || t.nodes[c as int].is_dir) && (t.nodes[c as int].parent matches Some(p) && (p
                == start || below(t.nodes, start, dirs_only).contains(p)
                && t.nodes[p as int].is_dir)) ==> #[trigger] below(
                t.nodes,
                start,
                dirs_only,
            ).contains(c),
{
    let ns = t.nodes;
    let f = scan::links(ns);
    let g = folders(ns);
    let order = forest::walk(g, start);
    let all = below(ns, start, dirs_only);
    forest::lemma_pruned_wf(f, opens(ns));
    forest::lemma_walk_distinct(g, start);
    assert forall|j: int| 0 <= j < order.len() implies #[trigger] order[j] < ns.len() by {
        forest::lemma_walk_member(g, start, j);
    }
    lemma_shown_once(t, order, dirs_only, order.len());
    assert(order[0] == start as usize);
    assert forall|c: usize| #[trigger] all.contains(c) implies {
        &&& c < ns.len()
        &&& !ns[c as int].synthetic
        &&& dirs_only ==> ns[c as int].is_dir
        &&& ns[c as int].parent matches Some(p) && (p == start || all.contains(p)
            && ns[p as int].is_dir)
    } by {
        lemma_shown(t, order, dirs_only, order.len(), c);
        let j = choose|j: int|
            0 <= j < order.len() && ns[(#[trigger] order[j]) as int].children.contains(c);
        let x = order[j] as int;
        assert(f.kids[x] == ns[x].children);
        let m = choose|m: int| 0 <= m < f.kids[x].len() && f.kids[x][m] == c;
        assert(f.par[f.kids[x][m] as int] == Some(x as usize));
        if j > 0 {
            lemma_walked_is_listed(t, start, dirs_only, j);
        }
    }
    assert forall|c: usize|
        c < ns.len() && !ns[c as int].synthetic && (!dirs_only || ns[c as int].is_dir) && (
        ns[c as int].parent matches Some(p) && (p == start || all.contains(p)
            && ns[p as int].is_dir)) implies #[trigger] all.contains(c) by {
        lemma_shown(t, order, dirs_only, order.len(), c);
        let p = ns[c as int].parent->0;
        assert(f.par[c as int] == Some(p));
        assert(f.kids[p as int].contains(c));
        assert(f.kids[p as int] == ns[p as int].children);
        if p != start {
            lemma_listed_is_walked(t, start, dirs_only, p);
            let j = choose|j: int| 0 <= j < order.len() && order[j] == p;
            assert(ns[order[j] as int].children.contains(c));
        }
    }
}

/// A directory that is walked, other than the start, is listed.
proof fn lemma_walked_is_listed(t: TreeView, start: int, dirs_only: bool, j: int)
    requires
        t.wf(),
        folders(t.nodes).wf(),
        0 <= start < t.nodes.len(),
        0 < j < forest::walk(folders(t.nodes), start).len(),
    ensures
        ({
            let x = forest::walk(folders(t.nodes), start)[j];
            below(t.nodes, start, dirs_only).contains(x) && t.nodes[x as int].is_dir
        }),
{
    let ns = t.nodes;
    let f = scan::links(ns);
    let g = folders(ns);
    let order = forest::walk(g, start);
    let x = order[j];
    forest::lemma_walk_member(g, start, j);
    let p = g.par[x as int]->0;
    assert(g.kids[p as int].contains(x));
    let open = opens(ns);
    assert(g.par[x as int] == if open(x) {
        f.par[x as int]
    } else {
        None
    });
    assert(f.kids[p as int].contains(x));
    assert(f.kids[p as int] == ns[p as int].children);
    let m = choose|m: int| 0 <= m < order.len() && order[m] == p;
    assert(ns[order[m] as int].children.contains(x));
    lemma_shown(t, order, dirs_only, order.len(), x);
}

/// A directory that is listed is walked.
proof fn lemma_listed_is_walked(t: TreeView, start: int, dirs_only: bool, c: usize)
    requires
        t.wf(),
        folders(t.nodes).wf(),
        0 <= start < t.nodes.len(),
        below(t.nodes, start, dirs_only).contains(c),
        t.nodes[c as int].is_dir,
    ensures
        forest::walk(folders(t.nodes), start).contains(c),
{
    let ns = t.nodes;
    let f = scan::links(ns);
    let g = folders(ns);
    let order = forest::walk(g, start);
    let open = opens(ns);
    lemma_shown(t, order, dirs_only, order.len(), c);
    let j = choose|j: int|
        0 <= j < order.len() && ns[(#[trigger] order[j]) as int].children.contains(c);
    forest::lemma_walk_member(g, start, j);
    let x = order[j] as int;
    assert(f.kids[x] == ns[x].children);
    let i = choose|i: int| 0 <= i < f.kids[x].len() && f.kids[x][i] == c;
    assert(open(c));
    assert(g.kids[x] == f.kids[x].filter(open));
    text::lemma_filter_keeps(f.kids[x], open, i);
    let k = choose|k: int| 0 <= k < g.kids[x].len() && g.kids[x][k] == c;
    let m = forest::lemma_walk_kid_after(g, start, j, k);
    assert(order[m] == c);
}

} // verus!
