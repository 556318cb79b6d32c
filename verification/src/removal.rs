//! Taking a node out of the size tree.

use vstd::prelude::*;

use crate::forest;
use crate::scan;
use crate::scan::{preorder, NodeView, Tree, TreeView};
use crate::text;

verus! {

/// `a - b`, or 0 where that is negative.
pub open spec fn less(a: u64, b: u64) -> u64 {
    if a >= b {
        (a - b) as u64
    } else {
        0
    }
}

/// The node `x` after the totals of the node `d` were taken off it.
pub open spec fn debited(x: NodeView, d: NodeView) -> NodeView {
    NodeView {
        size: less(x.size, d.size),
        private: less(x.private, d.private),
        file_count: less(x.file_count, d.file_count),
        ..x
    }
}

/// Tells all other nodes from `idx`.
pub open spec fn other_than(idx: int) -> spec_fn(usize) -> bool {
    |c: usize| c != idx
}

/// Whether `i` is above `idx`.
pub open spec fn above(ns: Seq<NodeView>, i: int, idx: int) -> bool {
    forest::lineage(scan::links(ns), idx).drop_last().contains(i as usize)
}

/// Whether `i` is `idx` or below it.
pub open spec fn below(ns: Seq<NodeView>, i: int, idx: int) -> bool {
    forest::walk(scan::links(ns), idx).contains(i as usize)
}

/// The node `i` after `idx` was taken out: the nodes above `idx` lose its totals,
/// its parent loses it as a child, it loses its parent, and it and all that is
/// below it are marked removed.
pub open spec fn node_without(ns: Seq<NodeView>, idx: int, i: int) -> NodeView {
    let n = if above(ns, i, idx) {
        debited(ns[i], ns[idx])
    } else {
        ns[i]
    };
    NodeView {
        parent: if i == idx {
            None
        } else {
            n.parent
        },
        children: if ns[idx].parent == Some(i as usize) {
            n.children.filter(other_than(idx))
        } else {
            n.children
        },
        removed: n.removed || below(ns, i, idx),
        ..n
    }
}

/// The tree after `idx` was taken out. One that was taken out before changes
/// nothing.
pub open spec fn without(t: TreeView, idx: int) -> TreeView {
    if t.nodes[idx].removed {
        t
    } else {
        TreeView {
            nodes: Seq::new(t.nodes.len(), |i: int| node_without(t.nodes, idx, i)),
            ..t
        }
    }
}

/// Taking a node out leaves the links of trees.
proof fn lemma_without_wf(t: TreeView, idx: int)
    requires
        t.wf(),
        0 <= idx < t.nodes.len(),
    ensures
        without(t, idx).wf(),
{
    if !t.nodes[idx].removed {
        let ns = t.nodes;
        let f = scan::links(ns);
        let g = scan::links(without(t, idx).nodes);
        let keep = other_than(idx);
        forest::lemma_rank(f);
        assert forall|i: int| 0 <= i < f.len() implies {
            &&& (#[trigger] g.kids[i]).no_duplicates()
            &&& forall|c: usize| #[trigger]
                g.kids[i].contains(c) <==> f.kids[i].contains(c) && c != idx
        } by {
            assert(f.kids[i].no_duplicates());
            if ns[idx].parent == Some(i as usize) {
                assert(g.kids[i] == f.kids[i].filter(keep));
                text::lemma_filter_distinct(f.kids[i], keep);
                assert forall|c: usize| #[trigger]
                    g.kids[i].contains(c) <==> f.kids[i].contains(c) && c != idx by {
                    if g.kids[i].contains(c) {
                        let k = choose|k: int| 0 <= k < g.kids[i].len() && g.kids[i][k] == c;
                        text::lemma_filter_members(f.kids[i], keep, k);
                    }
                    if f.kids[i].contains(c) && c != idx {
                        let k = choose|k: int| 0 <= k < f.kids[i].len() && f.kids[i][k] == c;
                        text::lemma_filter_keeps(f.kids[i], keep, k);
                    }
                }
            } else {
                assert(g.kids[i] == f.kids[i]);
                assert forall|c: usize| #[trigger] f.kids[i].contains(c) implies c != idx by {
                    let k = choose|k: int| 0 <= k < f.kids[i].len() && f.kids[i][k] == c;
                    assert(f.par[f.kids[i][k] as int] == Some(i as usize));
                    assert(f.par[idx] == ns[idx].parent);
                }
            }
        }
        assert forall|x: int| 0 <= x < f.len() implies #[trigger] g.par[x] == (if x == idx {
            None
        } else {
            f.par[x]
        }) by {}
        assert forall|i: int, k: int| 0 <= i < g.len() && 0 <= k < g.kids[i].len() implies {
            let c = #[trigger] g.kids[i][k];
            c < g.len() && g.par[c as int] == Some(i as usize)
        } by {
            let c = g.kids[i][k];
            assert(g.kids[i].contains(c));
            let m = choose|m: int| 0 <= m < f.kids[i].len() && f.kids[i][m] == c;
            assert(f.par[f.kids[i][m] as int] == Some(i as usize));
        }
        assert forall|x: int| 0 <= x < g.len() implies (#[trigger] g.par[x] matches Some(p) ==> p
            < g.len() && g.kids[p as int].contains(x as usize)) by {
            if x != idx {
                assert(g.par[x] == f.par[x]);
            }
        }
        assert(forest::ranked(g, forest::ranking(f).0, forest::ranking(f).1));
    }
}

impl Tree {
    /// Unlink a node and subtract its size/file-count from every ancestor.
    pub fn remove(&mut self, idx: usize)
        requires
            old(self)@.wf(),
            idx < old(self).nodes@.len(),
        ensures
            final(self)@ == without(old(self)@, idx as int),
            final(self)@.wf(),
    {
        proof {
            lemma_without_wf(self@, idx as int);
        }
        if self.nodes[idx].removed {
            return;
        }
        let ghost ns = self@.nodes;
        let ghost f = scan::links(ns);
        let ghost d = ns[idx as int];
        let line = self.ancestry(idx);
        let subtree = preorder(&self.nodes, idx);
        let size: u64 = self.nodes[idx].size;
        let private: u64 = self.nodes[idx].private;
        let files: u64 = self.nodes[idx].file_count;
        let parent: Option<usize> = self.nodes[idx].parent;
        proof {
            forest::lemma_lineage(f, idx as int);
            assert(f.par[idx as int] == parent);
            assert forall|j: int| 0 <= j < subtree@.len() implies #[trigger] subtree@[j]
                < ns.len() by {
                forest::lemma_walk_member(f, idx as int, j);
            }
        }
        let ghost up = line@.drop_last();
        assert(up.take(0) =~= Seq::<usize>::empty());
        let mut j: usize = 0;
        while j < line.len() - 1
            invariant
                ns == old(self)@.nodes,
                d == ns[idx as int],
                size == d.size,
                private == d.private,
                files == d.file_count,
                line@.len() > 0,
                up == line@.drop_last(),
                line@.no_duplicates(),
                j <= up.len(),
                self.nodes@.len() == ns.len(),
                ns.len() <= usize::MAX,
                self.root == old(self).root,
                self.root_path == old(self).root_path,
                forall|k: int| 0 <= k < line@.len() ==> #[trigger] line@[k] < ns.len(),
                forall|x: int|
                    0 <= x < ns.len() ==> #[trigger] self.nodes@[x]@ == (if up.take(
                        j as int,
                    ).contains(x as usize) {
                        debited(ns[x], d)
                    } else {
                        ns[x]
                    }),
            decreases up.len() - j,
        {
            let p: usize = line[j];
            assert(up[j as int] == p);
            assert(line@[j as int] < ns.len());
            assert(!up.take(j as int).contains(p)) by {
                if up.take(j as int).contains(p) {
                    let k = choose|k: int| 0 <= k < j && up.take(j as int)[k] == p;
                    assert(line@[k] != line@[j as int]);
                }
            }
            assert(self.nodes@[p as int]@ == ns[p as int]);
            let s: u64 = self.nodes[p].size;
            let v: u64 = self.nodes[p].private;
            let c: u64 = self.nodes[p].file_count;
            self.nodes[p].size = if s >= size {
                s - size
            } else {
                0
            };
            self.nodes[p].private = if v >= private {
                v - private
            } else {
                0
            };
            self.nodes[p].file_count = if c >= files {
                c - files
            } else {
                0
            };
            proof {
                let a = up.take(j as int);
                let b = up.take(j + 1);
                assert(b =~= a.push(p));
                assert forall|x: usize| b.contains(x) <==> a.contains(x) || x == p by {
                    if a.contains(x) {
                        let k = choose|k: int| 0 <= k < a.len() && a[k] == x;
                        assert(b[k] == x);
                    }
                    if x == p {
                        assert(b[j as int] == x);
                    }
                }
            }
            j += 1;
        }
        assert(up.take(up.len() as int) =~= up);
        if let Some(p) = parent {
            assert(p < ns.len());
            let ghost keep = other_than(idx as int);
            let ghost kids = ns[p as int].children;
            let mut kept: Vec<usize> = Vec::new();
            let mut k: usize = 0;
            assert(self.nodes@[p as int]@.children == kids);
            proof {
                reveal_with_fuel(Seq::filter, 1);
            }
            assert(kids.take(0).filter(keep) =~= Seq::<usize>::empty());
            while k < self.nodes[p].children.len()
                invariant
                    p < self.nodes@.len(),
                    kids == self.nodes@[p as int].children@,
                    keep == other_than(idx as int),
                    k <= kids.len(),
                    kept@ == kids.take(k as int).filter(keep),
                decreases kids.len() - k,
            {
                let c: usize = self.nodes[p].children[k];
                proof {
                    text::lemma_filter_last(kids.take(k + 1), keep);
                    assert(kids.take(k + 1).drop_last() =~= kids.take(k as int));
                }
                if c != idx {
                    kept.push(c);
                }
                k += 1;
            }
            assert(kids.take(kids.len() as int) =~= kids);
            self.nodes[p].children = kept;
        }
        let ghost mid = scan::nodes_view(self.nodes@);
        assert(subtree@.take(0) =~= Seq::<usize>::empty());
        let mut j: usize = 0;
        while j < subtree.len()
            invariant
                j <= subtree@.len(),
                self.nodes@.len() == mid.len(),
                mid.len() <= usize::MAX,
                self.root == old(self).root,
                self.root_path == old(self).root_path,
                forall|k: int| 0 <= k < subtree@.len() ==> #[trigger] subtree@[k] < mid.len(),
                forall|x: int|
                    0 <= x < mid.len() ==> #[trigger] self.nodes@[x]@ == (NodeView {
                        removed: mid[x].removed || subtree@.take(j as int).contains(x as usize),
                        ..mid[x]
                    }),
            decreases subtree@.len() - j,
        {
            let c: usize = subtree[j];
            assert(subtree@[j as int] < mid.len());
            let ghost pre = self.nodes@;
            self.nodes[c].removed = true;
            proof {
                let a = subtree@.take(j as int);
                let b = subtree@.take(j + 1);
                assert(b =~= a.push(c));
                assert forall|x: usize| b.contains(x) <==> a.contains(x) || x == c by {
                    if a.contains(x) {
                        let k = choose|k: int| 0 <= k < a.len() && a[k] == x;
                        assert(b[k] == x);
                    }
                    if x == c {
                        assert(b[j as int] == x);
                    }
                }
                assert forall|x: int| 0 <= x < mid.len() implies #[trigger] self.nodes@[x]@ == (
                NodeView { removed: mid[x].removed || b.contains(x as usize), ..mid[x] }) by {
                    assert(pre[x]@ == (NodeView {
                        removed: mid[x].removed || a.contains(x as usize),
                        ..mid[x]
                    }));
                    if x != c {
                        assert(self.nodes@[x] == pre[x]);
                    }
                }
            }
            j += 1;
        }
        assert(subtree@.take(subtree@.len() as int) =~= subtree@);
        let ghost pre = self.nodes@;
        self.nodes[idx].parent = None;
        proof {
            let want = without(old(self)@, idx as int).nodes;
            assert forall|x: int| 0 <= x < ns.len() implies #[trigger] self@.nodes[x] == want[x] by {
                assert(pre[x]@ == (NodeView {
                    removed: mid[x].removed || subtree@.contains(x as usize),
                    ..mid[x]
                }));
                if x != idx {
                    assert(self.nodes@[x] == pre[x]);
                }
                assert(want[x] == node_without(ns, idx as int, x));
            }
            assert(self@.nodes =~= want);
        }
    }
}

// ---- totals -------------------------------------------------------------------

/// The weights of the nodes that `kids` lists, added up.
pub open spec fn kid_sum(w: Seq<nat>, kids: Seq<usize>) -> nat
    decreases kids.len(),
{
    if kids.len() == 0 {
        0
    } else {
        kid_sum(w, kids.drop_last()) + w[kids.last() as int]
    }
}

/// Whether each directory has the total of its children, for one kind of weight.
pub open spec fn sums(ns: Seq<NodeView>, w: Seq<nat>) -> bool {
    forall|i: int|
        0 <= i < ns.len() && ((#[trigger] ns[i]).is_dir || ns[i].children.len() > 0) ==> w[i]
            == kid_sum(w, ns[i].children)
}

/// Whether the size, the unshared bytes and the file count of each directory are
/// the totals of its children.
pub open spec fn adds_up(ns: Seq<NodeView>) -> bool {
    &&& sums(ns, scan::sizes(ns))
    &&& sums(ns, scan::privates(ns))
    &&& sums(ns, scan::counts(ns))
}

proof fn lemma_kid_sum_same(w: Seq<nat>, v: Seq<nat>, kids: Seq<usize>)
    requires
        forall|k: int| 0 <= k < kids.len() ==> w[#[trigger] kids[k] as int] == v[kids[k] as int],
    ensures
        kid_sum(w, kids) == kid_sum(v, kids),
    decreases kids.len(),
{
    if kids.len() > 0 {
        let front = kids.drop_last();
        assert forall|k: int| 0 <= k < front.len() implies w[#[trigger] front[k] as int]
            == v[front[k] as int] by {
            assert(front[k] == kids[k]);
        }
        lemma_kid_sum_same(w, v, front);
        assert(kids[kids.len() - 1] == kids.last());
    }
}

proof fn lemma_kid_sum_bound(w: Seq<nat>, kids: Seq<usize>, k: int)
    requires
        0 <= k < kids.len(),
    ensures
        w[kids[k] as int] <= kid_sum(w, kids),
    decreases kids.len(),
{
    if k < kids.len() - 1 {
        lemma_kid_sum_bound(w, kids.drop_last(), k);
    }
}

/// Lowering the weight of one child lowers the sum as much.
proof fn lemma_kid_sum_lowered(w: Seq<nat>, v: Seq<nat>, kids: Seq<usize>, at: int, by: nat)
    requires
        0 <= at < kids.len(),
        kids.no_duplicates(),
        w[kids[at] as int] == v[kids[at] as int] + by,
        forall|k: int|
            0 <= k < kids.len() && k != at ==> w[#[trigger] kids[k] as int] == v[kids[k] as int],
    ensures
        kid_sum(w, kids) == kid_sum(v, kids) + by,
    decreases kids.len(),
{
    let front = kids.drop_last();
    assert(kids[kids.len() - 1] == kids.last());
    assert forall|k: int| 0 <= k < front.len() && k != at implies w[#[trigger] front[k] as int]
        == v[front[k] as int] by {
        assert(front[k] == kids[k]);
    }
    if at == kids.len() - 1 {
        lemma_kid_sum_same(w, v, front);
    } else {
        assert(front[at] == kids[at]);
        lemma_kid_sum_lowered(w, v, front, at, by);
    }
}

/// Leaving one child out lowers the sum by its weight.
pub proof fn lemma_kid_sum_filtered(w: Seq<nat>, kids: Seq<usize>, idx: int)
    requires
        kids.no_duplicates(),
    ensures
        kid_sum(w, kids) == kid_sum(w, kids.filter(other_than(idx))) + (if kids.contains(
            idx as usize,
        ) && 0 <= idx <= usize::MAX {
            w[idx]
        } else {
            0
        }),
    decreases kids.len(),
{
    let keep = other_than(idx);
    reveal_with_fuel(Seq::filter, 1);
    if kids.len() > 0 {
        let front = kids.drop_last();
        text::lemma_filter_last(kids, keep);
        lemma_kid_sum_filtered(w, front, idx);
        let kept = kids.filter(keep);
        if kids.last() != idx {
            assert(kept.drop_last() =~= front.filter(keep));
        }
        if front.contains(idx as usize) {
            let k = choose|k: int| 0 <= k < front.len() && front[k] == idx as usize;
            assert(kids[k] == idx as usize);
            assert(kids[k] != kids[kids.len() - 1]);
        }
        if kids.contains(idx as usize) {
            let k = choose|k: int| 0 <= k < kids.len() && kids[k] == idx as usize;
            if k < kids.len() - 1 {
                assert(front[k] == idx as usize);
            }
        }
    }
}

/// A node above `idx` has a child that is `idx` or above it, and only one.
proof fn lemma_step_down(t: TreeView, idx: int, i: int) -> (k: int)
    requires
        t.wf(),
        0 <= idx < t.nodes.len(),
        0 <= i < t.nodes.len(),
        above(t.nodes, i, idx),
    ensures
        0 <= k < t.nodes[i].children.len(),
        t.nodes[i].children[k] == idx || above(t.nodes, t.nodes[i].children[k] as int, idx),
        forall|j: int|
            0 <= j < t.nodes[i].children.len() && j != k ==> {
                let c = #[trigger] t.nodes[i].children[j];
                c != idx && !above(t.nodes, c as int, idx)
            },
    decreases forest::rank(scan::links(t.nodes), idx),
{
    let f = scan::links(t.nodes);
    forest::lemma_rank(f);
    forest::lemma_lineage(f, idx);
    assert(f.par[idx] == t.nodes[idx].parent);
    assert(f.kids[i] == t.nodes[i].children);
    let p = f.par[idx]->0;
    let up = forest::lineage(f, p as int);
    forest::lemma_lineage(f, p as int);
    assert(forest::lineage(f, idx).drop_last() =~= up);
    if i == p {
        let k = choose|k: int| 0 <= k < f.kids[i].len() && f.kids[i][k] == idx as usize;
        assert forall|j: int| 0 <= j < t.nodes[i].children.len() && j != k implies {
            let c = #[trigger] t.nodes[i].children[j];
            c != idx && !above(t.nodes, c as int, idx)
        } by {
            forest::lemma_kid(f, i, j);
            let c = t.nodes[i].children[j];
            assert(f.kids[i][j] != f.kids[i][k]);
            if above(t.nodes, c as int, idx) {
                let m = choose|m: int| 0 <= m < up.len() && up[m] == c;
                if m == up.len() - 1 {
                    assert(up.last() == p);
                } else {
                    assert(forest::rank(f, up[m] as int) < forest::rank(f, p as int));
                }
            }
        }
        k
    } else {
        let m = choose|m: int| 0 <= m < up.len() && up[m] == i as usize;
        assert(up.drop_last().contains(i as usize)) by {
            assert(up.last() == p);
            assert(up.drop_last()[m] == i as usize);
        }
        let k = lemma_step_down(t, p as int, i);
        let c0 = t.nodes[i].children[k];
        assert(up.contains(c0)) by {
            if c0 == p {
                assert(up[up.len() - 1] == p);
            } else {
                let q = choose|q: int|
                    0 <= q < up.drop_last().len() && up.drop_last()[q] == c0;
                assert(up[q] == c0);
            }
        }
        assert forall|j: int| 0 <= j < t.nodes[i].children.len() && j != k implies {
            let c = #[trigger] t.nodes[i].children[j];
            c != idx && !above(t.nodes, c as int, idx)
        } by {
            let c = t.nodes[i].children[j];
            forest::lemma_kid(f, i, j);
            assert(f.par[c as int] == Some(i as usize));
            if above(t.nodes, c as int, idx) {
                let q = choose|q: int| 0 <= q < up.len() && up[q] == c;
                if q < up.len() - 1 {
                    assert(up.drop_last()[q] == c);
                } else {
                    assert(up.last() == p);
                }
                assert(c == p || above(t.nodes, c as int, p as int));
            }
        }
        k
    }
}

/// What hangs below `idx` or beside its lineage is not above it.
proof fn lemma_kid_not_above(t: TreeView, idx: int, i: int, k: int)
    requires
        t.wf(),
        0 <= idx < t.nodes.len(),
        0 <= i < t.nodes.len(),
        !above(t.nodes, i, idx),
        0 <= k < t.nodes[i].children.len(),
    ensures
        t.nodes[i].children[k] != idx,
        !above(t.nodes, t.nodes[i].children[k] as int, idx),
    decreases forest::rank(scan::links(t.nodes), idx),
{
    let f = scan::links(t.nodes);
    let c = t.nodes[i].children[k];
    forest::lemma_rank(f);
    forest::lemma_kid(f, i, k);
    forest::lemma_lineage(f, idx);
    assert(f.par[idx] == t.nodes[idx].parent);
    match f.par[idx] {
        Some(p) => {
            let up = forest::lineage(f, p as int);
            forest::lemma_lineage(f, p as int);
            assert(forest::lineage(f, idx).drop_last() =~= up);
            assert(up[up.len() - 1] == p);
            if above(t.nodes, i, p as int) {
                let q = choose|q: int|
                    0 <= q < up.drop_last().len() && up.drop_last()[q] == i as usize;
                assert(up[q] == i as usize);
            }
            lemma_kid_not_above(t, p as int, i, k);
            if up.contains(c) {
                let q = choose|q: int| 0 <= q < up.len() && up[q] == c;
                if q < up.len() - 1 {
                    assert(up.drop_last()[q] == c);
                }
            }
        },
        None => {
            assert(forest::lineage(f, idx).drop_last() =~= Seq::<usize>::empty());
        },
    }
}

/// Along the lineage the weight of `idx` is contained in each total.
proof fn lemma_weight_above(t: TreeView, w: Seq<nat>, idx: int, i: int)
    requires
        t.wf(),
        0 <= idx < t.nodes.len(),
        0 <= i < t.nodes.len(),
        above(t.nodes, i, idx),
        sums(t.nodes, w),
    ensures
        w[idx] <= w[i],
    decreases forest::height(scan::links(t.nodes), i),
{
    let k = lemma_step_down(t, idx, i);
    let c = t.nodes[i].children[k] as int;
    forest::lemma_kid(scan::links(t.nodes), i, k);
    lemma_kid_sum_bound(w, t.nodes[i].children, k);
    if c != idx {
        lemma_weight_above(t, w, idx, c);
    }
}

/// The weights after `idx` was taken out.
spec fn lowered(t: TreeView, w: Seq<nat>, idx: int) -> Seq<nat> {
    Seq::new(
        w.len(),
        |i: int|
            if above(t.nodes, i, idx) {
                (w[i] - w[idx]) as nat
            } else {
                w[i]
            },
    )
}

proof fn lemma_lowered_sums(t: TreeView, w: Seq<nat>, idx: int)
    requires
        t.wf(),
        0 <= idx < t.nodes.len(),
        w.len() == t.nodes.len(),
        !t.nodes[idx].removed,
        sums(t.nodes, w),
    ensures
        sums(without(t, idx).nodes, lowered(t, w, idx)),
{
    let ns = t.nodes;
    let out = without(t, idx).nodes;
    let v = lowered(t, w, idx);
    let f = scan::links(ns);
    assert forall|i: int|
        0 <= i < out.len() && ((#[trigger] out[i]).is_dir || out[i].children.len() > 0) implies v[i]
        == kid_sum(v, out[i].children) by {
        let kids = ns[i].children;
        assert(f.kids[i] == kids);
        assert(f.kids[i].no_duplicates());
        assert(f.par[idx] == ns[idx].parent);
        text::lemma_filter_distinct(kids, other_than(idx));
        if ns[idx].parent == Some(i as usize) && kids.len() == 0 {
            assert(f.kids[i].contains(idx as usize));
        }
        if above(ns, i, idx) {
            let k = lemma_step_down(t, idx, i);
            let c = kids[k] as int;
            lemma_weight_above(t, w, idx, i);
            forest::lemma_kid(f, i, k);
            if c == idx {
                assert(ns[idx].parent == Some(i as usize));
                assert(kids.contains(idx as usize));
                lemma_kid_sum_filtered(w, kids, idx);
                let kept = kids.filter(other_than(idx));
                assert forall|j: int| 0 <= j < kept.len() implies w[#[trigger] kept[j] as int]
                    == v[kept[j] as int] by {
                    text::lemma_filter_members(kids, other_than(idx), j);
                    let m = choose|m: int| 0 <= m < kids.len() && kids[m] == kept[j];
                    assert(ns[i].children[m] == kept[j]);
                    forest::lemma_kid(f, i, m);
                }
                lemma_kid_sum_same(w, v, kept);
            } else {
                assert(ns[idx].parent != Some(i as usize)) by {
                    if ns[idx].parent == Some(i as usize) {
                        assert(f.kids[i].contains(idx as usize));
                        let m = choose|m: int| 0 <= m < kids.len() && kids[m] == idx as usize;
                        assert(ns[i].children[m] == idx as usize);
                    }
                }
                lemma_weight_above(t, w, idx, c);
                assert forall|j: int| 0 <= j < kids.len() && j != k implies w[#[trigger] kids[j] as int]
                    == v[kids[j] as int] by {
                    assert(ns[i].children[j] == kids[j]);
                    forest::lemma_kid(f, i, j);
                }
                lemma_kid_sum_lowered(w, v, kids, k, w[idx]);
            }
        } else {
            assert forall|j: int| 0 <= j < kids.len() implies w[#[trigger] kids[j] as int]
                == v[kids[j] as int] by {
                lemma_kid_not_above(t, idx, i, j);
                forest::lemma_kid(f, i, j);
            }
            assert(ns[idx].parent != Some(i as usize)) by {
                if ns[idx].parent == Some(i as usize) {
                    let m = choose|m: int| 0 <= m < f.kids[i].len() && f.kids[i][m] == idx as usize;
                    lemma_kid_not_above(t, idx, i, m);
                }
            }
            lemma_kid_sum_same(w, v, kids);
        }
    }
}

/// Where every directory has the total of its children, it still has after a node
/// was taken out: what the node held is gone from each total above it, and from
/// nothing else.
pub proof fn law_removal_keeps_totals(t: TreeView, idx: int)
    requires
        t.wf(),
        0 <= idx < t.nodes.len(),
        adds_up(t.nodes),
    ensures
        adds_up(without(t, idx).nodes),
        !t.nodes[idx].removed ==> forall|i: int|
            0 <= i < t.nodes.len() && above(t.nodes, i, idx) ==> {
                let n = #[trigger] without(t, idx).nodes[i];
                &&& n.size + t.nodes[idx].size == t.nodes[i].size
                &&& n.private + t.nodes[idx].private == t.nodes[i].private
                &&& n.file_count + t.nodes[idx].file_count == t.nodes[i].file_count
            },
{
    if !t.nodes[idx].removed {
        let ns = t.nodes;
        let out = without(t, idx).nodes;
        lemma_lowered_sums(t, scan::sizes(ns), idx);
        lemma_lowered_sums(t, scan::privates(ns), idx);
        lemma_lowered_sums(t, scan::counts(ns), idx);
        assert forall|i: int| 0 <= i < ns.len() && above(ns, i, idx) implies {
            let n = #[trigger] out[i];
            &&& n.size + ns[idx].size == ns[i].size
            &&& n.private + ns[idx].private == ns[i].private
            &&& n.file_count + ns[idx].file_count == ns[i].file_count
        } by {
            lemma_weight_above(t, scan::sizes(ns), idx, i);
            lemma_weight_above(t, scan::privates(ns), idx, i);
            lemma_weight_above(t, scan::counts(ns), idx, i);
        }
        assert(scan::sizes(out) =~= lowered(t, scan::sizes(ns), idx));
        assert(scan::privates(out) =~= lowered(t, scan::privates(ns), idx));
        assert(scan::counts(out) =~= lowered(t, scan::counts(ns), idx));
    }
}

// ---- what stays -----------------------------------------------------------------

/// Whether all that has not been removed hangs below the root.
pub open spec fn live_hang(t: TreeView) -> bool {
    forall|i: int|
        0 <= i < t.nodes.len() && !t.nodes[i].removed ==> #[trigger] below(
            t.nodes,
            i,
            t.root as int,
        )
}

/// What hangs below the root, but not below the node that is taken out, stays there.
proof fn lemma_stays_below(t: TreeView, idx: int, i: int)
    requires
        t.wf(),
        0 <= idx < t.nodes.len(),
        !t.nodes[idx].removed,
        0 <= i < t.nodes.len(),
        below(t.nodes, i, t.root as int),
        !below(t.nodes, i, idx),
    ensures
        below(without(t, idx).nodes, i, t.root as int),
    decreases forest::rank(scan::links(t.nodes), i),
{
    let root = t.root as int;
    let f = scan::links(t.nodes);
    let g = scan::links(without(t, idx).nodes);
    lemma_without_wf(t, idx);
    let w = forest::walk(g, root);
    if i == root {
        assert(w[0] == root as usize);
    } else {
        let v = forest::walk(f, root);
        let j = choose|j: int| 0 <= j < v.len() && v[j] == i as usize;
        assert(v[0] == root as usize);
        forest::lemma_walk_member(f, root, j);
        let p = f.par[i]->0;
        forest::lemma_rank(f);
        assert(!below(t.nodes, p as int, idx)) by {
            if below(t.nodes, p as int, idx) {
                let u = forest::walk(f, idx);
                let a = choose|a: int| 0 <= a < u.len() && u[a] == p;
                assert(f.kids[p as int].contains(i as usize));
                let b = choose|b: int|
                    0 <= b < f.kids[p as int].len() && f.kids[p as int][b] == i as usize;
                let m = forest::lemma_walk_kid_after(f, idx, a, b);
                assert(u[m] == i as usize);
            }
        }
        lemma_stays_below(t, idx, p as int);
        assert(i != idx) by {
            assert(forest::walk(f, idx)[0] == idx as usize);
        }
        assert(g.par[i] == Some(p));
        assert(g.kids[p as int].contains(i as usize));
        let a = choose|a: int| 0 <= a < w.len() && w[a] == p;
        let b = choose|b: int| 0 <= b < g.kids[p as int].len() && g.kids[p as int][b] == i as usize;
        let m = forest::lemma_walk_kid_after(g, root, a, b);
        assert(w[m] == i as usize);
    }
}

/// Taking a node out moves nothing else: where all that has not been removed hung below
/// the root, it still does.
pub proof fn law_removal_keeps_the_rest(t: TreeView, idx: int)
    requires
        t.wf(),
        0 <= idx < t.nodes.len(),
        live_hang(t),
    ensures
        without(t, idx).wf(),
        live_hang(without(t, idx)),
{
    lemma_without_wf(t, idx);
    if !t.nodes[idx].removed {
        let out = without(t, idx);
        assert forall|i: int| 0 <= i < out.nodes.len() && !out.nodes[i].removed implies #[trigger] below(
            out.nodes,
            i,
            out.root as int,
        ) by {
            assert(out.nodes[i] == node_without(t.nodes, idx, i));
            assert(below(t.nodes, i, t.root as int));
            lemma_stays_below(t, idx, i);
        }
    }
}

} // verus!
