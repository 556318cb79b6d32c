//! The in-memory size tree.
//!
//! Nodes live in an arena and refer to each other by index. They store only
//! their file name; full paths are reconstructed on demand by walking parent
//! links, which keeps per-node memory small for trees with millions of entries.

use vstd::prelude::*;

use crate::forest;
use crate::forest::Forest;
use crate::order;
use crate::order::order_desc;
use crate::path;
use crate::path::join;

pub use crate::builder::{scan_incremental, scan_streaming, ScanProgress};
pub use crate::walk::Reuse;

verus! {

/// One node in the size tree (file or directory).
pub struct Node {
    pub name: String,
    /// Allocated bytes: self size for files, aggregated for directories. Blocks
    /// shared with a clone elsewhere are counted here.
    pub size: u64,
    /// Bytes not shared with any other file: what deleting this actually frees.
    pub private: u64,
    pub is_dir: bool,
    pub parent: Option<usize>,
    pub children: Vec<usize>,
    /// Number of files at or below this node.
    pub file_count: u64,
    /// Set when the node has been moved to trash this session.
    pub removed: bool,
    /// Directory mtime in nanoseconds since the epoch (0 for files / unknown).
    pub mtime_ns: i64,
    /// True for the stand-in node that represents a directory's collapsed small
    /// files. It has no path of its own, so it must never be revealed or trashed.
    pub synthetic: bool,
}

/// Arena-backed tree. Nodes are referenced by index; `root` is the scan root.
pub struct Tree {
    pub nodes: Vec<Node>,
    pub root: usize,
    pub root_path: String,
}

/// What a node holds.
#[verifier::ext_equal]
pub struct NodeView {
    pub name: Seq<char>,
    pub size: u64,
    pub private: u64,
    pub is_dir: bool,
    pub parent: Option<usize>,
    pub children: Seq<usize>,
    pub file_count: u64,
    pub removed: bool,
    pub mtime_ns: i64,
    pub synthetic: bool,
}

/// What a tree holds.
#[verifier::ext_equal]
pub struct TreeView {
    pub nodes: Seq<NodeView>,
    pub root: usize,
    pub root_path: Seq<char>,
}

impl View for Node {
    type V = NodeView;

    open spec fn view(&self) -> NodeView {
        NodeView {
            name: self.name@,
            size: self.size,
            private: self.private,
            is_dir: self.is_dir,
            parent: self.parent,
            children: self.children@,
            file_count: self.file_count,
            removed: self.removed,
            mtime_ns: self.mtime_ns,
            synthetic: self.synthetic,
        }
    }
}

/// The nodes, each as what it holds.
pub open spec fn nodes_view(v: Seq<Node>) -> Seq<NodeView> {
    v.map_values(|n: Node| n@)
}

impl View for Tree {
    type V = TreeView;

    open spec fn view(&self) -> TreeView {
        TreeView {
            nodes: nodes_view(self.nodes@),
            root: self.root,
            root_path: self.root_path@,
        }
    }
}

/// The links between the nodes.
pub open spec fn links(ns: Seq<NodeView>) -> Forest {
    Forest {
        kids: ns.map_values(|n: NodeView| n.children),
        par: ns.map_values(|n: NodeView| n.parent),
    }
}

impl TreeView {
    /// The way up from each node ends, and the children of each are in the arena. The
    /// two kinds of link need not agree.
    pub open spec fn traceable(self) -> bool {
        links(self.nodes).acyclic() && kids_in_range(self.nodes)
    }

    /// The links are those of trees, and the root is one of the nodes.
    pub open spec fn wf(self) -> bool {
        self.root < self.nodes.len() && links(self.nodes).wf()
    }
}

pub proof fn lemma_wf_traceable(t: TreeView)
    requires
        t.wf(),
    ensures
        t.traceable(),
{
    let f = links(t.nodes);
    assert forall|i: int, k: int|
        0 <= i < t.nodes.len() && 0 <= k < t.nodes[i].children.len() implies #[trigger] t.nodes[i].children[k]
        < t.nodes.len() by {
        assert(f.kids[i][k] < f.len());
    }
}

// ---- paths --------------------------------------------------------------------

/// The path of a node: the root's own path, and below it the parent's path
/// followed by the node's name. A node that no longer hangs in the tree is named
/// from the root path.
pub open spec fn node_path(t: TreeView, i: int) -> Seq<char>
    decreases forest::rank(links(t.nodes), i),
    when links(t.nodes).acyclic() && 0 <= i < t.nodes.len()
    via node_path_decreases
{
    if i == t.root {
        t.root_path
    } else {
        match t.nodes[i].parent {
            Some(p) => path::join_text(node_path(t, p as int), t.nodes[i].name),
            None => path::join_text(t.root_path, t.nodes[i].name),
        }
    }
}

#[via_fn]
proof fn node_path_decreases(t: TreeView, i: int) {
    let f = links(t.nodes);
    forest::lemma_rank(f);
    assert(f.par[i] == t.nodes[i].parent);
}

impl Tree {
    /// The absolute path of a node.
    pub fn path(&self, idx: usize) -> (r: String)
        requires
            links(self@.nodes).acyclic(),
            idx < self.nodes@.len(),
        ensures
            r@ == node_path(self@, idx as int),
    {
        let ghost t = self@;
        let ghost f = links(t.nodes);
        if idx == self.root {
            return self.root_path.clone();
        }
        let mut chain: Vec<usize> = Vec::new();
        let mut cur: usize = idx;
        let mut top = false;
        proof {
            forest::lemma_rank(f);
        }
        while !top
            invariant
                t == self@,
                f == links(t.nodes),
                f.acyclic(),
                forest::ranked(f, forest::ranking(f).0, forest::ranking(f).1),
                cur < self.nodes@.len(),
                !top ==> cur != self.root,
                forall|j: int| 0 <= j < chain@.len() ==> #[trigger] chain@[j] < self.nodes@.len(),
                forall|j: int| 0 <= j < chain@.len() ==> #[trigger] chain@[j] != self.root,
                chain@.len() > 0 ==> chain@[0] == idx,
                chain@.len() == 0 ==> cur == idx && !top,
                forall|j: int|
                    0 <= j < chain@.len() - 1 ==> t.nodes[chain@[j] as int].parent == Some(
                        #[trigger] chain@[j + 1],
                    ),
                !top && chain@.len() > 0 ==> t.nodes[chain@.last() as int].parent == Some(cur),
                top ==> (t.nodes[chain@.last() as int].parent matches Some(p) ==> p == self.root),
            decreases
                forest::rank(f, cur as int) + (if top {
                    0int
                } else {
                    1int
                }),
        {
            assert(f.par[cur as int] == t.nodes[cur as int].parent);
            assert(t.nodes[cur as int] == self.nodes@[cur as int]@);
            chain.push(cur);
            match self.nodes[cur].parent {
                Some(p) => {
                    if p == self.root {
                        top = true;
                    } else {
                        cur = p;
                    }
                },
                None => {
                    top = true;
                },
            }
        }
        let mut p = self.root_path.clone();
        let mut k: usize = chain.len();
        while k > 0
            invariant
                t == self@,
                f == links(t.nodes),
                f.acyclic(),
                forest::ranked(f, forest::ranking(f).0, forest::ranking(f).1),
                k <= chain@.len(),
                chain@.len() > 0,
                forall|j: int| 0 <= j < chain@.len() ==> #[trigger] chain@[j] < self.nodes@.len(),
                forall|j: int| 0 <= j < chain@.len() ==> #[trigger] chain@[j] != self.root,
                forall|j: int|
                    0 <= j < chain@.len() - 1 ==> t.nodes[chain@[j] as int].parent == Some(
                        #[trigger] chain@[j + 1],
                    ),
                t.nodes[chain@.last() as int].parent matches Some(q) ==> q == self.root,
                p@ == (if k == chain@.len() {
                    t.root_path
                } else {
                    node_path(t, chain@[k as int] as int)
                }),
            decreases k,
        {
            k -= 1;
            let i: usize = chain[k];
            assert(t.nodes[i as int] == self.nodes@[i as int]@);
            proof {
                if k < chain@.len() - 1 {
                    assert(t.nodes[chain@[k as int] as int].parent == Some(chain@[k + 1]));
                }
                assert(f.par[i as int] == t.nodes[i as int].parent);
                if let Some(q) = t.nodes[i as int].parent {
                    if q == t.root {
                        assert(node_path(t, q as int) == t.root_path);
                    }
                }
            }
            p = join(p.as_str(), self.nodes[i].name.as_str());
        }
        p
    }

    /// Path from the topmost node down to `idx` (inclusive) as node indices.
    pub fn ancestry(&self, idx: usize) -> (r: Vec<usize>)
        requires
            links(self@.nodes).acyclic(),
            idx < self.nodes@.len(),
        ensures
            r@ == forest::lineage(links(self@.nodes), idx as int),
    {
        let ghost f = links(self@.nodes);
        let mut up: Vec<usize> = Vec::new();
        let mut cur: Option<usize> = Some(idx);
        proof {
            forest::lemma_rank(f);
        }
        while cur.is_some()
            invariant
                f == links(self@.nodes),
                f.acyclic(),
                f.len() == self.nodes@.len(),
                idx < f.len(),
                forest::ranked(f, forest::ranking(f).0, forest::ranking(f).1),
                cur matches Some(c) ==> c < f.len(),
                forest::lineage(f, idx as int) == (match cur {
                    Some(c) => forest::lineage(f, c as int),
                    None => Seq::empty(),
                }) + up@.reverse(),
            decreases
                match cur {
                    Some(c) => forest::rank(f, c as int) + 1,
                    None => 0,
                },
        {
            if let Some(c) = cur {
                assert(f.par[c as int] == self.nodes@[c as int]@.parent);
                let ghost before = up@;
                up.push(c);
                assert(up@.reverse() =~= seq![c] + before.reverse());
                cur = self.nodes[c].parent;
                proof {
                    let l = forest::lineage(f, c as int);
                    match cur {
                        Some(p) => {
                            assert(l == forest::lineage(f, p as int).push(c));
                            assert(forest::lineage(f, p as int).push(c) + before.reverse()
                                =~= forest::lineage(f, p as int) + (seq![c] + before.reverse()));
                        },
                        None => {
                            assert(l + before.reverse() =~= Seq::<usize>::empty() + (seq![c]
                                + before.reverse()));
                        },
                    }
                }
            }
        }
        let mut out: Vec<usize> = Vec::new();
        let mut k: usize = up.len();
        assert(Seq::<usize>::empty() + up@.reverse() =~= up@.reverse());
        while k > 0
            invariant
                k <= up@.len(),
                out@ == up@.reverse().take(up@.len() - k),
            decreases k,
        {
            k -= 1;
            out.push(up[k]);
            assert(out@ =~= up@.reverse().take(up@.len() - k));
        }
        assert(out@ =~= up@.reverse());
        out
    }
}

// ---- aggregation --------------------------------------------------------------

/// The sizes of the nodes.
pub open spec fn sizes(ns: Seq<NodeView>) -> Seq<nat> {
    ns.map_values(|n: NodeView| n.size as nat)
}

/// The unshared bytes of the nodes.
pub open spec fn privates(ns: Seq<NodeView>) -> Seq<nat> {
    ns.map_values(|n: NodeView| n.private as nat)
}

/// The file counts of the nodes.
pub open spec fn counts(ns: Seq<NodeView>) -> Seq<nat> {
    ns.map_values(|n: NodeView| n.file_count as nat)
}

/// Whether the totals below `root` can be held in 64 bits.
pub open spec fn totals_fit(ns: Seq<NodeView>, root: int) -> bool {
    &&& forest::total(links(ns), sizes(ns), root) <= u64::MAX
    &&& forest::total(links(ns), privates(ns), root) <= u64::MAX
    &&& forest::total(links(ns), counts(ns), root) <= u64::MAX
}

/// The node `i` with the totals of what is at and below it.
pub open spec fn with_totals(ns: Seq<NodeView>, i: int) -> NodeView {
    NodeView {
        size: forest::total(links(ns), sizes(ns), i) as u64,
        private: forest::total(links(ns), privates(ns), i) as u64,
        file_count: forest::total(links(ns), counts(ns), i) as u64,
        ..ns[i]
    }
}

/// The nodes, with the totals for `root` and for all that is below it.
pub open spec fn aggregated(ns: Seq<NodeView>, root: int) -> Seq<NodeView> {
    Seq::new(
        ns.len(),
        |i: int|
            if forest::walk(links(ns), root).contains(i as usize) {
                with_totals(ns, i)
            } else {
                ns[i]
            },
    )
}

/// `root` and all that is below it, each node before its children.
pub(crate) fn preorder(nodes: &Vec<Node>, root: usize) -> (r: Vec<usize>)
    requires
        links(nodes_view(nodes@)).wf(),
        root < nodes@.len(),
    ensures
        r@ == forest::walk(links(nodes_view(nodes@)), root as int),
{
    let ghost f = links(nodes_view(nodes@));
    let ghost all = forest::walk(f, root as int);
    let mut out: Vec<usize> = Vec::new();
    let mut stack: Vec<usize> = Vec::new();
    stack.push(root);
    assert(stack@.drop_last() =~= Seq::<usize>::empty());
    assert(forest::stack_walk(f, stack@.drop_last()) == Seq::<usize>::empty());
    assert(out@ + forest::stack_walk(f, stack@) =~= all);
    while stack.len() > 0
        invariant
            f == links(nodes_view(nodes@)),
            f.wf(),
            f.len() == nodes@.len(),
            forall|j: int| 0 <= j < stack@.len() ==> #[trigger] stack@[j] < f.len(),
            out@ + forest::stack_walk(f, stack@) == all,
        ensures
            out@ == all,
        decreases forest::stack_walk(f, stack@).len(),
    {
        let ghost st0 = stack@;
        let ghost out0 = out@;
        let i: usize = stack.pop().unwrap();
        out.push(i);
        let ghost st = stack@;
        assert(st =~= st0.drop_last());
        let ghost kids = f.kids[i as int];
        assert(kids == nodes@[i as int].children@);
        let mut k: usize = 0;
        assert(st + kids.take(0) =~= st);
        while k < nodes[i].children.len()
            invariant
                f == links(nodes_view(nodes@)),
                f.wf(),
                f.len() == nodes@.len(),
                i < f.len(),
                kids == f.kids[i as int],
                kids == nodes@[i as int].children@,
                k <= kids.len(),
                stack@ == st + kids.take(k as int),
                forall|j: int| 0 <= j < stack@.len() ==> #[trigger] stack@[j] < f.len(),
            decreases kids.len() - k,
        {
            proof {
                forest::lemma_kid(f, i as int, k as int);
            }
            stack.push(nodes[i].children[k]);
            k += 1;
            assert(stack@ =~= st + kids.take(k as int));
        }
        proof {
            assert(kids.take(kids.len() as int) =~= kids);
            forest::lemma_stack_push(f, st, i as int, kids.len());
            let kw = forest::kids_walk(f, i as int, kids.len());
            assert(forest::stack_walk(f, st0) == forest::walk(f, i as int) + forest::stack_walk(f, st));
            assert(out0 + ((seq![i] + kw) + forest::stack_walk(f, st)) =~= out0.push(i) + (kw
                + forest::stack_walk(f, st)));
        }
    }
    assert(out@ + Seq::<usize>::empty() =~= out@);
    out
}

pub proof fn lemma_same_links(a: Seq<NodeView>, b: Seq<NodeView>)
    requires
        a.len() == b.len(),
        forall|i: int|
            0 <= i < a.len() ==> (#[trigger] a[i]).children == b[i].children && a[i].parent
                == b[i].parent,
    ensures
        links(a) == links(b),
{
    assert(links(a).kids =~= links(b).kids);
    assert(links(a).par =~= links(b).par);
}

/// Iterative post-order aggregation of directory sizes and file counts.
pub(crate) fn aggregate(nodes: &mut Vec<Node>, root: usize)
    requires
        links(nodes_view(old(nodes)@)).wf(),
        root < old(nodes)@.len(),
        totals_fit(nodes_view(old(nodes)@), root as int),
    ensures
        nodes_view(final(nodes)@) == aggregated(nodes_view(old(nodes)@), root as int),
{
    let ghost ns = nodes_view(nodes@);
    let ghost f = links(ns);
    let todo = preorder(nodes, root);
    let ghost w = todo@;
    proof {
        forest::lemma_walk_distinct(f, root as int);
        assert forall|j: int| 0 <= j < w.len() implies #[trigger] w[j] < ns.len() by {
            forest::lemma_walk_member(f, root as int, j);
        }
    }
    let mut k: usize = todo.len();
    while k > 0
        invariant
            ns == nodes_view(old(nodes)@),
            f == links(ns),
            f.wf(),
            root < ns.len(),
            totals_fit(ns, root as int),
            w == forest::walk(f, root as int),
            w == todo@,
            w.no_duplicates(),
            forall|j: int| 0 <= j < w.len() ==> #[trigger] w[j] < ns.len(),
            k <= w.len(),
            nodes@.len() == ns.len(),
            forall|j: int|
                k <= j < w.len() ==> nodes@[#[trigger] w[j] as int]@ == with_totals(ns, w[j] as int),
            forall|j: int| 0 <= j < k ==> nodes@[#[trigger] w[j] as int]@ == ns[w[j] as int],
            forall|x: int|
                0 <= x < ns.len() && !w.contains(x as usize) ==> #[trigger] nodes@[x]@ == ns[x],
        decreases k,
    {
        k -= 1;
        let i: usize = todo[k];
        proof {
            forest::lemma_walk_member(f, root as int, k as int);
            forest::lemma_walk_total_bound(f, sizes(ns), root as int, k as int);
            forest::lemma_walk_total_bound(f, privates(ns), root as int, k as int);
            forest::lemma_walk_total_bound(f, counts(ns), root as int, k as int);
            assert(w[k as int] == i);
        }
        let ghost kids = f.kids[i as int];
        assert(kids == nodes@[i as int]@.children);
        let mut size: u64 = nodes[i].size;
        let mut private: u64 = nodes[i].private;
        let mut files: u64 = nodes[i].file_count;
        let mut c: usize = 0;
        while c < nodes[i].children.len()
            invariant
                f == links(ns),
                f.wf(),
                i < ns.len(),
                nodes@.len() == ns.len(),
                kids == f.kids[i as int],
                kids == nodes@[i as int].children@,
                c <= kids.len(),
                w == forest::walk(f, root as int),
                root < ns.len(),
                0 <= k < w.len(),
                w[k as int] == i,
                forall|j: int|
                    k < j < w.len() ==> nodes@[#[trigger] w[j] as int]@ == with_totals(
                        ns,
                        w[j] as int,
                    ),
                forest::total(f, sizes(ns), i as int) <= u64::MAX,
                forest::total(f, privates(ns), i as int) <= u64::MAX,
                forest::total(f, counts(ns), i as int) <= u64::MAX,
                size == ns[i as int].size + forest::kids_total(f, sizes(ns), i as int, c as nat),
                private == ns[i as int].private + forest::kids_total(
                    f,
                    privates(ns),
                    i as int,
                    c as nat,
                ),
                files == ns[i as int].file_count + forest::kids_total(
                    f,
                    counts(ns),
                    i as int,
                    c as nat,
                ),
            decreases kids.len() - c,
        {
            let ch: usize = nodes[i].children[c];
            proof {
                forest::lemma_kid(f, i as int, c as int);
                let m = forest::lemma_walk_kid_after(f, root as int, k as int, c as int);
                assert(w[m] == ch);
                forest::lemma_kids_total_bound(f, sizes(ns), i as int, kids.len(), c as nat);
                forest::lemma_kids_total_bound(f, privates(ns), i as int, kids.len(), c as nat);
                forest::lemma_kids_total_bound(f, counts(ns), i as int, kids.len(), c as nat);
            }
            size = size + nodes[ch].size;
            private = private + nodes[ch].private;
            files = files + nodes[ch].file_count;
            c += 1;
        }
        nodes[i].size = size;
        nodes[i].private = private;
        nodes[i].file_count = files;
        assert(nodes@[i as int]@ == with_totals(ns, i as int));
        assert forall|j: int| 0 <= j < w.len() && j != k implies w[j] != i by {}
    }
    proof {
        assert forall|x: int| 0 <= x < ns.len() implies #[trigger] nodes_view(nodes@)[x]
            == aggregated(ns, root as int)[x] by {
            if w.contains(x as usize) {
                let j = choose|j: int| 0 <= j < w.len() && w[j] == x as usize;
                assert(nodes@[w[j] as int]@ == with_totals(ns, w[j] as int));
            } else {
                assert(nodes@[x]@ == ns[x]);
            }
        }
        assert(nodes_view(nodes@) =~= aggregated(ns, root as int));
    }
}

// ---- order --------------------------------------------------------------------

/// The sizes of the nodes that `kids` lists.
pub open spec fn kid_sizes(ns: Seq<NodeView>, kids: Seq<usize>) -> Seq<u64> {
    kids.map_values(|c: usize| ns[c as int].size)
}

/// Whether all children exist.
pub open spec fn kids_in_range(ns: Seq<NodeView>) -> bool {
    forall|i: int, k: int|
        0 <= i < ns.len() && 0 <= k < ns[i].children.len() ==> #[trigger] ns[i].children[k]
            < ns.len()
}

/// Whether `b` is the node `a` with its children, where it is a directory, in
/// order of size: the largest first, equal ones as they were.
pub open spec fn kids_sorted(ns: Seq<NodeView>, a: NodeView, b: NodeView) -> bool {
    &&& b == NodeView { children: b.children, ..a }
    &&& if a.is_dir {
        order::sorted_desc(a.children, kid_sizes(ns, a.children), b.children)
    } else {
        b.children == a.children
    }
}

/// Whether `out` holds the nodes `ns` with the children of each directory sorted.
pub open spec fn all_sorted(ns: Seq<NodeView>, out: Seq<NodeView>) -> bool {
    &&& out.len() == ns.len()
    &&& forall|i: int| 0 <= i < ns.len() ==> kids_sorted(ns, ns[i], #[trigger] out[i])
}

/// Sort every directory's children by descending size.
pub(crate) fn sort_children(nodes: &mut Vec<Node>)
    requires
        kids_in_range(nodes_view(old(nodes)@)),
    ensures
        all_sorted(nodes_view(old(nodes)@), nodes_view(final(nodes)@)),
{
    let ghost ns = nodes_view(nodes@);
    let mut i: usize = 0;
    while i < nodes.len()
        invariant
            ns == nodes_view(old(nodes)@),
            kids_in_range(ns),
            i <= nodes@.len(),
            nodes@.len() == ns.len(),
            forall|x: int| 0 <= x < i ==> kids_sorted(ns, ns[x], #[trigger] nodes@[x]@),
            forall|x: int| i <= x < ns.len() ==> #[trigger] nodes@[x]@ == ns[x],
        decreases ns.len() - i,
    {
        if nodes[i].is_dir {
            let ghost kids = ns[i as int].children;
            assert(nodes@[i as int]@ == ns[i as int]);
            let mut keys: Vec<u64> = Vec::new();
            let mut k: usize = 0;
            while k < nodes[i].children.len()
                invariant
                    kids_in_range(ns),
                    i < nodes@.len(),
                    nodes@.len() == ns.len(),
                    kids == ns[i as int].children,
                    kids == nodes@[i as int].children@,
                    k <= kids.len(),
                    forall|x: int| 0 <= x < ns.len() ==> (#[trigger] nodes@[x]@).size == ns[x].size,
                    keys@ == kid_sizes(ns, kids).take(k as int),
                decreases kids.len() - k,
            {
                assert(ns[i as int].children[k as int] < ns.len());
                let c: usize = nodes[i].children[k];
                assert(nodes@[c as int]@.size == ns[c as int].size);
                keys.push(nodes[c].size);
                k += 1;
                assert(keys@ =~= kid_sizes(ns, kids).take(k as int));
            }
            assert(keys@ =~= kid_sizes(ns, kids));
            let p = order_desc(&keys);
            let mut sorted: Vec<usize> = Vec::new();
            let mut m: usize = 0;
            while m < p.len()
                invariant
                    i < nodes@.len(),
                    kids == nodes@[i as int].children@,
                    kids.len() == keys@.len(),
                    order::is_order(keys@, p@),
                    m <= p@.len(),
                    sorted@ == order::arranged(kids, p@).take(m as int),
                decreases p@.len() - m,
            {
                assert(p@[m as int] < keys@.len());
                sorted.push(nodes[i].children[p[m]]);
                m += 1;
                assert(sorted@ =~= order::arranged(kids, p@).take(m as int));
            }
            assert(sorted@ =~= order::arranged(kids, p@));
            nodes[i].children = sorted;
        }
        i += 1;
    }
}

/// Sorting children keeps the links those of trees.
pub proof fn lemma_sorted_links(ns: Seq<NodeView>, out: Seq<NodeView>)
    requires
        links(ns).wf(),
        all_sorted(ns, out),
    ensures
        links(out).wf(),
{
    let f = links(ns);
    let g = links(out);
    assert forall|i: int| 0 <= i < ns.len() implies {
        &&& (#[trigger] g.kids[i]).no_duplicates()
        &&& forall|c: usize| g.kids[i].contains(c) <==> f.kids[i].contains(c)
    } by {
        assert(kids_sorted(ns, ns[i], out[i]));
        assert(f.kids[i].no_duplicates());
        if ns[i].is_dir {
            lemma_no_dup_len(f, i);
            order::lemma_sorted_keeps(f.kids[i], kid_sizes(ns, f.kids[i]), g.kids[i]);
        }
    }
    assert forall|i: int| 0 <= i < ns.len() implies #[trigger] g.par[i] == f.par[i] by {
        assert(kids_sorted(ns, ns[i], out[i]));
    }
    assert forall|i: int, k: int| 0 <= i < g.len() && 0 <= k < g.kids[i].len() implies {
        let c = #[trigger] g.kids[i][k];
        c < g.len() && g.par[c as int] == Some(i as usize)
    } by {
        let c = g.kids[i][k];
        assert(g.kids[i].contains(c));
        assert(f.kids[i].contains(c));
        let m = choose|m: int| 0 <= m < f.kids[i].len() && f.kids[i][m] == c;
        assert(f.par[f.kids[i][m] as int] == Some(i as usize));
    }
    forest::lemma_rank(f);
    assert(forest::ranked(g, forest::ranking(f).0, forest::ranking(f).1));
}

/// A list of distinct nodes is no longer than the arena.
pub proof fn lemma_no_dup_len(f: Forest, i: int)
    requires
        f.wf(),
        0 <= i < f.len(),
    ensures
        f.kids[i].len() <= f.len(),
{
    let s = f.kids[i];
    let q = s.map_values(|c: usize| c as int);
    assert(q.no_duplicates()) by {
        assert forall|a: int, b: int| 0 <= a < q.len() && 0 <= b < q.len() && a != b implies q[a]
            != q[b] by {
            assert(s[a] != s[b]);
        }
    }
    q.unique_seq_to_set();
    let all = vstd::set_lib::set_int_range(0, f.len() as int);
    vstd::set_lib::lemma_int_range(0, f.len() as int);
    assert(q.to_set().subset_of(all)) by {
        assert forall|x: int| q.to_set().contains(x) implies all.contains(x) by {
            let k = choose|k: int| 0 <= k < q.len() && q[k] == x;
            assert(f.kids[i][k] < f.len());
        }
    }
    vstd::set_lib::lemma_len_subset(q.to_set(), all);
}

impl Tree {
    /// Sort every directory's children by descending size.
    pub fn sort_children(&mut self)
        requires
            kids_in_range(old(self)@.nodes),
        ensures
            final(self).root == old(self).root,
            final(self).root_path == old(self).root_path,
            all_sorted(old(self)@.nodes, final(self)@.nodes),
            old(self)@.wf() ==> final(self)@.wf(),
    {
        sort_children(&mut self.nodes);
        proof {
            if old(self)@.wf() {
                lemma_sorted_links(old(self)@.nodes, self@.nodes);
            }
        }
    }
}

} // verus!
