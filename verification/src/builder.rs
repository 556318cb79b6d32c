//! Building the size tree from what a directory walk reports, entry by entry.
//!
//! The walk itself is done elsewhere. Each entry that it reports is handed to a
//! [`TreeBuilder`], which wires it into the arena and, on a refresh, fills in from
//! a previous index what did not have to be walked again.

use vstd::hash_map::StringHashMap;
use vstd::prelude::*;

use crate::forest;
use crate::index;
use crate::index::{small_files_name, DirView, Index, IndexView, PathMap};
use crate::path;
use crate::path::{file_name, normalized, parent, same_path};
use crate::scan;
use crate::scan::{aggregate, sort_children, Node, NodeView, Tree, TreeView};

verus! {

/// Progress of a scan.
#[derive(Clone, Copy, PartialEq, Eq, Debug, Structural)]
pub struct ScanProgress {
    pub files: u64,
    pub bytes: u64,
    pub done: bool,
}

/// `a + b` in 64 bits.
#[verifier::opaque]
pub open spec fn wrapped(a: int, b: int) -> u64 {
    ((a + b) % 0x1_0000_0000_0000_0000) as u64
}

proof fn lemma_wrapped(a: u64, b: int, c: int)
    requires
        b >= 0,
        c >= 0,
    ensures
        wrapped(a as int, 0) == a,
        wrapped(wrapped(a as int, b) as int, c) == wrapped(a as int, b + c),
{
    reveal(wrapped);
}

impl ScanProgress {
    /// Nothing counted yet.
    pub fn new() -> (r: ScanProgress)
        ensures
            r == (ScanProgress { files: 0, bytes: 0, done: false }),
    {
        ScanProgress { files: 0, bytes: 0, done: false }
    }

    /// Count `files` files of `bytes` bytes more.
    pub fn count(&mut self, files: u64, bytes: u64)
        ensures
            *final(self) == old(self).counted(files, bytes),
    {
        proof {
            reveal(wrapped);
        }
        self.files = self.files.wrapping_add(files);
        self.bytes = self.bytes.wrapping_add(bytes);
    }

    /// The progress after `files` files of `bytes` bytes more. Counters wrap.
    pub open spec fn counted(self, files: u64, bytes: u64) -> ScanProgress {
        ScanProgress {
            files: wrapped(self.files as int, files as int),
            bytes: wrapped(self.bytes as int, bytes as int),
            done: self.done,
        }
    }
}

// ---- adding to the arena --------------------------------------------------------

/// A fresh directory.
pub open spec fn fresh_dir(name: Seq<char>) -> NodeView {
    NodeView {
        name,
        size: 0,
        private: 0,
        is_dir: true,
        parent: None,
        children: Seq::empty(),
        file_count: 0,
        removed: false,
        mtime_ns: 0,
        synthetic: false,
    }
}

fn new_dir(name: String) -> (r: Node)
    ensures
        r@ == fresh_dir(name@),
{
    let r = Node {
        name,
        size: 0,
        private: 0,
        is_dir: true,
        parent: None,
        children: Vec::new(),
        file_count: 0,
        removed: false,
        mtime_ns: 0,
        synthetic: false,
    };
    assert(r@ =~= fresh_dir(name@));
    r
}

/// The arena with one node more, the last child of `parent`.
pub open spec fn with_child(ns: Seq<NodeView>, parent: int, n: NodeView) -> Seq<NodeView> {
    ns.update(
        parent,
        NodeView { children: ns[parent].children.push(ns.len() as usize), ..ns[parent] },
    ).push(n)
}

/// The arena with the nodes `fs` more, as the last children of `parent`.
pub open spec fn with_children(ns: Seq<NodeView>, parent: int, fs: Seq<NodeView>) -> Seq<NodeView>
    decreases fs.len(),
{
    if fs.len() == 0 {
        ns
    } else {
        with_child(with_children(ns, parent, fs.drop_last()), parent, fs.last())
    }
}

/// Append a child.
fn add_child(nodes: &mut Vec<Node>, parent: usize, n: Node)
    requires
        parent < old(nodes)@.len(),
    ensures
        scan::nodes_view(final(nodes)@) == with_child(
            scan::nodes_view(old(nodes)@),
            parent as int,
            n@,
        ),
{
    let ghost ns = scan::nodes_view(nodes@);
    let ghost v = n@;
    let i: usize = nodes.len();
    nodes.push(n);
    nodes[parent].children.push(i);
    assert(scan::nodes_view(nodes@) =~= with_child(ns, parent as int, v));
}

/// A new child keeps the links those of trees, and the numbering `r` is extended
/// by the number above the parent's.
pub proof fn lemma_with_child(ns: Seq<NodeView>, r: Seq<nat>, parent: int, n: NodeView)
    requires
        linked(ns, r),
        0 <= parent < ns.len() < usize::MAX,
        n.parent == Some(parent as usize),
        n.children.len() == 0,
    ensures
        linked(with_child(ns, parent, n), r.push(r[parent] + 1)),
{
    let out = with_child(ns, parent, n);
    let f = scan::links(ns);
    let g = scan::links(out);
    let new = ns.len() as usize;
    assert forall|i: int| 0 <= i < ns.len() implies {
        &&& #[trigger] g.kids[i] == (if i == parent {
            f.kids[i].push(new)
        } else {
            f.kids[i]
        })
        &&& g.par[i] == f.par[i]
    } by {}
    assert forall|i: int, k: int| 0 <= i < g.len() && 0 <= k < g.kids[i].len() implies {
        let c = #[trigger] g.kids[i][k];
        c < g.len() && g.par[c as int] == Some(i as usize)
    } by {
        if i < ns.len() {
            if k < f.kids[i].len() {
                assert(g.kids[i][k] == f.kids[i][k]);
                assert(f.kids[i][k] < f.len());
            }
        }
    }
    assert forall|i: int| 0 <= i < g.len() implies (#[trigger] g.kids[i]).no_duplicates() by {
        if i == parent {
            let s = f.kids[i];
            assert(s.no_duplicates());
            assert forall|a: int, b: int|
                0 <= a < g.kids[i].len() && 0 <= b < g.kids[i].len() && a != b implies g.kids[i][a]
                != g.kids[i][b] by {
                if a < s.len() {
                    assert(f.kids[i][a] < f.len());
                }
                if b < s.len() {
                    assert(f.kids[i][b] < f.len());
                }
            }
        } else if i < ns.len() {
            assert(f.kids[i].no_duplicates());
        }
    }
    assert forall|x: int| 0 <= x < g.len() implies (#[trigger] g.par[x] matches Some(p) ==> p
        < g.len() && g.kids[p as int].contains(x as usize)) by {
        if x < ns.len() {
            assert(g.par[x] == f.par[x]);
            if let Some(p) = f.par[x] {
                let k = choose|k: int| 0 <= k < f.kids[p as int].len() && f.kids[p as int][k] == x as usize;
                assert(g.kids[p as int][k] == x as usize);
            }
        } else {
            assert(g.kids[parent][f.kids[parent].len() as int] == new);
        }
    }
    let r2 = r.push(r[parent] + 1);
    assert forall|x: int| 0 <= x < g.len() implies (#[trigger] g.par[x] matches Some(p) ==> p
        < g.len() && r2[p as int] < r2[x]) by {
        if x < ns.len() {
            assert(g.par[x] == f.par[x]);
        }
    }
}

/// Whether the links are those of trees, with `r` as the numbering that shows that
/// no node is above itself.
pub open spec fn linked(ns: Seq<NodeView>, r: Seq<nat>) -> bool {
    let f = scan::links(ns);
    &&& r.len() == ns.len() <= usize::MAX
    &&& forall|i: int, k: int|
        0 <= i < f.len() && 0 <= k < f.kids[i].len() ==> {
            let c = #[trigger] f.kids[i][k];
            c < f.len() && f.par[c as int] == Some(i as usize)
        }
    &&& forall|i: int| 0 <= i < f.len() ==> (#[trigger] f.kids[i]).no_duplicates()
    &&& forall|x: int|
        0 <= x < f.len() ==> (#[trigger] f.par[x] matches Some(p) ==> p < f.len()
            && f.kids[p as int].contains(x as usize))
    &&& forall|x: int|
        0 <= x < f.len() ==> (#[trigger] f.par[x] matches Some(p) ==> p < f.len() && r[p as int]
            < r[x])
}

/// Links with such a numbering are those of trees.
pub proof fn lemma_linked_wf(ns: Seq<NodeView>, r: Seq<nat>)
    requires
        linked(ns, r),
    ensures
        scan::links(ns).wf(),
{
    let top = lemma_bound(r);
    assert(forest::ranked(scan::links(ns), r, top));
}

proof fn lemma_bound(s: Seq<nat>) -> (top: nat)
    ensures
        forall|x: int| 0 <= x < s.len() ==> #[trigger] s[x] <= top,
    decreases s.len(),
{
    if s.len() == 0 {
        0
    } else {
        let m = lemma_bound(s.drop_last());
        let top = if s.last() > m {
            s.last()
        } else {
            m
        };
        assert forall|x: int| 0 <= x < s.len() implies #[trigger] s[x] <= top by {
            if x < s.len() - 1 {
                assert(s.drop_last()[x] == s[x]);
            }
        }
        top
    }
}

/// The numbering after `k` children more below `parent`.
pub open spec fn ranks_after(r: Seq<nat>, parent: int, k: nat) -> Seq<nat>
    decreases k,
{
    if k == 0 {
        r
    } else {
        ranks_after(r, parent, (k - 1) as nat).push(r[parent] + 1)
    }
}

proof fn lemma_ranks_after(r: Seq<nat>, parent: int, k: nat)
    ensures
        ranks_after(r, parent, k).len() == r.len() + k,
        forall|x: int| 0 <= x < r.len() ==> #[trigger] ranks_after(r, parent, k)[x] == r[x],
    decreases k,
{
    if k > 0 {
        lemma_ranks_after(r, parent, (k - 1) as nat);
    }
}

/// What adding children keeps: all nodes before stay as they are, but that the
/// parent has more children.
pub proof fn lemma_with_children(ns: Seq<NodeView>, parent: int, fs: Seq<NodeView>)
    requires
        0 <= parent < ns.len(),
    ensures
        with_children(ns, parent, fs).len() == ns.len() + fs.len(),
        forall|i: int|
            0 <= i < ns.len() && i != parent ==> #[trigger] with_children(ns, parent, fs)[i]
                == ns[i],
        ns[parent].children.is_prefix_of(with_children(ns, parent, fs)[parent].children),
        with_children(ns, parent, fs)[parent] == (NodeView {
            children: with_children(ns, parent, fs)[parent].children,
            ..ns[parent]
        }),
    decreases fs.len(),
{
    if fs.len() > 0 {
        lemma_with_children(ns, parent, fs.drop_last());
    }
}

proof fn lemma_with_children_linked(
    ns: Seq<NodeView>,
    r: Seq<nat>,
    parent: int,
    fs: Seq<NodeView>,
)
    requires
        linked(ns, r),
        0 <= parent < ns.len(),
        ns.len() + fs.len() <= usize::MAX,
        forall|j: int|
            0 <= j < fs.len() ==> (#[trigger] fs[j]).parent == Some(parent as usize)
                && fs[j].children.len() == 0,
    ensures
        linked(with_children(ns, parent, fs), ranks_after(r, parent, fs.len())),
    decreases fs.len(),
{
    if fs.len() > 0 {
        let front = fs.drop_last();
        assert forall|j: int| 0 <= j < front.len() implies (#[trigger] front[j]).parent == Some(
            parent as usize,
        ) && front[j].children.len() == 0 by {
            assert(front[j] == fs[j]);
        }
        lemma_with_children_linked(ns, r, parent, front);
        lemma_with_children(ns, parent, front);
        lemma_ranks_after(r, parent, front.len());
        assert(fs[fs.len() - 1] == fs.last());
        lemma_with_child(
            with_children(ns, parent, front),
            ranks_after(r, parent, front.len()),
            parent,
            fs.last(),
        );
    }
}

// ---- from the previous index ------------------------------------------------------

/// The bytes of the first `k` large files of a record.
pub open spec fn large_bytes(d: DirView, k: nat) -> nat
    decreases k,
{
    if k == 0 {
        0
    } else {
        large_bytes(d, (k - 1) as nat) + d.large[k - 1].1 as nat
    }
}

/// The unshared bytes of the first `k` large files of a record.
pub open spec fn large_private(d: DirView, k: nat) -> nat
    decreases k,
{
    if k == 0 {
        0
    } else {
        large_private(d, (k - 1) as nat) + index::large_unshared(d, k - 1) as nat
    }
}

/// The progress after the files of a record were taken over.
pub open spec fn counted_record(p: ScanProgress, d: DirView) -> ScanProgress {
    ScanProgress {
        files: wrapped(p.files as int, d.large.len() + d.own_files as int),
        bytes: wrapped(
            p.bytes as int,
            large_bytes(d, d.large.len()) + (if d.own_files > 0 {
                d.own_bytes as int
            } else {
                0
            }),
        ),
        done: p.done,
    }
}

/// Attach the cached file children of one directory: large files individually,
/// everything smaller as a single synthetic node.
fn attach_cached_files(
    nodes: &mut Vec<Node>,
    parent: usize,
    prior: &Index,
    rec: u32,
    progress: &mut ScanProgress,
)
    requires
        parent < old(nodes)@.len(),
        rec < prior.dirs@.len(),
    ensures
        scan::nodes_view(final(nodes)@) == with_children(
            scan::nodes_view(old(nodes)@),
            parent as int,
            index::file_nodes(parent, prior@.dirs[rec as int]),
        ),
        *final(progress) == counted_record(*old(progress), prior@.dirs[rec as int]),
{
    let ghost d = prior@.dirs[rec as int];
    let ghost ns = scan::nodes_view(nodes@);
    let ghost p0 = *progress;
    let rd = &prior.dirs[rec as usize];
    assert(d == rd@);
    let mut k: usize = 0;
    assert(index::large_nodes(parent, d, 0) =~= Seq::<NodeView>::empty());
    proof {
        lemma_wrapped(p0.files, 0, 0);
        lemma_wrapped(p0.bytes, 0, 0);
    }
    while k < rd.large.len()
        invariant
            d == rd@,
            k <= d.large.len(),
            parent < ns.len(),
            scan::nodes_view(nodes@) == with_children(
                ns,
                parent as int,
                index::large_nodes(parent, d, k as nat),
            ),
            *progress == (ScanProgress {
                files: wrapped(p0.files as int, k as int),
                bytes: wrapped(p0.bytes as int, large_bytes(d, k as nat) as int),
                done: p0.done,
            }),
        decreases d.large.len() - k,
    {
        let e = &rd.large[k];
        assert(d.large[k as int] == (e.0@, e.1));
        let n = Node {
            name: e.0.clone(),
            size: e.1,
            private: rd.unshared(k),
            is_dir: false,
            parent: Some(parent),
            children: Vec::new(),
            file_count: 1,
            removed: false,
            mtime_ns: 0,
            synthetic: false,
        };
        assert(n@ =~= index::file_node(
            parent,
            d.large[k as int].0,
            d.large[k as int].1,
            index::large_unshared(d, k as int),
        ));
        proof {
            let fs = index::large_nodes(parent, d, (k + 1) as nat);
            assert(fs.drop_last() =~= index::large_nodes(parent, d, k as nat));
            lemma_with_children(ns, parent as int, fs.drop_last());
        }
        proof {
            lemma_wrapped(p0.files, k as int, 1);
            lemma_wrapped(p0.bytes, large_bytes(d, k as nat) as int, e.1 as int);
        }
        add_child(nodes, parent, n);
        progress.count(1, e.1);
        k += 1;
    }
    if rd.own_files > 0 {
        let n = Node {
            name: small_files_name(rd.own_files),
            size: rd.own_bytes,
            private: rd.own_private,
            is_dir: false,
            parent: Some(parent),
            children: Vec::new(),
            file_count: rd.own_files,
            removed: false,
            mtime_ns: 0,
            synthetic: true,
        };
        assert(n@ =~= index::small_node(parent, d));
        proof {
            let fs = index::file_nodes(parent, d);
            assert(fs.drop_last() =~= index::large_nodes(parent, d, d.large.len()));
            lemma_with_children(ns, parent as int, fs.drop_last());
        }
        proof {
            lemma_wrapped(p0.files, k as int, rd.own_files as int);
            lemma_wrapped(p0.bytes, large_bytes(d, k as nat) as int, rd.own_bytes as int);
        }
        add_child(nodes, parent, n);
        progress.count(rd.own_files, rd.own_bytes);
    }
}

/// Child adjacency list over a cached index.
pub fn children_of(prior: &Index) -> (r: Vec<Vec<u32>>)
    requires
        prior.dirs@.len() <= u32::MAX,
    ensures
        kid_lists(prior@.dirs, r@),
{
    let ghost ds = prior@.dirs;
    let n: usize = prior.dirs.len();
    let mut kids: Vec<Vec<u32>> = Vec::new();
    let mut i: usize = 0;
    while i < n
        invariant
            i <= n,
            kids@.len() == i,
            forall|x: int| 0 <= x < i ==> (#[trigger] kids@[x])@.len() == 0,
        decreases n - i,
    {
        kids.push(Vec::new());
        i += 1;
    }
    let mut i: usize = 0;
    while i < n
        invariant
            i <= n <= u32::MAX,
            n == prior.dirs@.len(),
            ds == prior@.dirs,
            kids@.len() == n,
            forall|x: int| 0 <= x < n ==> as_places((#[trigger] kids@[x])@) == index::kids_upto(ds, x, i as nat),
        decreases n - i,
    {
        assert(ds[i as int] == prior.dirs@[i as int]@);
        let ghost pre = kids@;
        if let Some(p) = prior.dirs[i].parent {
            if (p as usize) < n {
                kids[p as usize].push(i as u32);
            }
        }
        assert forall|x: int| 0 <= x < n implies as_places((#[trigger] kids@[x])@) == index::kids_upto(
            ds,
            x,
            (i + 1) as nat,
        ) by {
            assert(as_places(pre[x]@) == index::kids_upto(ds, x, i as nat));
            if ds[i as int].parent == Some(x as u32) {
                assert(as_places(kids@[x]@) =~= as_places(pre[x]@).push(i));
            } else {
                assert(kids@[x] == pre[x]);
            }
        }
        i += 1;
    }
    kids
}

/// Record places as positions.
pub open spec fn as_places(v: Seq<u32>) -> Seq<usize> {
    v.map_values(|c: u32| c as usize)
}

/// Whether `kids` lists for each record the records that hang below it.
pub open spec fn kid_lists(ds: Seq<DirView>, kids: Seq<Vec<u32>>) -> bool {
    &&& kids.len() == ds.len()
    &&& forall|i: int|
        0 <= i < ds.len() ==> as_places((#[trigger] kids[i])@) == index::dir_kids(ds, i)
}

/// The record `d` as a directory below the node `parent`, still without what is
/// in it.
pub open spec fn cached_dir(d: DirView, parent: int) -> NodeView {
    NodeView { parent: Some(parent as usize), mtime_ns: d.mtime_ns, ..fresh_dir(d.name) }
}

/// The arena with all that the index has at and below the record `rec`, below the
/// node `parent`: the files of the record, then its directories.
pub open spec fn with_subtree(
    ns: Seq<NodeView>,
    parent: int,
    ds: Seq<DirView>,
    rec: int,
) -> Seq<NodeView>
    decreases forest::height(index::dir_links(ds), rec), index::dir_kids(ds, rec).len() + 1,
    when index::dir_links(ds).wf() && 0 <= rec < ds.len()
    via with_subtree_decreases
{
    with_subdirs(
        with_children(ns, parent, index::file_nodes(parent as usize, ds[rec])),
        parent,
        ds,
        rec,
        index::dir_kids(ds, rec).len(),
    )
}

/// The arena with all that the index has at and below the first `k` directories of
/// the record `rec`, below the node `parent`.
pub open spec fn with_subdirs(
    ns: Seq<NodeView>,
    parent: int,
    ds: Seq<DirView>,
    rec: int,
    k: nat,
) -> Seq<NodeView>
    decreases forest::height(index::dir_links(ds), rec), k,
    when index::dir_links(ds).wf() && 0 <= rec < ds.len() && k <= index::dir_kids(ds, rec).len()
    via with_subdirs_decreases
{
    if k == 0 {
        ns
    } else {
        let m = with_subdirs(ns, parent, ds, rec, (k - 1) as nat);
        let c = index::dir_kids(ds, rec)[k - 1] as int;
        with_subtree(with_child(m, parent, cached_dir(ds[c], parent)), m.len() as int, ds, c)
    }
}

#[via_fn]
proof fn with_subtree_decreases(ns: Seq<NodeView>, parent: int, ds: Seq<DirView>, rec: int) {
}

#[via_fn]
proof fn with_subdirs_decreases(ns: Seq<NodeView>, parent: int, ds: Seq<DirView>, rec: int, k: nat) {
    if k > 0 {
        let g = index::dir_links(ds);
        assert(g.kids[rec] == index::dir_kids(ds, rec));
        forest::lemma_kid(g, rec, k - 1);
    }
}

/// The number of files of each record.
pub open spec fn file_weights(ds: Seq<DirView>) -> Seq<nat> {
    ds.map_values(|d: DirView| d.large.len() + d.own_files as nat)
}

/// The bytes of the files of each record.
pub open spec fn byte_weights(ds: Seq<DirView>) -> Seq<nat> {
    ds.map_values(
        |d: DirView|
            large_bytes(d, d.large.len()) + (if d.own_files > 0 {
                d.own_bytes as nat
            } else {
                0
            }),
    )
}

/// The unshared bytes of the files of each record.
pub open spec fn private_weights(ds: Seq<DirView>) -> Seq<nat> {
    ds.map_values(
        |d: DirView|
            large_private(d, d.large.len()) + (if d.own_files > 0 {
                d.own_private as nat
            } else {
                0
            }),
    )
}

/// The progress after all files at and below a record were taken over.
pub open spec fn counted_subtree(p: ScanProgress, ds: Seq<DirView>, rec: int) -> ScanProgress {
    let g = index::dir_links(ds);
    ScanProgress {
        files: wrapped(p.files as int, forest::total(g, file_weights(ds), rec) as int),
        bytes: wrapped(p.bytes as int, forest::total(g, byte_weights(ds), rec) as int),
        done: p.done,
    }
}

/// Whether `b` is `a` with more children.
pub open spec fn grown(a: NodeView, b: NodeView) -> bool {
    a.children.is_prefix_of(b.children) && b == (NodeView { children: b.children, ..a })
}

/// Whether `b` is the arena `a` with more nodes, none of the old ones changed but
/// that `parent` has more children.
pub open spec fn extends(a: Seq<NodeView>, b: Seq<NodeView>, parent: int) -> bool {
    &&& a.len() <= b.len()
    &&& forall|i: int| 0 <= i < a.len() && i != parent ==> #[trigger] b[i] == a[i]
    &&& grown(a[parent], b[parent])
}

pub proof fn lemma_prefix_trans<T>(a: Seq<T>, b: Seq<T>, c: Seq<T>)
    requires
        a.is_prefix_of(b),
        b.is_prefix_of(c),
    ensures
        a.is_prefix_of(c),
{
    assert(a =~= c.take(a.len() as int)) by {
        assert forall|i: int| 0 <= i < a.len() implies a[i] == c[i] by {
            assert(a[i] == b.take(a.len() as int)[i]);
            assert(b[i] == c.take(b.len() as int)[i]);
        }
    }
}

/// Rebuild a whole cached subtree (directories and files) beneath `parent`.
fn attach_cached_subtree(
    nodes: &mut Vec<Node>,
    parent: usize,
    prior: &Index,
    kids: &Vec<Vec<u32>>,
    rec: u32,
    progress: &mut ScanProgress,
    Ghost(r): Ghost<Seq<nat>>,
) -> (out: Ghost<Seq<nat>>)
    requires
        parent < old(nodes)@.len(),
        rec < prior.dirs@.len(),
        prior@.wf(),
        kid_lists(prior@.dirs, kids@),
        linked(scan::nodes_view(old(nodes)@), r),
    ensures
        scan::nodes_view(final(nodes)@) == with_subtree(
            scan::nodes_view(old(nodes)@),
            parent as int,
            prior@.dirs,
            rec as int,
        ),
        *final(progress) == counted_subtree(*old(progress), prior@.dirs, rec as int),
        linked(scan::nodes_view(final(nodes)@), out@),
        r.is_prefix_of(out@),
        extends(scan::nodes_view(old(nodes)@), scan::nodes_view(final(nodes)@), parent as int),
    decreases forest::height(index::dir_links(prior@.dirs), rec as int),
{
    let ghost ds = prior@.dirs;
    let ghost g = index::dir_links(ds);
    let ghost d = ds[rec as int];
    let ghost ns0 = scan::nodes_view(nodes@);
    let ghost p0 = *progress;
    let ghost fw = file_weights(ds);
    let ghost bw = byte_weights(ds);
    attach_cached_files(nodes, parent, prior, rec, progress);
    let ghost base = scan::nodes_view(nodes@);
    let ghost fs = index::file_nodes(parent, d);
    let ghost mut rr = ranks_after(r, parent as int, fs.len());
    proof {
        assert(nodes@.len() == nodes.len());
        lemma_with_children(ns0, parent as int, fs);
        lemma_with_children_linked(ns0, r, parent as int, fs);
        lemma_ranks_after(r, parent as int, fs.len());
        assert(r =~= rr.take(r.len() as int));
        assert(g.kids[rec as int] == index::dir_kids(ds, rec as int));
        assert(as_places(kids@[rec as int]@) == index::dir_kids(ds, rec as int));
        assert(wrapped(p0.files as int, fw[rec as int] as int) == progress.files);
        assert(wrapped(p0.bytes as int, bw[rec as int] as int) == progress.bytes);
    }
    let mut k: usize = 0;
    while k < kids[rec as usize].len()
        invariant
            parent < ns0.len(),
            rec < ds.len(),
            ds == prior@.dirs,
            g == index::dir_links(ds),
            prior@.wf(),
            kid_lists(ds, kids@),
            fw == file_weights(ds),
            bw == byte_weights(ds),
            g.kids[rec as int] == index::dir_kids(ds, rec as int),
            as_places(kids@[rec as int]@) == g.kids[rec as int],
            k <= g.kids[rec as int].len(),
            scan::nodes_view(nodes@) == with_subdirs(base, parent as int, ds, rec as int, k as nat),
            linked(scan::nodes_view(nodes@), rr),
            r.is_prefix_of(rr),
            extends(ns0, scan::nodes_view(nodes@), parent as int),
            *progress == (ScanProgress {
                files: wrapped(
                    p0.files as int,
                    (fw[rec as int] + forest::kids_total(g, fw, rec as int, k as nat)) as int,
                ),
                bytes: wrapped(
                    p0.bytes as int,
                    (bw[rec as int] + forest::kids_total(g, bw, rec as int, k as nat)) as int,
                ),
                done: p0.done,
            }),
        decreases g.kids[rec as int].len() - k,
    {
        let child: u32 = kids[rec as usize][k];
        let ghost c = child as int;
        proof {
            assert(as_places(kids@[rec as int]@)[k as int] == child as usize);
            forest::lemma_kid(g, rec as int, k as int);
            assert(ds[c] == prior.dirs@[c]@);
        }
        let ghost m = scan::nodes_view(nodes@);
        let ci: usize = nodes.len();
        let cd = &prior.dirs[child as usize];
        let n = Node {
            name: cd.name.clone(),
            size: 0,
            private: 0,
            is_dir: true,
            parent: Some(parent),
            children: Vec::new(),
            file_count: 0,
            removed: false,
            mtime_ns: cd.mtime_ns,
            synthetic: false,
        };
        assert(n@ =~= cached_dir(ds[c], parent as int));
        add_child(nodes, parent, n);
        let ghost m1 = scan::nodes_view(nodes@);
        proof {
            assert(nodes@.len() == nodes.len());
            assert(m1.len() == m.len() + 1);
            lemma_with_child(m, rr, parent as int, cached_dir(ds[c], parent as int));
            lemma_grown_by_child(ns0, m, parent as int, cached_dir(ds[c], parent as int));
        }
        let ghost rr0 = rr;
        let ghost rr1 = rr.push(rr[parent as int] + 1);
        let ghost p1 = *progress;
        let got = attach_cached_subtree(nodes, ci, prior, kids, child, progress, Ghost(rr1));
        proof {
            rr = got@;
            assert(rr0 =~= rr1.take(rr0.len() as int));
            lemma_prefix_trans(r, rr0, rr1);
            lemma_prefix_trans(r, rr1, rr);
            lemma_extends_below(ns0, m1, scan::nodes_view(nodes@), parent as int, ci as int);
            lemma_wrapped(
                p0.files,
                (fw[rec as int] + forest::kids_total(g, fw, rec as int, k as nat)) as int,
                forest::total(g, fw, c) as int,
            );
            lemma_wrapped(
                p0.bytes,
                (bw[rec as int] + forest::kids_total(g, bw, rec as int, k as nat)) as int,
                forest::total(g, bw, c) as int,
            );
        }
        k += 1;
    }
    Ghost(rr)
}

pub proof fn lemma_grown_by_child(a: Seq<NodeView>, b: Seq<NodeView>, parent: int, n: NodeView)
    requires
        0 <= parent < a.len(),
        extends(a, b, parent),
    ensures
        extends(a, with_child(b, parent, n), parent),
{
    let c = with_child(b, parent, n);
    assert(b[parent].children =~= c[parent].children.take(b[parent].children.len() as int));
    lemma_prefix_trans(a[parent].children, b[parent].children, c[parent].children);
}

pub proof fn lemma_extends_below(
    a: Seq<NodeView>,
    b: Seq<NodeView>,
    c: Seq<NodeView>,
    parent: int,
    below: int,
)
    requires
        0 <= parent < a.len() <= below < b.len(),
        extends(a, b, parent),
        extends(b, c, below),
    ensures
        extends(a, c, parent),
{
    assert(c[parent] == b[parent]);
}

// ---- the builder ------------------------------------------------------------------

/// What the walk learned about a directory.
#[derive(Clone, Copy, PartialEq, Eq, Debug, Structural)]
pub struct DirInfo {
    pub mtime_ns: i64,
    /// The directory's mtime matched the cached index, so its own files were
    /// dropped from the walk and their sizes come from the index instead.
    pub files_cached: bool,
}

/// One entry that the walk reports.
pub struct WalkEntry {
    pub path: String,
    pub is_dir: bool,
    pub size: u64,
    pub private: u64,
    /// What the walk learned about it, where it is a directory.
    pub info: Option<DirInfo>,
    /// The record of a directory whose whole subtree is served from the index and
    /// was never descended into.
    pub reused: Option<u32>,
}

/// What an entry of the walk holds.
#[verifier::ext_equal]
pub struct WalkView {
    pub path: Seq<char>,
    pub is_dir: bool,
    pub size: u64,
    pub private: u64,
    pub info: Option<DirInfo>,
    pub reused: Option<u32>,
}

impl View for WalkEntry {
    type V = WalkView;

    open spec fn view(&self) -> WalkView {
        WalkView {
            path: self.path@,
            is_dir: self.is_dir,
            size: self.size,
            private: self.private,
            info: self.info,
            reused: self.reused,
        }
    }
}

/// A previous index, ready to be looked up in.
pub struct Prior {
    pub index: Index,
    pub paths: PathMap,
    pub kids: Vec<Vec<u32>>,
}

impl Prior {
    pub open spec fn wf(&self) -> bool {
        &&& self.index@.wf()
        &&& self.index@.dirs.len() <= u32::MAX
        &&& self.paths@ == index::paths_upto(self.index@, self.index@.dirs.len())
        &&& kid_lists(self.index@.dirs, self.kids@)
    }

    /// Prepare the lookups of `index`.
    pub fn new(index: Index) -> (r: Prior)
        requires
            index@.wf(),
            index@.dirs.len() <= u32::MAX,
        ensures
            r.wf(),
            r.index == index,
    {
        let paths = index.by_path();
        let kids = children_of(&index);
        Prior { index, paths, kids }
    }
}

/// What a builder holds: the arena so far, which node stands for which path, and
/// the progress.
#[verifier::ext_equal]
pub struct BuilderView {
    pub nodes: Seq<NodeView>,
    pub places: Map<Seq<char>, usize>,
    pub root: Seq<char>,
    pub progress: ScanProgress,
}

/// The name shown for a path: its last component, or all of it where that is no
/// name.
pub open spec fn label(p: Seq<char>) -> Seq<char> {
    match path::name_of(p) {
        Some(n) => n,
        None => p,
    }
}

/// The name shown for a path.
pub fn file_label(p: &str) -> (r: String)
    ensures
        r@ == label(p@),
{
    match file_name(p) {
        Some(n) => n,
        None => p.to_owned(),
    }
}

impl BuilderView {
    /// The builder after the path `p` has a node: a fresh directory, where it had
    /// none.
    pub open spec fn with_path(self, p: Seq<char>) -> BuilderView {
        if self.places.contains_key(path::norm(p)) {
            self
        } else {
            BuilderView {
                nodes: self.nodes.push(fresh_dir(label(p))),
                places: self.places.insert(path::norm(p), self.nodes.len() as usize),
                ..self
            }
        }
    }

    /// The node of the path `p`.
    pub open spec fn place(self, p: Seq<char>) -> int {
        self.places[path::norm(p)] as int
    }

    /// The builder after the node `i` was replaced.
    pub open spec fn with_node(self, i: int, n: NodeView) -> BuilderView {
        BuilderView { nodes: self.nodes.update(i, n), ..self }
    }

    /// The builder after the node `i` was made the last child of the node `j`.
    pub open spec fn with_link(self, i: int, j: int) -> BuilderView {
        BuilderView {
            nodes: self.nodes.update(
                i,
                NodeView { parent: Some(j as usize), ..self.nodes[i] },
            ).update(
                j,
                NodeView { children: self.nodes[j].children.push(i as usize), ..self.nodes[j] },
            ),
            ..self
        }
    }

    /// The builder after the entry `e` has a node that says what it is and, where
    /// it is a file, how large.
    pub open spec fn with_entry_node(self, e: WalkView) -> BuilderView {
        let b = self.with_path(e.path);
        let i = b.place(e.path);
        let n = b.nodes[i];
        b.with_node(
            i,
            if e.is_dir {
                NodeView { is_dir: true, ..n }
            } else {
                NodeView {
                    is_dir: false,
                    size: e.size,
                    private: e.private,
                    file_count: 1,
                    ..n
                }
            },
        )
    }

    /// Whether the entry at `p` hangs below another one.
    pub open spec fn has_parent(self, p: Seq<char>) -> bool {
        !path::same(p, self.root) && path::parent_of(p) is Some
    }

    /// The builder after the entry `e` also hangs below its parent directory, which
    /// gets a node where it had none.
    pub open spec fn with_entry(self, e: WalkView) -> BuilderView {
        let b = self.with_entry_node(e);
        if self.has_parent(e.path) {
            let q = path::parent_of(e.path)->0;
            let c = b.with_path(q);
            c.with_link(b.place(e.path), c.place(q))
        } else {
            b
        }
    }

    /// The builder after the directory node `i` got the mtime `t`.
    pub open spec fn with_mtime(self, i: int, t: i64) -> BuilderView {
        self.with_node(i, NodeView { mtime_ns: t, ..self.nodes[i] })
    }

    /// The builder after the files of the record `rec` were attached to the node
    /// `i`.
    pub open spec fn with_files(self, i: int, ds: Seq<DirView>, rec: int) -> BuilderView {
        BuilderView {
            nodes: with_children(self.nodes, i, index::file_nodes(i as usize, ds[rec])),
            progress: counted_record(self.progress, ds[rec]),
            ..self
        }
    }

    /// The builder after all that is at and below the record `rec` was attached to
    /// the node `i`.
    pub open spec fn with_tree(self, i: int, ds: Seq<DirView>, rec: int) -> BuilderView {
        BuilderView {
            nodes: with_subtree(self.nodes, i, ds, rec),
            progress: counted_subtree(self.progress, ds, rec),
            ..self
        }
    }

    /// The builder after what the walk learned of the directory `e` was noted: its
    /// mtime, and its files from the previous index where they were not walked.
    pub open spec fn with_info(self, e: WalkView, prior: Option<IndexView>) -> BuilderView {
        let i = self.place(e.path);
        match e.info {
            Some(info) => {
                let b = self.with_mtime(i, info.mtime_ns);
                match prior {
                    Some(v) => {
                        let paths = index::paths_upto(v, v.dirs.len());
                        if info.files_cached && paths.contains_key(path::norm(e.path)) {
                            b.with_files(i, v.dirs, paths[path::norm(e.path)] as int)
                        } else {
                            b
                        }
                    },
                    None => b,
                }
            },
            None => self,
        }
    }

    /// The builder after a directory that was not descended into was rebuilt from
    /// the previous index.
    pub open spec fn with_reused(self, e: WalkView, prior: Option<IndexView>) -> BuilderView {
        let i = self.place(e.path);
        match (e.reused, prior) {
            (Some(rec), Some(v)) => self.with_mtime(i, v.dirs[rec as int].mtime_ns).with_tree(
                i,
                v.dirs,
                rec as int,
            ),
            _ => self,
        }
    }

    /// The builder after the entry `e` of the walk.
    pub open spec fn after(self, e: WalkView, prior: Option<IndexView>) -> BuilderView {
        let b = self.with_entry(e);
        if e.is_dir {
            b.with_info(e, prior).with_reused(e, prior)
        } else {
            b
        }
    }

    /// The links are those of trees, and every known path has its node.
    pub open spec fn sound(self) -> bool {
        exists|r: Seq<nat>| #[trigger]
            linked(self.nodes, r) && placed(self.places, self.nodes, r)
    }

    /// Whether the path `p` has not been hung below another one yet.
    pub open spec fn unlinked(self, p: Seq<char>) -> bool {
        self.places.contains_key(path::norm(p)) ==> self.nodes[self.place(p)].parent is None
    }

    /// The builder with a node for the root where it has none at all.
    pub open spec fn rooted(self) -> BuilderView {
        if self.nodes.len() == 0 {
            self.with_path(self.root)
        } else {
            self
        }
    }

    /// The node of the root, or the first one where the root has none.
    pub open spec fn root_place(self) -> int {
        if self.places.contains_key(path::norm(self.root)) {
            self.place(self.root)
        } else {
            0
        }
    }

    /// Whether `t` is the tree of the arena: totals for the node `root` and all
    /// below it, and the children of each directory in order of size.
    pub open spec fn is_tree(self, root: int, t: TreeView) -> bool {
        &&& t.root == root
        &&& t.root_path == self.root
        &&& scan::all_sorted(scan::aggregated(self.nodes, root), t.nodes)
    }
}

/// Whether every known path stands for a node with the number of its components.
pub open spec fn placed(places: Map<Seq<char>, usize>, ns: Seq<NodeView>, r: Seq<nat>) -> bool {
    forall|key: Seq<char>| #[trigger]
        places.contains_key(key) ==> places[key] < ns.len() && r[places[key] as int]
            == path::comps(key).len()
}

/// Assembles a size tree from the entries of a walk.
pub struct TreeBuilder {
    nodes: Vec<Node>,
    /// Path to node, used only to wire up parent and child links during the build.
    places: StringHashMap<usize>,
    root: String,
    pub progress: ScanProgress,
    ranks: Ghost<Seq<nat>>,
}

impl View for TreeBuilder {
    type V = BuilderView;

    closed spec fn view(&self) -> BuilderView {
        BuilderView {
            nodes: scan::nodes_view(self.nodes@),
            places: self.places@,
            root: self.root@,
            progress: self.progress,
        }
    }
}

pub proof fn lemma_push_alone(ns: Seq<NodeView>, r: Seq<nat>, n: NodeView, k: nat)
    requires
        linked(ns, r),
        ns.len() < usize::MAX,
        n.parent is None,
        n.children.len() == 0,
    ensures
        linked(ns.push(n), r.push(k)),
{
    let f = scan::links(ns);
    let g = scan::links(ns.push(n));
    assert forall|i: int| 0 <= i < ns.len() implies #[trigger] g.kids[i] == f.kids[i] && g.par[i]
        == f.par[i] by {}
    assert forall|i: int, j: int| 0 <= i < g.len() && 0 <= j < g.kids[i].len() implies {
        let c = #[trigger] g.kids[i][j];
        c < g.len() && g.par[c as int] == Some(i as usize)
    } by {
        if i < ns.len() {
            assert(f.kids[i][j] < f.len());
        }
    }
    assert forall|x: int| 0 <= x < g.len() implies (#[trigger] g.par[x] matches Some(p) ==> p
        < g.len() && g.kids[p as int].contains(x as usize)) by {
        if x < ns.len() {
            assert(g.par[x] == f.par[x]);
        }
    }
    assert forall|x: int| 0 <= x < g.len() implies (#[trigger] g.par[x] matches Some(p) ==> p
        < g.len() && r.push(k)[p as int] < r.push(k)[x]) by {
        if x < ns.len() {
            assert(g.par[x] == f.par[x]);
        }
    }
    assert forall|i: int| 0 <= i < g.len() implies (#[trigger] g.kids[i]).no_duplicates() by {
        if i < ns.len() {
            assert(g.kids[i] == f.kids[i]);
        }
    }
}

proof fn lemma_link(b: BuilderView, r: Seq<nat>, i: int, j: int)
    requires
        linked(b.nodes, r),
        0 <= i < b.nodes.len(),
        0 <= j < b.nodes.len(),
        r[j] < r[i],
        b.nodes[i].parent is None,
    ensures
        linked(b.with_link(i, j).nodes, r),
{
    let ns = b.nodes;
    let out = b.with_link(i, j).nodes;
    let f = scan::links(ns);
    let g = scan::links(out);
    assert forall|x: int|
        #![trigger g.kids[x]]
        #![trigger g.par[x]]
        0 <= x < ns.len() implies {
        &&& g.kids[x] == (if x == j {
            f.kids[x].push(i as usize)
        } else {
            f.kids[x]
        })
        &&& g.par[x] == (if x == i {
            Some(j as usize)
        } else {
            f.par[x]
        })
    } by {}
    assert forall|x: int, k: int| 0 <= x < g.len() && 0 <= k < g.kids[x].len() implies {
        let c = #[trigger] g.kids[x][k];
        c < g.len() && g.par[c as int] == Some(x as usize)
    } by {
        if k < f.kids[x].len() {
            assert(g.kids[x][k] == f.kids[x][k]);
            let c = f.kids[x][k];
            assert(f.par[c as int] == Some(x as usize));
            assert(f.par[i] is None);
        }
    }
    assert forall|x: int| 0 <= x < g.len() implies (#[trigger] g.kids[x]).no_duplicates() by {
        let s = f.kids[x];
        assert(s.no_duplicates());
        if x == j {
            assert forall|a: int, c: int|
                0 <= a < g.kids[x].len() && 0 <= c < g.kids[x].len() && a != c implies g.kids[x][a]
                != g.kids[x][c] by {
                if a < s.len() {
                    assert(f.par[f.kids[x][a] as int] == Some(x as usize));
                    assert(f.par[i] is None);
                }
                if c < s.len() {
                    assert(f.par[f.kids[x][c] as int] == Some(x as usize));
                    assert(f.par[i] is None);
                }
            }
        }
    }
    assert forall|x: int| 0 <= x < g.len() implies (#[trigger] g.par[x] matches Some(p) ==> p
        < g.len() && g.kids[p as int].contains(x as usize)) by {
        if x == i {
            assert(g.kids[j][f.kids[j].len() as int] == i as usize);
        } else if let Some(p) = f.par[x] {
            let k = choose|k: int| 0 <= k < f.kids[p as int].len() && f.kids[p as int][k] == x as usize;
            assert(g.kids[p as int][k] == x as usize);
        }
    }
    assert forall|x: int| 0 <= x < g.len() implies (#[trigger] g.par[x] matches Some(p) ==> p
        < g.len() && r[p as int] < r[x]) by {
        if x != i {
            assert(g.par[x] == f.par[x]);
        }
    }
}

pub proof fn lemma_update_linked(ns: Seq<NodeView>, r: Seq<nat>, i: int, n: NodeView)
    requires
        linked(ns, r),
        0 <= i < ns.len(),
        n.parent == ns[i].parent,
        n.children == ns[i].children,
    ensures
        linked(ns.update(i, n), r),
{
    scan::lemma_same_links(ns, ns.update(i, n));
}

impl TreeBuilder {
    /// The links are those of trees.
    pub closed spec fn wf(&self) -> bool {
        linked(self@.nodes, self.ranks@) && placed(self@.places, self@.nodes, self.ranks@)
    }

    /// What a well-formed builder holds is sound.
    pub proof fn lemma_sound(&self)
        requires
            self.wf(),
        ensures
            self@.sound(),
    {
        assert(linked(self@.nodes, self.ranks@));
    }

    /// A builder for the tree at `root`.
    pub fn new(root: &str) -> (r: TreeBuilder)
        ensures
            r.wf(),
            r@ == (BuilderView {
                nodes: Seq::empty(),
                places: Map::empty(),
                root: root@,
                progress: (ScanProgress { files: 0, bytes: 0, done: false }),
            }),
    {
        let r = TreeBuilder {
            nodes: Vec::new(),
            places: StringHashMap::new(),
            root: root.to_owned(),
            progress: ScanProgress::new(),
            ranks: Ghost(Seq::empty()),
        };
        assert(r@.nodes =~= Seq::<NodeView>::empty());
        r
    }

    /// Whether the path `p` has already been hung below another one. The walk must
    /// report each path at most once.
    pub fn is_linked(&self, p: &str) -> (r: bool)
        requires
            self.wf(),
        ensures
            r == !self@.unlinked(p@),
    {
        match self.places.get(normalized(p).as_str()) {
            Some(i) => {
                assert(self@.nodes[*i as int] == self.nodes@[*i as int]@);
                self.nodes[*i].parent.is_some()
            },
            None => false,
        }
    }

    fn get_or_create(&mut self, p: &str) -> (i: usize)
        requires
            old(self).wf(),
        ensures
            final(self).wf(),
            final(self)@ == old(self)@.with_path(p@),
            i == final(self)@.place(p@),
            i < final(self)@.nodes.len(),
            final(self).ranks@[i as int] == path::comps(p@).len(),
            old(self).ranks@.is_prefix_of(final(self).ranks@),
    {
        let key = normalized(p);
        let ghost k = path::norm(p@);
        proof {
            path::lemma_norm_same(p@, p@);
        }
        if let Some(i) = self.places.get(key.as_str()) {
            assert(self.ranks@ =~= self.ranks@.take(self.ranks@.len() as int));
            return *i;
        }
        let ghost ns = self@.nodes;
        let ghost r = self.ranks@;
        let ghost n = path::comps(p@).len();
        let i: usize = self.nodes.len();
        self.nodes.push(new_dir(file_label(p)));
        self.places.insert(key, i);
        self.ranks = Ghost(r.push(n));
        proof {
            assert(self.nodes@.len() == self.nodes.len());
            lemma_push_alone(ns, r, fresh_dir(label(p@)), n);
            assert(self@.nodes =~= ns.push(fresh_dir(label(p@))));
            assert(r =~= self.ranks@.take(r.len() as int));
            assert(self@ == old(self)@.with_path(p@));
        }
        i
    }

    /// Put the entry's node in place and hang it below its parent directory.
    fn enter(&mut self, e: &WalkEntry) -> (i: usize)
        requires
            old(self).wf(),
            old(self)@.has_parent(e@.path) ==> old(self)@.unlinked(e@.path),
        ensures
            final(self).wf(),
            final(self)@ == old(self)@.with_entry(e@),
            i == final(self)@.place(e@.path),
            i < final(self)@.nodes.len(),
            final(self)@.places.contains_key(path::norm(e@.path)),
    {
        let ghost v = e@;
        let i: usize = self.get_or_create(e.path.as_str());
        let ghost b1 = self@;
        let ghost r1 = self.ranks@;
        assert(b1.nodes[i as int] == self.nodes@[i as int]@);
        self.nodes[i].is_dir = e.is_dir;
        if !e.is_dir {
            self.nodes[i].size = e.size;
            self.nodes[i].private = e.private;
            self.nodes[i].file_count = 1;
        }
        let ghost b2 = self@;
        proof {
            let n = b2.nodes[i as int];
            assert(b2.nodes =~= b1.nodes.update(i as int, n));
            lemma_update_linked(b1.nodes, r1, i as int, n);
            assert(b2 == old(self)@.with_entry_node(v));
        }
        if same_path(e.path.as_str(), self.root.as_str()) {
            return i;
        }
        if let Some(q) = parent(e.path.as_str()) {
            let j: usize = self.get_or_create(q.as_str());
            let ghost b3 = self@;
            let ghost r3 = self.ranks@;
            proof {
                let cs = path::comps(v.path);
                path::lemma_comps_valid(v.path);
                lemma_parent_comps(v.path);
                assert(r1[i as int] == cs.len());
                assert(r3[i as int] == r3.take(r1.len() as int)[i as int]);
                assert(b3.nodes[i as int] == b2.nodes[i as int]);
                assert(b2.nodes[i as int].parent is None);
                lemma_link(b3, r3, i as int, j as int);
                assert(b3.nodes[i as int] == self.nodes@[i as int]@);
                assert(b3.nodes[j as int] == self.nodes@[j as int]@);
            }
            self.nodes[i].parent = Some(j);
            self.nodes[j].children.push(i);
            proof {
                assert(self@.nodes =~= b3.with_link(i as int, j as int).nodes);
            }
        }
        i
    }

    /// Take in one entry of the walk. Parts that the walk left out come from the
    /// previous index.
    pub fn add(&mut self, e: &WalkEntry, prior: Option<&Prior>)
        requires
            old(self).wf(),
            old(self)@.has_parent(e@.path) ==> old(self)@.unlinked(e@.path),
            prior matches Some(p) ==> p.wf() && (e.reused matches Some(rec) ==> rec
                < p.index@.dirs.len()),
        ensures
            final(self).wf(),
            final(self)@ == old(self)@.after(
                e@,
                match prior {
                    Some(p) => Some(p.index@),
                    None => None,
                },
            ),
    {
        let ghost v = e@;
        let ghost pv = match prior {
            Some(p) => Some(p.index@),
            None => None,
        };
        let i: usize = self.enter(e);
        if !e.is_dir {
            return;
        }
        let ghost b0 = self@;
        if let Some(info) = e.info {
            self.set_mtime(i, info.mtime_ns);
            if let Some(p) = prior {
                if info.files_cached {
                    if let Some(rec) = p.paths.get(e.path.as_str()) {
                        proof {
                            lemma_paths_in_range(p.index@, p.index@.dirs.len(), path::norm(v.path));
                        }
                        let ghost b1 = self@;
                        let ghost r1 = self.ranks@;
                        let ghost fs = index::file_nodes(i, p.index@.dirs[rec as int]);
                        attach_cached_files(&mut self.nodes, i, &p.index, rec, &mut self.progress);
                        self.ranks = Ghost(ranks_after(r1, i as int, fs.len()));
                        proof {
                            assert(self.nodes@.len() == self.nodes.len());
                            lemma_with_children(b1.nodes, i as int, fs);
                            lemma_with_children_linked(b1.nodes, r1, i as int, fs);
                            lemma_ranks_after(r1, i as int, fs.len());
                        }
                    }
                }
            }
        }
        assert(self@ == b0.with_info(v, pv));
        assert(self.wf());
        if let Some(rec) = e.reused {
            if let Some(p) = prior {
                assert(p.index@.dirs[rec as int] == p.index.dirs@[rec as int]@);
                self.set_mtime(i, p.index.dirs[rec as usize].mtime_ns);
                let ghost r1 = self.ranks@;
                let got = attach_cached_subtree(
                    &mut self.nodes,
                    i,
                    &p.index,
                    &p.kids,
                    rec,
                    &mut self.progress,
                    Ghost(r1),
                );
                self.ranks = got;
                proof {
                    assert forall|key: Seq<char>| #[trigger]
                        self@.places.contains_key(key) implies self@.places[key]
                        < self@.nodes.len() && self.ranks@[self@.places[key] as int] == path::comps(
                        key,
                    ).len() by {
                        let x = self@.places[key] as int;
                        assert(r1[x] == self.ranks@.take(r1.len() as int)[x]);
                    }
                }
            }
        }
    }

    fn set_mtime(&mut self, i: usize, t: i64)
        requires
            old(self).wf(),
            i < old(self)@.nodes.len(),
        ensures
            final(self).wf(),
            final(self)@ == old(self)@.with_mtime(i as int, t),
            final(self).ranks@ == old(self).ranks@,
            final(self)@.nodes.len() == old(self)@.nodes.len(),
    {
        let ghost b = self@;
        assert(b.nodes[i as int] == self.nodes@[i as int]@);
        self.nodes[i].mtime_ns = t;
        proof {
            let n = NodeView { mtime_ns: t, ..b.nodes[i as int] };
            assert(self@.nodes =~= b.nodes.update(i as int, n));
            lemma_update_linked(b.nodes, self.ranks@, i as int, n);
        }
    }
}

/// The records found by path exist.
pub proof fn lemma_paths_in_range(v: IndexView, k: nat, key: Seq<char>)
    requires
        k <= v.dirs.len() <= u32::MAX,
        index::paths_upto(v, k).contains_key(key),
    ensures
        index::paths_upto(v, k)[key] < k,
    decreases k,
{
    if k > 0 {
        assert(index::place(k - 1) == k - 1);
        if key != path::norm(index::rec_path(v, k - 1)) {
            lemma_paths_in_range(v, (k - 1) as nat, key);
        }
    }
}

/// The parent of a path has one component less.
pub proof fn lemma_parent_comps(t: Seq<char>)
    requires
        path::parent_of(t) is Some,
    ensures
        path::comps(path::parent_of(t)->0) == path::comps(t).drop_last(),
{
    let cs = path::comps(t);
    path::lemma_comps_valid(t);
    let up = cs.drop_last();
    assert forall|k: int| 1 <= k < up.len() implies path::plain(#[trigger] up[k]) by {
        assert(up[k] == cs[k]);
    }
    path::lemma_comps_render(up);
}

// ---- the finished tree --------------------------------------------------------------

fn copy_places(v: &Vec<usize>) -> (r: Vec<usize>)
    ensures
        r@ == v@,
{
    let mut out: Vec<usize> = Vec::new();
    let mut i: usize = 0;
    while i < v.len()
        invariant
            i <= v@.len(),
            out@ == v@.take(i as int),
        decreases v@.len() - i,
    {
        out.push(v[i]);
        i += 1;
        assert(out@ =~= v@.take(i as int));
    }
    assert(out@ =~= v@);
    out
}

fn copy_node(n: &Node) -> (r: Node)
    ensures
        r@ == n@,
{
    Node {
        name: n.name.clone(),
        size: n.size,
        private: n.private,
        is_dir: n.is_dir,
        parent: n.parent,
        children: copy_places(&n.children),
        file_count: n.file_count,
        removed: n.removed,
        mtime_ns: n.mtime_ns,
        synthetic: n.synthetic,
    }
}

/// Aggregating keeps the links.
pub proof fn lemma_aggregated(ns: Seq<NodeView>, root: int)
    ensures
        scan::links(scan::aggregated(ns, root)) == scan::links(ns),
        scan::links(ns).wf() ==> scan::kids_in_range(scan::aggregated(ns, root)),
{
    let out = scan::aggregated(ns, root);
    scan::lemma_same_links(ns, out);
    if scan::links(ns).wf() {
        let f = scan::links(ns);
        assert forall|i: int, k: int|
            0 <= i < out.len() && 0 <= k < out[i].children.len() implies #[trigger] out[i].children[k]
            < out.len() by {
            assert(f.kids[i] == out[i].children);
            assert(f.kids[i][k] < f.len());
        }
    }
}

/// The totals and the order of an arena.
fn settle(nodes: &mut Vec<Node>, root: usize)
    requires
        scan::links(scan::nodes_view(old(nodes)@)).wf(),
        root < old(nodes)@.len(),
        scan::totals_fit(scan::nodes_view(old(nodes)@), root as int),
    ensures
        scan::all_sorted(
            scan::aggregated(scan::nodes_view(old(nodes)@), root as int),
            scan::nodes_view(final(nodes)@),
        ),
        scan::links(scan::nodes_view(final(nodes)@)).wf(),
        final(nodes)@.len() == old(nodes)@.len(),
{
    let ghost ns = scan::nodes_view(nodes@);
    proof {
        lemma_aggregated(ns, root as int);
    }
    aggregate(nodes, root);
    let ghost mid = scan::nodes_view(nodes@);
    sort_children(nodes);
    proof {
        scan::lemma_sorted_links(mid, scan::nodes_view(nodes@));
    }
}

impl TreeBuilder {
    /// Whether the totals of the tree can be held in 64 bits.
    pub fn totals_fit(&self) -> (r: bool)
        requires
            self.wf(),
        ensures
            self@.nodes.len() > 0 ==> r == scan::totals_fit(self@.nodes, self@.root_place()),
            self@.nodes.len() == 0 ==> r,
    {
        let n: usize = self.nodes.len();
        if n == 0 {
            return true;
        }
        let ghost ns = self@.nodes;
        let ghost f = scan::links(ns);
        let root: usize = match self.places.get(normalized(self.root.as_str()).as_str()) {
            Some(i) => *i,
            None => 0,
        };
        proof {
            lemma_linked_wf(ns, self.ranks@);
        }
        let todo = scan::preorder(&self.nodes, root);
        let ghost w = todo@;
        let mut size: u128 = 0;
        let mut private: u128 = 0;
        let mut files: u128 = 0;
        let mut k: usize = 0;
        proof {
            forest::lemma_total_is_weight(f, scan::sizes(ns), root as int);
            forest::lemma_total_is_weight(f, scan::privates(ns), root as int);
            forest::lemma_total_is_weight(f, scan::counts(ns), root as int);
            assert forall|j: int| 0 <= j < w.len() implies #[trigger] w[j] < ns.len() by {
                forest::lemma_walk_member(f, root as int, j);
            }
            assert(w.take(0).len() == 0);
        }
        while k < todo.len()
            invariant
                ns == self@.nodes,
                w == todo@,
                k <= w.len(),
                forall|j: int| 0 <= j < w.len() ==> #[trigger] w[j] < ns.len(),
                size == forest::weight_of(scan::sizes(ns), w.take(k as int)),
                private == forest::weight_of(scan::privates(ns), w.take(k as int)),
                files == forest::weight_of(scan::counts(ns), w.take(k as int)),
                size <= k * 0x1_0000_0000_0000_0000,
                private <= k * 0x1_0000_0000_0000_0000,
                files <= k * 0x1_0000_0000_0000_0000,
            decreases w.len() - k,
        {
            let i: usize = todo[k];
            assert(w[k as int] < ns.len());
            assert(ns[i as int] == self.nodes@[i as int]@);
            assert(w.take(k + 1).drop_last() =~= w.take(k as int));
            assert(w.take(k + 1).last() == i);
            size = size + self.nodes[i].size as u128;
            private = private + self.nodes[i].private as u128;
            files = files + self.nodes[i].file_count as u128;
            k += 1;
        }
        assert(w.take(w.len() as int) =~= w);
        let top: u128 = u64::MAX as u128;
        size <= top && private <= top && files <= top
    }

    /// A browsable tree of what has been reported so far, once the root has been.
    /// Node indices match those of the finished tree.
    pub fn snapshot(&self) -> (r: Option<Tree>)
        requires
            self.wf(),
            self@.places.contains_key(path::norm(self@.root)) ==> scan::totals_fit(
                self@.nodes,
                self@.root_place(),
            ),
        ensures
            r is Some <==> self@.places.contains_key(path::norm(self@.root)),
            r matches Some(t) ==> self@.is_tree(self@.root_place(), t@) && t@.wf(),
    {
        let ghost b = self@;
        let root: usize = match self.places.get(normalized(self.root.as_str()).as_str()) {
            Some(i) => *i,
            None => {
                return None;
            },
        };
        let mut nodes: Vec<Node> = Vec::new();
        let mut i: usize = 0;
        while i < self.nodes.len()
            invariant
                i <= self.nodes@.len(),
                b == self@,
                nodes@.len() == i,
                forall|x: int| 0 <= x < i ==> (#[trigger] nodes@[x])@ == b.nodes[x],
            decreases self.nodes@.len() - i,
        {
            nodes.push(copy_node(&self.nodes[i]));
            i += 1;
        }
        assert(scan::nodes_view(nodes@) =~= b.nodes);
        proof {
            lemma_linked_wf(b.nodes, self.ranks@);
        }
        settle(&mut nodes, root);
        Some(Tree { nodes, root, root_path: self.root.clone() })
    }

    /// The finished tree, and the progress of the scan.
    pub fn finish(self) -> (r: (Tree, ScanProgress))
        requires
            self.wf(),
            scan::totals_fit(self@.rooted().nodes, self@.rooted().root_place()),
        ensures
            self@.rooted().is_tree(self@.rooted().root_place(), r.0@),
            r.0@.wf(),
            r.1 == (ScanProgress { done: true, ..self@.progress }),
    {
        let mut b = self;
        if b.nodes.len() == 0 {
            assert(b@.nodes =~= Seq::<NodeView>::empty());
            proof {
                assert(!b@.places.contains_key(path::norm(b@.root))) by {
                    if b@.places.contains_key(path::norm(b@.root)) {
                        assert(b@.places[path::norm(b@.root)] < b@.nodes.len());
                    }
                }
            }
            let root = b.root.clone();
            let _ = b.get_or_create(root.as_str());
        }
        assert(b@ == self@.rooted());
        let root: usize = match b.places.get(normalized(b.root.as_str()).as_str()) {
            Some(i) => *i,
            None => 0,
        };
        proof {
            lemma_linked_wf(b@.nodes, b.ranks@);
        }
        let progress = ScanProgress {
            files: b.progress.files,
            bytes: b.progress.bytes,
            done: true,
        };
        let root_path = b.root;
        let mut nodes = b.nodes;
        settle(&mut nodes, root);
        (Tree { nodes, root, root_path }, progress)
    }
}

// ---- a whole walk -------------------------------------------------------------------

/// The previous index, if there is one.
pub open spec fn prior_view(prior: Option<&Prior>) -> Option<IndexView> {
    match prior {
        Some(p) => Some(p.index@),
        None => None,
    }
}

/// The entries, each as what it says.
pub open spec fn entries_view(v: Seq<WalkEntry>) -> Seq<WalkView> {
    v.map_values(|e: WalkEntry| e@)
}

/// What the first `k` entries of a walk of `root` add up to.
pub open spec fn gathered(
    root: Seq<char>,
    es: Seq<WalkView>,
    prior: Option<IndexView>,
    k: nat,
) -> BuilderView
    decreases k,
{
    if k == 0 {
        BuilderView {
            nodes: Seq::empty(),
            places: Map::empty(),
            root,
            progress: (ScanProgress { files: 0, bytes: 0, done: false }),
        }
    } else {
        gathered(root, es, prior, (k - 1) as nat).after(es[k - 1], prior)
    }
}

/// Whether an entry can be taken in: its path was not reported before, and the record
/// that it is served from exists.
pub open spec fn takes(b: BuilderView, e: WalkView, prior: Option<IndexView>) -> bool {
    &&& b.has_parent(e.path) ==> b.unlinked(e.path)
    &&& prior matches Some(v) ==> (e.reused matches Some(rec) ==> rec < v.dirs.len())
}

/// Whether the `k`-th entry of a walk can be taken in.
pub open spec fn acceptable(
    root: Seq<char>,
    es: Seq<WalkView>,
    prior: Option<IndexView>,
    k: int,
) -> bool {
    takes(gathered(root, es, prior, k as nat), es[k], prior)
}

/// Take in an entry where that is possible.
fn take_in(b: &mut TreeBuilder, e: &WalkEntry, prior: Option<&Prior>) -> (r: bool)
    requires
        old(b).wf(),
        prior matches Some(p) ==> p.wf(),
    ensures
        final(b).wf(),
        r == takes(old(b)@, e@, prior_view(prior)),
        r ==> final(b)@ == old(b)@.after(e@, prior_view(prior)),
{
    let root = b.root.as_str();
    let below_root = !same_path(e.path.as_str(), root) && parent(e.path.as_str()).is_some();
    let known = match (prior, e.reused) {
        (Some(p), Some(rec)) => (rec as usize) < p.index.dirs.len(),
        _ => true,
    };
    if (below_root && b.is_linked(e.path.as_str())) || !known {
        return false;
    }
    b.add(e, prior);
    true
}

/// Whether the walk reports each path once, is served from records that exist, and
/// holds no more than 64 bits can count.
pub open spec fn walkable(root: Seq<char>, es: Seq<WalkView>, prior: Option<IndexView>) -> bool {
    let b = gathered(root, es, prior, es.len()).rooted();
    &&& forall|k: int| 0 <= k < es.len() ==> #[trigger] acceptable(root, es, prior, k)
    &&& scan::totals_fit(b.nodes, b.root_place())
}

/// Whether the nodes can be numbered at every moment of a walk.
pub open spec fn addressable(
    root: Seq<char>,
    es: Seq<WalkView>,
    prior: Option<IndexView>,
    n: nat,
) -> bool {
    forall|k: nat| k <= n ==> (#[trigger] gathered(root, es, prior, k)).nodes.len() <= usize::MAX
}

/// The tree at `root`, from what a walk reports of it and, for the parts that the
/// walk left out, from the previous index. There is none where the walk is not one
/// that a file system gives.
#[verifier::spinoff_prover]
pub fn scan_incremental(root: &str, entries: &Vec<WalkEntry>, prior: Option<&Prior>) -> (r: Option<
    (Tree, ScanProgress),
>)
    requires
        prior matches Some(p) ==> p.wf(),
    ensures
        r is Some <==> walkable(root@, entries_view(entries@), prior_view(prior)),
        r matches Some((t, progress)) ==> {
            let b = gathered(
                root@,
                entries_view(entries@),
                prior_view(prior),
                entries@.len(),
            );
            &&& b.rooted().is_tree(b.rooted().root_place(), t@)
            &&& t@.wf()
            &&& progress == (ScanProgress { done: true, ..b.progress })
            &&& addressable(root@, entries_view(entries@), prior_view(prior), entries@.len())
        },
{
    let ghost es = entries_view(entries@);
    let ghost pv = prior_view(prior);
    let mut b = TreeBuilder::new(root);
    let mut k: usize = 0;
    while k < entries.len()
        invariant
            es == entries_view(entries@),
            pv == prior_view(prior),
            prior matches Some(p) ==> p.wf(),
            k <= entries@.len(),
            b.wf(),
            b@ == gathered(root@, es, pv, k as nat),
            addressable(root@, es, pv, k as nat),
            forall|j: int| 0 <= j < k ==> #[trigger] acceptable(root@, es, pv, j),
        decreases entries@.len() - k,
    {
        let e = &entries[k];
        assert(es[k as int] == e@);
        if !take_in(&mut b, e, prior) {
            assert(!acceptable(root@, es, pv, k as int));
            return None;
        }
        assert(acceptable(root@, es, pv, k as int));
        k += 1;
    }
    let ghost last = b@;
    if !b.totals_fit() {
        return None;
    }
    proof {
        if last.nodes.len() == 0 {
            b.lemma_sound();
            lemma_empty_fits(last);
        }
    }
    Some(b.finish())
}

/// A tree of nothing but its root can be counted.
proof fn lemma_empty_fits(b: BuilderView)
    requires
        b.nodes.len() == 0,
        b.sound(),
    ensures
        scan::totals_fit(b.rooted().nodes, b.rooted().root_place()),
{
    let key = path::norm(b.root);
    if b.places.contains_key(key) {
        assert(b.places[key] < b.nodes.len());
    }
    let n = fresh_dir(label(b.root));
    let c = b.rooted();
    assert(c.nodes =~= seq![n]);
    assert(c.root_place() == 0);
    let f = scan::links(c.nodes);
    assert(f.kids =~= seq![Seq::<usize>::empty()]);
    assert(f.par =~= seq![None::<usize>]);
    assert(forest::ranked(f, seq![0nat], 0));
    assert(f.wf());
    assert(scan::sizes(c.nodes)[0] == 0 && scan::privates(c.nodes)[0] == 0 && scan::counts(
        c.nodes,
    )[0] == 0);
}

/// The tree at `root`, from what a walk reports of it.
pub fn scan_streaming(root: &str, entries: &Vec<WalkEntry>) -> (r: Option<(Tree, ScanProgress)>)
    ensures
        r is Some <==> walkable(root@, entries_view(entries@), None),
        r matches Some((t, progress)) ==> {
            let b = gathered(root@, entries_view(entries@), None, entries@.len());
            &&& b.rooted().is_tree(b.rooted().root_place(), t@)
            &&& t@.wf()
            &&& progress == (ScanProgress { done: true, ..b.progress })
            &&& addressable(root@, entries_view(entries@), None, entries@.len())
        },
{
    scan_incremental(root, entries, None)
}

} // verus!
