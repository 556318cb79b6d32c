//! Persistent, directory-granular index of a scanned root.
//!
//! The index keeps one record per directory plus the individually interesting
//! files (at or above [`Index::threshold`]). Everything smaller is collapsed into
//! the directory's `own_bytes` / `own_files` totals.

use vstd::hash_map::StringHashMap;
use vstd::prelude::*;

use crate::forest;
use crate::forest::Forest;
use crate::path;
use crate::path::{join, normalized, same_path};
use crate::scan;
use crate::scan::{Node, NodeView, Tree, TreeView};
use crate::text;
use crate::text::decimal_string;

verus! {

/// Files at or above this size get their own record; smaller ones are collapsed.
pub const DEFAULT_THRESHOLD: u64 = 1048576;

/// How the index was produced. Surfaced to callers so a consumer can tell how
/// much to trust the numbers before acting on them.
#[derive(Clone, Copy, PartialEq, Eq, Debug, Structural)]
pub enum Mode {
    /// Every directory was walked and every file stat'ed.
    Full,
    /// Unchanged directories reused cached file sizes (no per-file stat).
    Mtime,
    /// Only subtrees reported changed by FSEvents were re-walked.
    Events,
}

/// The name of a mode.
pub open spec fn mode_str(m: Mode) -> Seq<char> {
    match m {
        Mode::Full => "full"@,
        Mode::Mtime => "mtime"@,
        Mode::Events => "events"@,
    }
}

impl Mode {
    /// `full`, `mtime` or `events`.
    pub fn as_str(self) -> (r: &'static str)
        ensures
            r@ == mode_str(self),
    {
        match self {
            Mode::Full => "full",
            Mode::Mtime => "mtime",
            Mode::Events => "events",
        }
    }
}

/// One directory in the index.
pub struct DirRec {
    pub parent: Option<u32>,
    pub name: String,
    /// Directory mtime in nanoseconds since the epoch, or 0 if unavailable.
    pub mtime_ns: i64,
    /// Bytes/count of this directory's own files that were collapsed (below the
    /// large-file threshold). Files at or above it live in `large` instead.
    pub own_bytes: u64,
    pub own_files: u64,
    /// Of `own_bytes`, those that no other file shares.
    pub own_private: u64,
    /// Aggregate over this directory and everything below it, large files
    /// included.
    pub subtree_bytes: u64,
    pub subtree_files: u64,
    /// Of `subtree_bytes`, those that no other file shares.
    pub subtree_private: u64,
    /// Individually-tracked files directly in this directory: (name, bytes).
    pub large: Vec<(String, u64)>,
    /// Of the bytes of each file in `large`, in the same order, those that no
    /// other file shares. A file past the end of this list shares nothing.
    pub large_private: Vec<u64>,
}

/// The index of one scanned root.
pub struct Index {
    pub root: String,
    /// Unix seconds when the scan that produced this index finished.
    pub scanned_at: u64,
    pub mode: Mode,
    /// Device the root lives on. FSEvents ids are only meaningful within one
    /// volume.
    pub device_id: u64,
    /// FSEvents stream position at the end of the scan, or 0 if unavailable.
    pub last_event_id: u64,
    pub threshold: u64,
    pub dirs: Vec<DirRec>,
    pub root_ix: u32,
}

/// What a directory record holds.
#[verifier::ext_equal]
pub struct DirView {
    pub parent: Option<u32>,
    pub name: Seq<char>,
    pub mtime_ns: i64,
    pub own_bytes: u64,
    pub own_files: u64,
    pub own_private: u64,
    pub subtree_bytes: u64,
    pub subtree_files: u64,
    pub subtree_private: u64,
    pub large: Seq<(Seq<char>, u64)>,
    pub large_private: Seq<u64>,
}

/// What an index holds.
#[verifier::ext_equal]
pub struct IndexView {
    pub root: Seq<char>,
    pub scanned_at: u64,
    pub mode: Mode,
    pub device_id: u64,
    pub last_event_id: u64,
    pub threshold: u64,
    pub dirs: Seq<DirView>,
    pub root_ix: u32,
}

/// The file records, with names as characters.
pub open spec fn files_view(v: Seq<(String, u64)>) -> Seq<(Seq<char>, u64)> {
    v.map_values(|e: (String, u64)| (e.0@, e.1))
}

impl View for DirRec {
    type V = DirView;

    open spec fn view(&self) -> DirView {
        DirView {
            parent: self.parent,
            name: self.name@,
            mtime_ns: self.mtime_ns,
            own_bytes: self.own_bytes,
            own_files: self.own_files,
            own_private: self.own_private,
            subtree_bytes: self.subtree_bytes,
            subtree_files: self.subtree_files,
            subtree_private: self.subtree_private,
            large: files_view(self.large@),
            large_private: self.large_private@,
        }
    }
}

/// The bytes of the `j`-th large file of the record `d` that no other file shares.
pub open spec fn large_unshared(d: DirView, j: int) -> u64 {
    if j < d.large_private.len() {
        d.large_private[j]
    } else {
        d.large[j].1
    }
}

/// The large files of the record `d`: name, bytes, and those of the bytes that no
/// other file shares.
pub open spec fn large_files(d: DirView) -> Seq<(Seq<char>, u64, u64)> {
    Seq::new(d.large.len(), |j: int| (d.large[j].0, d.large[j].1, large_unshared(d, j)))
}

impl DirRec {
    /// The bytes of a large file of this record that no other file shares.
    pub fn unshared(&self, k: usize) -> (r: u64)
        requires
            k < self.large@.len(),
        ensures
            r == large_unshared(self@, k as int),
    {
        if k < self.large_private.len() {
            self.large_private[k]
        } else {
            self.large[k].1
        }
    }
}

/// The records, each as what it holds.
pub open spec fn dirs_view(v: Seq<DirRec>) -> Seq<DirView> {
    v.map_values(|d: DirRec| d@)
}

impl View for Index {
    type V = IndexView;

    open spec fn view(&self) -> IndexView {
        IndexView {
            root: self.root@,
            scanned_at: self.scanned_at,
            mode: self.mode,
            device_id: self.device_id,
            last_event_id: self.last_event_id,
            threshold: self.threshold,
            dirs: dirs_view(self.dirs@),
            root_ix: self.root_ix,
        }
    }
}

// ---- links --------------------------------------------------------------------

/// The first `k` records that hang directly below the record `i`.
pub open spec fn kids_upto(ds: Seq<DirView>, i: int, k: nat) -> Seq<usize>
    decreases k,
{
    if k == 0 {
        Seq::empty()
    } else {
        let before = kids_upto(ds, i, (k - 1) as nat);
        if ds[k - 1].parent == Some(i as u32) && i <= u32::MAX {
            before.push((k - 1) as usize)
        } else {
            before
        }
    }
}

/// The records that hang directly below the record `i`, in order.
pub open spec fn dir_kids(ds: Seq<DirView>, i: int) -> Seq<usize> {
    kids_upto(ds, i, ds.len())
}

/// The links between the records.
pub open spec fn dir_links(ds: Seq<DirView>) -> Forest {
    Forest {
        kids: Seq::new(ds.len(), |i: int| dir_kids(ds, i)),
        par: ds.map_values(
            |d: DirView|
                match d.parent {
                    Some(p) => Some(p as usize),
                    None => None,
                },
        ),
    }
}

/// Whether every parent is a record.
pub open spec fn parents_exist(ds: Seq<DirView>) -> bool {
    forall|i: int| 0 <= i < ds.len() ==> (#[trigger] ds[i].parent matches Some(p) ==> p < ds.len())
}

impl IndexView {
    /// The root is a record, and the records hang together as trees.
    pub open spec fn wf(self) -> bool {
        self.root_ix < self.dirs.len() && dir_links(self.dirs).wf()
    }
}

pub proof fn lemma_kids_upto(ds: Seq<DirView>, i: int, k: nat)
    requires
        k <= ds.len() <= usize::MAX,
        0 <= i,
    ensures
        kids_upto(ds, i, k).len() <= k,
        forall|j: int|
            0 <= j < kids_upto(ds, i, k).len() ==> {
                let c = #[trigger] kids_upto(ds, i, k)[j];
                c < k && ds[c as int].parent == Some(i as u32) && i <= u32::MAX
            },
        forall|a: int, b: int|
            0 <= a < b < kids_upto(ds, i, k).len() ==> #[trigger] kids_upto(ds, i, k)[a]
                < #[trigger] kids_upto(ds, i, k)[b],
        forall|c: int|
            0 <= c < k && #[trigger] ds[c].parent == Some(i as u32) && i <= u32::MAX ==> kids_upto(
                ds,
                i,
                k,
            ).contains(c as usize),
    decreases k,
{
    if k > 0 {
        lemma_kids_upto(ds, i, (k - 1) as nat);
        let before = kids_upto(ds, i, (k - 1) as nat);
        let all = kids_upto(ds, i, k);
        assert forall|c: int|
            0 <= c < k && #[trigger] ds[c].parent == Some(i as u32) && i
                <= u32::MAX implies all.contains(c as usize) by {
            if c < k - 1 {
                assert(before.contains(c as usize));
                let j = choose|j: int| 0 <= j < before.len() && before[j] == c as usize;
                assert(all[j] == c as usize);
            } else {
                assert(all[all.len() - 1] == c as usize);
            }
        }
    }
}

// ---- index to tree ------------------------------------------------------------

/// The name of the stand-in for `n` small files.
pub open spec fn small_name(n: u64) -> Seq<char> {
    "("@ + text::decimal(n as nat) + " small files)"@
}

/// The name of the stand-in for `n` small files.
pub(crate) fn small_files_name(n: u64) -> (r: String)
    ensures
        r@ == small_name(n),
{
    let mut out = String::new();
    out.append("(");
    out.append(decimal_string(n).as_str());
    out.append(" small files)");
    assert(out@ =~= small_name(n));
    out
}

/// A file below the node `parent`.
pub open spec fn file_node(parent: usize, name: Seq<char>, size: u64, private: u64) -> NodeView {
    NodeView {
        name,
        size,
        private,
        is_dir: false,
        parent: Some(parent),
        children: Seq::empty(),
        file_count: 1,
        removed: false,
        mtime_ns: 0,
        synthetic: false,
    }
}

/// The stand-in for the small files of the record `d`, below the node `parent`.
pub open spec fn small_node(parent: usize, d: DirView) -> NodeView {
    NodeView {
        name: small_name(d.own_files),
        file_count: d.own_files,
        synthetic: true,
        ..file_node(parent, Seq::empty(), d.own_bytes, d.own_private)
    }
}

/// The first `k` of the large files of the record `d`, as nodes below `parent`.
pub open spec fn large_nodes(parent: usize, d: DirView, k: nat) -> Seq<NodeView> {
    Seq::new(k, |j: int| file_node(parent, d.large[j].0, d.large[j].1, large_unshared(d, j)))
}

/// The files of the record `d` as nodes below `parent`: large ones one by one, the
/// rest as one stand-in.
pub open spec fn file_nodes(parent: usize, d: DirView) -> Seq<NodeView> {
    let large = large_nodes(parent, d, d.large.len());
    if d.own_files > 0 {
        large.push(small_node(parent, d))
    } else {
        large
    }
}

/// The files of the first `k` records.
pub open spec fn files_upto(ds: Seq<DirView>, k: nat) -> Seq<NodeView>
    decreases k,
{
    if k == 0 {
        Seq::empty()
    } else {
        files_upto(ds, (k - 1) as nat) + file_nodes((k - 1) as usize, ds[k - 1])
    }
}

/// `n` consecutive numbers from `from` on.
pub open spec fn numbers(from: nat, n: nat) -> Seq<usize> {
    Seq::new(n, |j: int| (from + j) as usize)
}

/// The record `i` as a node: its directories first, then its files.
pub open spec fn dir_node(ds: Seq<DirView>, i: int) -> NodeView {
    let d = ds[i];
    NodeView {
        name: d.name,
        size: d.subtree_bytes,
        private: d.subtree_private,
        is_dir: true,
        parent: match d.parent {
            Some(p) => Some(p as usize),
            None => None,
        },
        children: dir_kids(ds, i) + numbers(
            ds.len() + files_upto(ds, i as nat).len(),
            file_nodes(i as usize, d).len(),
        ),
        file_count: d.subtree_files,
        removed: false,
        mtime_ns: d.mtime_ns,
        synthetic: false,
    }
}

/// The nodes of an index: one for each record, in order, then the files of all
/// records.
pub open spec fn nodes_of(ds: Seq<DirView>) -> Seq<NodeView> {
    Seq::new(ds.len(), |i: int| dir_node(ds, i)) + files_upto(ds, ds.len())
}

/// Whether `t` is the tree of the index `v`, with the children of each directory
/// in order of size.
pub open spec fn is_tree_of(v: IndexView, t: TreeView) -> bool {
    &&& t.root == v.root_ix
    &&& t.root_path == v.root
    &&& scan::all_sorted(nodes_of(v.dirs), t.nodes)
}

pub proof fn lemma_files_upto_len(ds: Seq<DirView>, k: nat, n: nat)
    requires
        k <= n <= ds.len(),
    ensures
        files_upto(ds, k).len() <= files_upto(ds, n).len(),
        forall|j: int| 0 <= j < files_upto(ds, k).len() ==> #[trigger] files_upto(ds, k)[j] == files_upto(ds, n)[j],
    decreases n,
{
    if k < n {
        lemma_files_upto_len(ds, k, (n - 1) as nat);
    }
}

proof fn lemma_nodes_in_range(ds: Seq<DirView>)
    requires
        ds.len() <= usize::MAX,
        nodes_of(ds).len() <= usize::MAX,
    ensures
        scan::kids_in_range(nodes_of(ds)),
{
    let ns = nodes_of(ds);
    assert forall|i: int, k: int|
        0 <= i < ns.len() && 0 <= k < ns[i].children.len() implies #[trigger] ns[i].children[k]
        < ns.len() by {
        if i < ds.len() {
            lemma_kids_upto(ds, i, ds.len());
            lemma_files_upto_len(ds, (i + 1) as nat, ds.len());
            let kids = dir_kids(ds, i);
            if k < kids.len() {
                assert(ns[i].children[k] == kids[k]);
            }
        } else {
            lemma_files_have_no_kids(ds, ds.len(), i - ds.len());
        }
    }
}

pub proof fn lemma_files_have_no_kids(ds: Seq<DirView>, k: nat, j: int)
    requires
        k <= ds.len(),
        0 <= j < files_upto(ds, k).len(),
    ensures
        files_upto(ds, k)[j].children.len() == 0,
        !files_upto(ds, k)[j].is_dir,
        !files_upto(ds, k)[j].removed,
    decreases k,
{
    let before = files_upto(ds, (k - 1) as nat);
    if j < before.len() {
        lemma_files_have_no_kids(ds, (k - 1) as nat, j);
    }
}

/// Rebuild a browsable tree from the index alone. Small files come back as one
/// synthetic node per directory.
pub fn to_tree(idx: &Index) -> (r: Tree)
    requires
        idx.root_ix < idx.dirs@.len(),
        parents_exist(idx@.dirs),
    ensures
        is_tree_of(idx@, r@),
{
    let ghost ds = idx@.dirs;
    let n: usize = idx.dirs.len();
    let mut nodes: Vec<Node> = Vec::new();
    let mut i: usize = 0;
    while i < n
        invariant
            i <= n,
            n == idx.dirs@.len(),
            ds == idx@.dirs,
            nodes@.len() == i,
            forall|x: int|
                0 <= x < i ==> #[trigger] nodes@[x]@ == (NodeView {
                    children: Seq::empty(),
                    ..dir_node(ds, x)
                }),
        decreases n - i,
    {
        let d = &idx.dirs[i];
        assert(ds[i as int] == d@);
        let parent: Option<usize> = match d.parent {
            Some(p) => Some(p as usize),
            None => None,
        };
        nodes.push(
            Node {
                name: d.name.clone(),
                size: d.subtree_bytes,
                private: d.subtree_private,
                is_dir: true,
                parent,
                children: Vec::new(),
                file_count: d.subtree_files,
                removed: false,
                mtime_ns: d.mtime_ns,
                synthetic: false,
            },
        );
        assert(nodes@[i as int]@ =~= (NodeView {
            children: Seq::empty(),
            ..dir_node(ds, i as int)
        }));
        i += 1;
    }
    // Wire directories to their parents.
    let mut i: usize = 0;
    while i < n
        invariant
            i <= n,
            n == idx.dirs@.len(),
            ds == idx@.dirs,
            parents_exist(ds),
            nodes@.len() == n,
            forall|x: int|
                0 <= x < n ==> #[trigger] nodes@[x]@ == (NodeView {
                    children: kids_upto(ds, x, i as nat),
                    ..dir_node(ds, x)
                }),
        decreases n - i,
    {
        let ghost pre = nodes@;
        assert(ds[i as int] == idx.dirs@[i as int]@);
        if let Some(p) = idx.dirs[i].parent {
            assert(ds[i as int].parent == Some(p));
            let pi: usize = p as usize;
            nodes[pi].children.push(i);
        }
        assert forall|x: int| 0 <= x < n implies #[trigger] nodes@[x]@ == (NodeView {
            children: kids_upto(ds, x, (i + 1) as nat),
            ..dir_node(ds, x)
        }) by {
            assert(pre[x]@ == (NodeView {
                children: kids_upto(ds, x, i as nat),
                ..dir_node(ds, x)
            }));
            assert(nodes@[x]@.children =~= kids_upto(ds, x, (i + 1) as nat));
        }
        i += 1;
    }
    // Attach files: individually for large ones, collapsed for the rest.
    let mut i: usize = 0;
    while i < n
        invariant
            i <= n,
            n == idx.dirs@.len(),
            ds == idx@.dirs,
            nodes@.len() == n + files_upto(ds, i as nat).len(),
            forall|x: int| 0 <= x < i ==> #[trigger] nodes@[x]@ == dir_node(ds, x),
            forall|x: int|
                i <= x < n ==> #[trigger] nodes@[x]@ == (NodeView {
                    children: dir_kids(ds, x),
                    ..dir_node(ds, x)
                }),
            forall|x: int|
                n <= x < nodes@.len() ==> #[trigger] nodes@[x]@ == files_upto(ds, i as nat)[x - n],
        decreases n - i,
    {
        let ghost d = ds[i as int];
        let ghost base = files_upto(ds, i as nat);
        assert(d == idx.dirs@[i as int]@);
        let mut k: usize = 0;
        while k < idx.dirs[i].large.len()
            invariant
                i < n,
                n == idx.dirs@.len(),
                d == ds[i as int],
                d == idx.dirs@[i as int]@,
                ds == idx@.dirs,
                base == files_upto(ds, i as nat),
                k <= d.large.len(),
                nodes@.len() == n + base.len() + k,
                forall|x: int| 0 <= x < i ==> #[trigger] nodes@[x]@ == dir_node(ds, x),
                forall|x: int|
                    i < x < n ==> #[trigger] nodes@[x]@ == (NodeView {
                        children: dir_kids(ds, x),
                        ..dir_node(ds, x)
                    }),
                nodes@[i as int]@ == (NodeView {
                    children: dir_kids(ds, i as int) + numbers(n as nat + base.len(), k as nat),
                    ..dir_node(ds, i as int)
                }),
                forall|x: int|
                    n <= x < nodes@.len() ==> #[trigger] nodes@[x]@ == (base + large_nodes(
                        i,
                        d,
                        k as nat,
                    ))[x - n],
            decreases d.large.len() - k,
        {
            let ghost pre = nodes@;
            let fi: usize = nodes.len();
            let e = &idx.dirs[i].large[k];
            assert(d.large[k as int] == (e.0@, e.1));
            nodes.push(
                Node {
                    name: e.0.clone(),
                    size: e.1,
                    private: idx.dirs[i].unshared(k),
                    is_dir: false,
                    parent: Some(i),
                    children: Vec::new(),
                    file_count: 1,
                    removed: false,
                    mtime_ns: 0,
                    synthetic: false,
                },
            );
            assert(nodes@[fi as int]@ =~= file_node(
                i,
                d.large[k as int].0,
                d.large[k as int].1,
                large_unshared(d, k as int),
            ));
            nodes[i].children.push(fi);
            assert(dir_kids(ds, i as int) + numbers(n as nat + base.len(), (k + 1) as nat) =~= (
            dir_kids(ds, i as int) + numbers(n as nat + base.len(), k as nat)).push(fi));
            assert forall|x: int| n <= x < nodes@.len() implies #[trigger] nodes@[x]@ == (base
                + large_nodes(i, d, (k + 1) as nat))[x - n] by {
                if x < fi {
                    assert(nodes@[x] == pre[x]);
                }
            }
            k += 1;
        }
        let ghost large = large_nodes(i, d, d.large.len());
        if idx.dirs[i].own_files > 0 {
            let ghost pre = nodes@;
            let fi: usize = nodes.len();
            nodes.push(
                Node {
                    name: small_files_name(idx.dirs[i].own_files),
                    size: idx.dirs[i].own_bytes,
                    private: idx.dirs[i].own_private,
                    is_dir: false,
                    parent: Some(i),
                    children: Vec::new(),
                    file_count: idx.dirs[i].own_files,
                    removed: false,
                    mtime_ns: 0,
                    synthetic: true,
                },
            );
            assert(nodes@[fi as int]@ =~= small_node(i, d));
            nodes[i].children.push(fi);
            assert(dir_kids(ds, i as int) + numbers(n as nat + base.len(), d.large.len() + 1) =~= (
            dir_kids(ds, i as int) + numbers(n as nat + base.len(), d.large.len())).push(fi));
            assert forall|x: int| n <= x < nodes@.len() implies #[trigger] nodes@[x]@ == (base
                + file_nodes(i, d))[x - n] by {
                if x < fi {
                    assert(nodes@[x] == pre[x]);
                    assert((base + large)[x - n] == (base + large.push(small_node(i, d)))[x - n]);
                }
            }
        }
        assert(nodes@[i as int]@ == dir_node(ds, i as int));
        i += 1;
    }
    assert(scan::nodes_view(nodes@) =~= nodes_of(ds));
    assert(nodes@.len() == nodes.len());
    proof {
        lemma_nodes_in_range(ds);
    }
    let mut tree = Tree { nodes, root: idx.root_ix as usize, root_path: idx.root.clone() };
    tree.sort_children();
    tree
}

// ---- tree to index ------------------------------------------------------------

/// Whether the node is a directory that has not been removed.
pub open spec fn live_dir(n: NodeView) -> bool {
    n.is_dir && !n.removed
}

/// The links between live directories: those of the tree without files and
/// removed nodes.
pub open spec fn live_links(ns: Seq<NodeView>) -> Forest {
    Forest {
        kids: ns.map_values(|n: NodeView| n.children.filter(|c: usize| live_dir(ns[c as int]))),
        par: ns.map_values(
            |n: NodeView|
                if live_dir(n) {
                    n.parent
                } else {
                    None
                },
        ),
    }
}

/// Whether the node is a file with a record of its own. Small files, and a
/// stand-in for small files, fold into the collapsed totals.
pub open spec fn is_large(n: NodeView, threshold: u64) -> bool {
    !n.is_dir && !n.removed && n.size >= threshold && !n.synthetic
}

/// Whether the node is a file that folds into the collapsed totals.
pub open spec fn is_small(n: NodeView, threshold: u64) -> bool {
    !n.is_dir && !n.removed && !(n.size >= threshold && !n.synthetic)
}

/// The large files among the first `k` of `kids`.
pub open spec fn large_of(ns: Seq<NodeView>, kids: Seq<usize>, threshold: u64, k: nat) -> Seq<
    (Seq<char>, u64),
>
    decreases k,
{
    if k == 0 {
        Seq::empty()
    } else {
        let n = ns[kids[k - 1] as int];
        let before = large_of(ns, kids, threshold, (k - 1) as nat);
        if is_large(n, threshold) {
            before.push((n.name, n.size))
        } else {
            before
        }
    }
}

/// The unshared bytes of the large files among the first `k` of `kids`.
pub open spec fn large_privates(
    ns: Seq<NodeView>,
    kids: Seq<usize>,
    threshold: u64,
    k: nat,
) -> Seq<u64>
    decreases k,
{
    if k == 0 {
        Seq::empty()
    } else {
        let n = ns[kids[k - 1] as int];
        let before = large_privates(ns, kids, threshold, (k - 1) as nat);
        if is_large(n, threshold) {
            before.push(n.private)
        } else {
            before
        }
    }
}

/// The bytes of the small files among the first `k` of `kids`.
pub open spec fn small_bytes(ns: Seq<NodeView>, kids: Seq<usize>, threshold: u64, k: nat) -> nat
    decreases k,
{
    if k == 0 {
        0
    } else {
        let n = ns[kids[k - 1] as int];
        small_bytes(ns, kids, threshold, (k - 1) as nat) + (if is_small(n, threshold) {
            n.size as nat
        } else {
            0
        })
    }
}

/// The unshared bytes of the small files among the first `k` of `kids`.
pub open spec fn small_private(ns: Seq<NodeView>, kids: Seq<usize>, threshold: u64, k: nat) -> nat
    decreases k,
{
    if k == 0 {
        0
    } else {
        let n = ns[kids[k - 1] as int];
        small_private(ns, kids, threshold, (k - 1) as nat) + (if is_small(n, threshold) {
            n.private as nat
        } else {
            0
        })
    }
}

/// The number of small files among the first `k` of `kids`.
pub open spec fn small_files(ns: Seq<NodeView>, kids: Seq<usize>, threshold: u64, k: nat) -> nat
    decreases k,
{
    if k == 0 {
        0
    } else {
        let n = ns[kids[k - 1] as int];
        small_files(ns, kids, threshold, (k - 1) as nat) + (if is_small(n, threshold) {
            n.file_count as nat
        } else {
            0
        })
    }
}

/// Whether the small files among `kids` can be counted in 64 bits.
pub open spec fn kids_fit(ns: Seq<NodeView>, kids: Seq<usize>, threshold: u64) -> bool {
    &&& small_bytes(ns, kids, threshold, kids.len()) <= u64::MAX
    &&& small_private(ns, kids, threshold, kids.len()) <= u64::MAX
    &&& small_files(ns, kids, threshold, kids.len()) <= u64::MAX
}

/// Whether the small files of each directory can be counted in 64 bits.
pub open spec fn small_fit(ns: Seq<NodeView>, threshold: u64) -> bool {
    forall|i: int| 0 <= i < ns.len() ==> kids_fit(ns, (#[trigger] ns[i]).children, threshold)
}

/// The directories that get a record, in the order of the records: the root,
/// then the trees of its live directories, the last one first.
pub open spec fn recorded(t: TreeView) -> Seq<usize> {
    if t.nodes[t.root as int].removed {
        Seq::empty()
    } else {
        forest::walk(live_links(t.nodes), t.root as int)
    }
}

/// The place of a record as it is written (in 32 bits).
pub open spec fn place(k: int) -> u32 {
    (k % 0x1_0000_0000) as u32
}

/// The `k`-th record of the index of a tree.
pub open spec fn record(t: TreeView, threshold: u64, k: int) -> DirView {
    let x = recorded(t)[k];
    let n = t.nodes[x as int];
    DirView {
        parent: if k == 0 {
            None
        } else {
            Some(place(recorded(t).index_of(n.parent->0)))
        },
        name: n.name,
        mtime_ns: n.mtime_ns,
        own_bytes: small_bytes(t.nodes, n.children, threshold, n.children.len()) as u64,
        own_files: small_files(t.nodes, n.children, threshold, n.children.len()) as u64,
        own_private: small_private(t.nodes, n.children, threshold, n.children.len()) as u64,
        subtree_bytes: n.size,
        subtree_files: n.file_count,
        subtree_private: n.private,
        large: large_of(t.nodes, n.children, threshold, n.children.len()),
        large_private: large_privates(t.nodes, n.children, threshold, n.children.len()),
    }
}

/// The index of a tree.
pub open spec fn index_of_tree(
    t: TreeView,
    mode: Mode,
    last_event_id: u64,
    threshold: u64,
    device_id: u64,
    now: u64,
) -> IndexView {
    IndexView {
        root: t.root_path,
        scanned_at: now,
        mode,
        device_id,
        last_event_id,
        threshold,
        dirs: Seq::new(recorded(t).len(), |k: int| record(t, threshold, k)),
        root_ix: 0,
    }
}

/// Tells the live directories of an arena.
pub open spec fn live_in(ns: Seq<NodeView>) -> spec_fn(usize) -> bool {
    |c: usize| live_dir(ns[c as int])
}

pub proof fn lemma_live_kids(ns: Seq<NodeView>, i: int)
    requires
        0 <= i < ns.len(),
    ensures
        live_links(ns).kids[i] == ns[i].children.filter(live_in(ns)),
{
    assert(ns[i].children.filter(|c: usize| live_dir(ns[c as int])) == ns[i].children.filter(
        live_in(ns),
    ));
}

/// The live directories of a tree hang together as trees.
pub proof fn lemma_live_wf(ns: Seq<NodeView>)
    requires
        scan::links(ns).wf(),
    ensures
        live_links(ns).wf(),
{
    let f = scan::links(ns);
    let g = forest::pruned(f, live_in(ns));
    forest::lemma_pruned_wf(f, live_in(ns));
    assert forall|i: int| 0 <= i < ns.len() implies #[trigger] live_links(ns).kids[i]
        == g.kids[i] by {
        lemma_live_kids(ns, i);
    }
    assert(live_links(ns).kids =~= g.kids);
    assert(live_links(ns).par =~= g.par);
}

/// The first entries of a stack of directories waiting for their record.
spec fn waiting(stack: Seq<(usize, Option<u32>)>) -> Seq<usize> {
    stack.map_values(|e: (usize, Option<u32>)| e.0)
}

proof fn lemma_small_bound(ns: Seq<NodeView>, kids: Seq<usize>, threshold: u64, k: nat, n: nat)
    requires
        k <= n,
    ensures
        small_bytes(ns, kids, threshold, k) <= small_bytes(ns, kids, threshold, n),
        small_private(ns, kids, threshold, k) <= small_private(ns, kids, threshold, n),
        small_files(ns, kids, threshold, k) <= small_files(ns, kids, threshold, n),
    decreases n,
{
    if k < n {
        lemma_small_bound(ns, kids, threshold, k, (n - 1) as nat);
    }
}

/// The record of one directory.
fn record_of(tree: &Tree, node_ix: usize, parent: Option<u32>, threshold: u64) -> (r: (
    DirRec,
    Vec<usize>,
))
    requires
        tree@.wf(),
        node_ix < tree.nodes@.len(),
        small_fit(tree@.nodes, threshold),
    ensures
        ({
            let ns = tree@.nodes;
            let n = ns[node_ix as int];
            &&& r.0@ == (DirView {
                parent,
                name: n.name,
                mtime_ns: n.mtime_ns,
                own_bytes: small_bytes(ns, n.children, threshold, n.children.len()) as u64,
                own_files: small_files(ns, n.children, threshold, n.children.len()) as u64,
                own_private: small_private(ns, n.children, threshold, n.children.len()) as u64,
                subtree_bytes: n.size,
                subtree_files: n.file_count,
                subtree_private: n.private,
                large: large_of(ns, n.children, threshold, n.children.len()),
                large_private: large_privates(ns, n.children, threshold, n.children.len()),
            })
            &&& r.1@ == live_links(ns).kids[node_ix as int]
        }),
{
    let ghost ns = tree@.nodes;
    let n = &tree.nodes[node_ix];
    let ghost nv = ns[node_ix as int];
    let ghost kids = nv.children;
    let ghost f = scan::links(ns);
    let mut own_bytes: u64 = 0;
    let mut own_files: u64 = 0;
    let mut own_private: u64 = 0;
    let mut large: Vec<(String, u64)> = Vec::new();
    let mut large_private: Vec<u64> = Vec::new();
    let mut dirs: Vec<usize> = Vec::new();
    let mut k: usize = 0;
    assert(nv == n@);
    assert(files_view(large@) =~= Seq::<(Seq<char>, u64)>::empty());
    proof {
        reveal_with_fuel(Seq::filter, 1);
        assert(kids.take(0).filter(live_in(ns)) =~= Seq::<usize>::empty());
    }
    while k < n.children.len()
        invariant
            ns == tree@.nodes,
            f == scan::links(ns),
            f.wf(),
            node_ix < ns.len(),
            nv == ns[node_ix as int],
            nv == n@,
            kids == nv.children,
            small_fit(ns, threshold),
            k <= kids.len(),
            own_bytes == small_bytes(ns, kids, threshold, k as nat),
            own_files == small_files(ns, kids, threshold, k as nat),
            own_private == small_private(ns, kids, threshold, k as nat),
            files_view(large@) == large_of(ns, kids, threshold, k as nat),
            large_private@ == large_privates(ns, kids, threshold, k as nat),
            dirs@ == kids.take(k as int).filter(live_in(ns)),
        decreases kids.len() - k,
    {
        let c: usize = n.children[k];
        proof {
            assert(f.kids[node_ix as int] == kids);
            assert(f.kids[node_ix as int][k as int] < f.len());
            lemma_small_bound(ns, kids, threshold, (k + 1) as nat, kids.len());
            assert(kids_fit(ns, ns[node_ix as int].children, threshold));
            text::lemma_filter_last(kids.take(k + 1), live_in(ns));
            assert(kids.take(k + 1).drop_last() =~= kids.take(k as int));
            assert(kids.take(k + 1).last() == c);
        }
        let ch = &tree.nodes[c];
        assert(ns[c as int] == ch@);
        if !ch.removed {
            if ch.is_dir {
                dirs.push(c);
            } else if ch.size >= threshold && !ch.synthetic {
                let ghost before = files_view(large@);
                large.push((ch.name.clone(), ch.size));
                large_private.push(ch.private);
                assert(files_view(large@) =~= before.push((ch.name@, ch.size)));
            } else {
                own_bytes = own_bytes + ch.size;
                own_files = own_files + ch.file_count;
                own_private = own_private + ch.private;
            }
        }
        k += 1;
    }
    assert(kids.take(kids.len() as int) =~= kids);
    proof {
        lemma_live_kids(ns, node_ix as int);
    }
    (
        DirRec {
            parent,
            name: n.name.clone(),
            mtime_ns: n.mtime_ns,
            own_bytes,
            own_files,
            own_private,
            subtree_bytes: n.size,
            subtree_files: n.file_count,
            subtree_private: n.private,
            large,
            large_private,
        },
        dirs,
    )
}

/// Whether the small files of each directory can be counted in 64 bits.
pub fn small_files_fit(tree: &Tree, threshold: u64) -> (r: bool)
    requires
        tree@.wf(),
    ensures
        r == small_fit(tree@.nodes, threshold),
{
    let ghost ns = tree@.nodes;
    let ghost f = scan::links(ns);
    let mut i: usize = 0;
    while i < tree.nodes.len()
        invariant
            ns == tree@.nodes,
            f == scan::links(ns),
            f.wf(),
            i <= ns.len(),
            forall|j: int| 0 <= j < i ==> kids_fit(ns, (#[trigger] ns[j]).children, threshold),
        decreases ns.len() - i,
    {
        let n = &tree.nodes[i];
        let ghost kids = ns[i as int].children;
        assert(ns[i as int] == n@);
        let mut bytes: u64 = 0;
        let mut private: u64 = 0;
        let mut files: u64 = 0;
        let mut k: usize = 0;
        while k < n.children.len()
            invariant
                ns == tree@.nodes,
                f == scan::links(ns),
                f.wf(),
                i < ns.len(),
                ns[i as int] == n@,
                kids == n.children@,
                k <= kids.len(),
                bytes == small_bytes(ns, kids, threshold, k as nat),
                private == small_private(ns, kids, threshold, k as nat),
                files == small_files(ns, kids, threshold, k as nat),
            decreases kids.len() - k,
        {
            let c: usize = n.children[k];
            proof {
                assert(f.kids[i as int] == kids);
                assert(f.kids[i as int][k as int] < f.len());
                lemma_small_bound(ns, kids, threshold, (k + 1) as nat, kids.len());
            }
            let ch = &tree.nodes[c];
            assert(ns[c as int] == ch@);
            if !ch.removed && !ch.is_dir && !(ch.size >= threshold && !ch.synthetic) {
                match (
                    bytes.checked_add(ch.size),
                    private.checked_add(ch.private),
                    files.checked_add(ch.file_count),
                ) {
                    (Some(b), Some(p), Some(n)) => {
                        bytes = b;
                        private = p;
                        files = n;
                    },
                    _ => {
                        assert(!kids_fit(ns, ns[i as int].children, threshold));
                        return false;
                    },
                }
            }
            k += 1;
        }
        i += 1;
    }
    true
}

/// Build a compact index from a freshly scanned tree, as of the time `now`.
pub fn from_tree_at(
    tree: &Tree,
    mode: Mode,
    last_event_id: u64,
    threshold: u64,
    device_id: u64,
    now: u64,
) -> (r: Index)
    requires
        tree@.wf(),
        small_fit(tree@.nodes, threshold),
    ensures
        r@ == index_of_tree(tree@, mode, last_event_id, threshold, device_id, now),
{
    let ghost t = tree@;
    let ghost g = live_links(t.nodes);
    let ghost all = recorded(t);
    let mut dirs: Vec<DirRec> = Vec::new();
    let mut stack: Vec<(usize, Option<u32>)> = Vec::new();
    let ghost mut done = Seq::<usize>::empty();
    proof {
        lemma_live_wf(t.nodes);
        assert(t.nodes[t.root as int] == tree.nodes@[t.root as int]@);
        if !t.nodes[t.root as int].removed {
            forest::lemma_walk_distinct(g, t.root as int);
        }
    }
    if !tree.nodes[tree.root].removed {
        stack.push((tree.root, None));
        assert(waiting(stack@) =~= seq![tree.root]);
        assert(waiting(stack@).drop_last() =~= Seq::<usize>::empty());
        assert(forest::stack_walk(g, waiting(stack@).drop_last()) == Seq::<usize>::empty());
        assert(done + forest::stack_walk(g, waiting(stack@)) =~= all);
    } else {
        assert(waiting(stack@) =~= Seq::<usize>::empty());
        assert(done + forest::stack_walk(g, waiting(stack@)) =~= all);
    }
    while stack.len() > 0
        invariant
            t == tree@,
            t.wf(),
            small_fit(t.nodes, threshold),
            g == live_links(t.nodes),
            g.wf(),
            g.len() == t.nodes.len(),
            all == recorded(t),
            all.no_duplicates(),
            done + forest::stack_walk(g, waiting(stack@)) == all,
            forall|j: int| 0 <= j < stack@.len() ==> (#[trigger] stack@[j]).0 < g.len(),
            done.len() == 0 && stack@.len() > 0 ==> stack@ == seq![(t.root, None::<u32>)],
            done.len() > 0 ==> forall|j: int|
                0 <= j < stack@.len() ==> ({
                    let e = #[trigger] stack@[j];
                    exists|q: int|
                        0 <= q < done.len() && t.nodes[e.0 as int].parent == Some(
                            #[trigger] done[q],
                        ) && e.1 == Some(place(q))
                }),
            dirs@.len() == done.len(),
            forall|k: int| 0 <= k < done.len() ==> #[trigger] dirs@[k]@ == record(t, threshold, k),
        decreases forest::stack_walk(g, waiting(stack@)).len(),
    {
        let ghost st0 = stack@;
        let ghost done0 = done;
        let e = stack.pop().unwrap();
        let node_ix: usize = e.0;
        let ghost st = waiting(stack@);
        assert(e == st0.last());
        assert(st =~= waiting(st0).drop_last());
        assert(waiting(st0).last() == node_ix);
        assert(st0[st0.len() - 1] == e);
        let here: u32 = (dirs.len() as u64 % 0x1_0000_0000) as u32;
        assert(here == place(done.len() as int));
        let (rec, kids) = record_of(tree, node_ix, e.1, threshold);
        let ghost kw = forest::kids_walk(g, node_ix as int, kids@.len());
        proof {
            assert(forest::stack_walk(g, waiting(st0)) == forest::walk(g, node_ix as int)
                + forest::stack_walk(g, st));
            assert(done0 + ((seq![node_ix] + kw) + forest::stack_walk(g, st)) =~= done0.push(
                node_ix,
            ) + (kw + forest::stack_walk(g, st)));
            done = done0.push(node_ix);
            assert(all[done0.len() as int] == node_ix);
            if done0.len() > 0 {
                let q = choose|q: int|
                    0 <= q < done0.len() && t.nodes[e.0 as int].parent == Some(#[trigger] done0[q])
                        && e.1 == Some(place(q));
                assert(all[q] == done0[q]);
                assert(all.index_of(done0[q]) == q) by {
                    assert(all.contains(done0[q]));
                    let j = all.index_of(done0[q]);
                    assert(all[j] == done0[q]);
                }
            }
            assert(rec@ == record(t, threshold, done0.len() as int));
        }
        dirs.push(rec);
        let mut k: usize = 0;
        assert(st + kids@.take(0) =~= st);
        assert forall|j: int| 0 <= j < stack@.len() implies ({
            let e = #[trigger] stack@[j];
            exists|q: int|
                0 <= q < done.len() && t.nodes[e.0 as int].parent == Some(#[trigger] done[q])
                    && e.1 == Some(place(q))
        }) by {
            let e1 = st0[j];
            assert(stack@[j] == e1);
            assert(done0.len() > 0);
            let q = choose|q: int|
                0 <= q < done0.len() && t.nodes[e1.0 as int].parent == Some(#[trigger] done0[q])
                    && e1.1 == Some(place(q));
            assert(done[q] == done0[q]);
        }
        while k < kids.len()
            invariant
                k <= kids@.len(),
                g == live_links(t.nodes),
                g.wf(),
                g.len() == t.nodes.len(),
                node_ix < g.len(),
                kids@ == g.kids[node_ix as int],
                here == place(done0.len() as int),
                done == done0.push(node_ix),
                waiting(stack@) == st + kids@.take(k as int),
                forall|j: int| 0 <= j < stack@.len() ==> (#[trigger] stack@[j]).0 < g.len(),
                forall|j: int|
                    0 <= j < stack@.len() ==> ({
                        let e = #[trigger] stack@[j];
                        exists|q: int|
                            0 <= q < done.len() && t.nodes[e.0 as int].parent == Some(
                                #[trigger] done[q],
                            ) && e.1 == Some(place(q))
                    }),
            decreases kids@.len() - k,
        {
            let c: usize = kids[k];
            proof {
                forest::lemma_kid(g, node_ix as int, k as int);
                assert(g.par[c as int] == Some(node_ix));
                assert(t.nodes[c as int].parent == Some(node_ix));
                assert(done[done0.len() as int] == node_ix);
            }
            let ghost before = stack@;
            stack.push((c, Some(here)));
            assert forall|j: int| 0 <= j < stack@.len() implies ({
                let e = #[trigger] stack@[j];
                exists|q: int|
                    0 <= q < done.len() && t.nodes[e.0 as int].parent == Some(#[trigger] done[q])
                        && e.1 == Some(place(q))
            }) by {
                if j < before.len() {
                    assert(stack@[j] == before[j]);
                }
            }
            assert(waiting(stack@) =~= waiting(before).push(c));
            assert(kids@.take(k + 1) =~= kids@.take(k as int).push(c));
            k += 1;
            assert(waiting(stack@) =~= st + kids@.take(k as int));
        }
        proof {
            assert(kids@.take(kids@.len() as int) =~= kids@);
            forest::lemma_stack_push(g, st, node_ix as int, kids@.len());
        }
    }
    assert(waiting(stack@) =~= Seq::<usize>::empty());
    assert(done + Seq::<usize>::empty() =~= done);
    let ghost want = index_of_tree(t, mode, last_event_id, threshold, device_id, now);
    assert(dirs_view(dirs@) =~= want.dirs);
    Index {
        root: tree.root_path.clone(),
        scanned_at: now,
        mode,
        device_id,
        last_event_id,
        threshold,
        dirs,
        root_ix: 0,
    }
}

// ---- time and place -----------------------------------------------------------

/// Seconds since the Unix epoch, from `SystemTime::elapsed`: `None` where the
/// clock stands before the epoch. Nothing is claimed of the number.
#[verifier::external_body]
fn since_epoch() -> (r: Option<u64>) {
    std::time::UNIX_EPOCH.elapsed().ok().map(|d| d.as_secs())
}

/// The seconds that a clock reading stands for; none counts as 0.
pub fn secs_or_zero(since: Option<u64>) -> (r: u64)
    ensures
        r == (match since {
            Some(s) => s,
            None => 0,
        }),
{
    match since {
        Some(s) => s,
        None => 0,
    }
}

/// The current time in Unix seconds, or 0 where the clock stands before the
/// epoch.
pub fn now_secs() -> (r: u64) {
    secs_or_zero(since_epoch())
}

/// Build a compact index from a freshly scanned tree, as of now.
pub fn from_tree(tree: &Tree, mode: Mode, last_event_id: u64, threshold: u64, device_id: u64) -> (r:
    Index)
    requires
        tree@.wf(),
        small_fit(tree@.nodes, threshold),
    ensures
        r@ == index_of_tree(tree@, mode, last_event_id, threshold, device_id, r.scanned_at),
{
    let now: u64 = now_secs();
    from_tree_at(tree, mode, last_event_id, threshold, device_id, now)
}

/// Directory holding all cached indexes: the chosen one, or the usual place below
/// the home directory.
pub open spec fn cache_dir_of(chosen: Option<Seq<char>>, home: Option<Seq<char>>) -> Option<
    Seq<char>,
> {
    match chosen {
        Some(dir) => Some(dir),
        None => match home {
            Some(h) => Some(
                path::join_text(
                    path::join_text(h, "Library/Caches/com.pathors.diskscour"@),
                    "roots"@,
                ),
            ),
            None => None,
        },
    }
}

/// The characters of an optional string.
pub open spec fn opt_str(s: Option<&str>) -> Option<Seq<char>> {
    match s {
        Some(s) => Some(s@),
        None => None,
    }
}

/// The characters of an optional owned string.
pub open spec fn opt_string(s: Option<String>) -> Option<Seq<char>> {
    match s {
        Some(s) => Some(s@),
        None => None,
    }
}

/// Directory holding all cached indexes.
///
/// `Caches/` is the honest home for this: the index is regenerable, and the worst
/// consequence of the system purging it is one slower scan.
pub fn cache_dir(chosen: Option<&str>, home: Option<&str>) -> (r: Option<String>)
    ensures
        opt_string(r) == cache_dir_of(opt_str(chosen), opt_str(home)),
{
    match chosen {
        Some(dir) => Some(dir.to_owned()),
        None => match home {
            Some(h) => {
                let base = join(h, "Library/Caches/com.pathors.diskscour");
                Some(join(base.as_str(), "roots"))
            },
            None => None,
        },
    }
}

/// One step of FNV-1a in 64 bits.
pub open spec fn fnv_step(h: u64, b: u8) -> u64 {
    (((h ^ (b as u64)) * 0x100_0000_01b3) % 0x1_0000_0000_0000_0000) as u64
}

/// FNV-1a of the bytes, in 64 bits.
pub open spec fn fnv(b: Seq<u8>) -> u64
    decreases b.len(),
{
    if b.len() == 0 {
        0xcbf2_9ce4_8422_2325
    } else {
        fnv_step(fnv(b.drop_last()), b.last())
    }
}

/// The last `n` hexadecimal digits of `v`.
pub open spec fn hex(v: nat, n: nat) -> Seq<char>
    decreases n,
{
    if n == 0 {
        Seq::empty()
    } else {
        hex(v / 16, (n - 1) as nat).push(hex_digit(v % 16))
    }
}

/// The character of a hexadecimal digit.
pub open spec fn hex_digit(d: nat) -> char {
    "0123456789abcdef"@[d as int]
}

fn hex_char(d: u64) -> (r: char)
    requires
        d < 16,
    ensures
        r == hex_digit(d as nat),
{
    proof {
        reveal_strlit("0123456789abcdef");
    }
    let cs = text::chars_of("0123456789abcdef");
    cs[d as usize]
}

fn hex_string(v: u64, n: u64) -> (r: String)
    ensures
        r@ == hex(v as nat, n as nat),
    decreases n,
{
    if n == 0 {
        let out = String::new();
        assert(out@ =~= Seq::<char>::empty());
        return out;
    }
    let mut out = hex_string(v / 16, n - 1);
    out.push(hex_char(v % 16));
    out
}

/// The name of a root's cache file, without its extension: FNV-1a over the
/// canonical root path in 16 hexadecimal digits. It is only ever used to name a
/// cache file, never for integrity.
pub fn root_key(root: &str) -> (r: String)
    ensures
        r@ == hex(fnv(vstd::utf8::encode_utf8(root@)) as nat, 16),
{
    let b = root.as_bytes();
    let ghost all = vstd::utf8::encode_utf8(root@);
    let mut h: u64 = 0xcbf2_9ce4_8422_2325;
    let mut i: usize = 0;
    assert(all.take(0).len() == 0);
    while i < b.len()
        invariant
            b@ == all,
            i <= b@.len(),
            h == fnv(all.take(i as int)),
        decreases b@.len() - i,
    {
        assert(all.take(i + 1).drop_last() =~= all.take(i as int));
        h = (h ^ (b[i] as u64)).wrapping_mul(0x100_0000_01b3);
        i += 1;
    }
    assert(all.take(all.len() as int) =~= all);
    hex_string(h, 16)
}

/// Path of the cache file for the root with the canonical path `canonical`.
pub fn index_path(cache_dir: Option<&str>, canonical: &str) -> (r: Option<String>)
    ensures
        opt_string(r) == (match cache_dir {
            Some(dir) => Some(
                path::join_text(
                    dir@,
                    hex(fnv(vstd::utf8::encode_utf8(canonical@)) as nat, 16) + ".idx"@,
                ),
            ),
            None => None,
        }),
{
    match cache_dir {
        Some(dir) => {
            let mut name = root_key(canonical);
            name.append(".idx");
            Some(join(dir, name.as_str()))
        },
        None => None,
    }
}

// ---- reading an index -----------------------------------------------------------

/// The path of a record: the root's own path, and below it the parent's path
/// followed by the record's name.
pub open spec fn rec_path(v: IndexView, i: int) -> Seq<char>
    decreases forest::rank(dir_links(v.dirs), i),
    when v.wf() && 0 <= i < v.dirs.len()
    via rec_path_decreases
{
    if i == v.root_ix {
        v.root
    } else {
        match v.dirs[i].parent {
            Some(p) => path::join_text(rec_path(v, p as int), v.dirs[i].name),
            None => path::join_text(v.root, v.dirs[i].name),
        }
    }
}

#[via_fn]
proof fn rec_path_decreases(v: IndexView, i: int) {
    let f = dir_links(v.dirs);
    forest::lemma_rank(f);
    if let Some(p) = v.dirs[i].parent {
        assert(f.par[i] == Some(p as usize));
    }
}

/// The records among the first `k` by path; of two with the same path the later
/// one counts.
pub open spec fn paths_upto(v: IndexView, k: nat) -> Map<Seq<char>, u32>
    decreases k,
{
    if k == 0 {
        Map::empty()
    } else {
        paths_upto(v, (k - 1) as nat).insert(path::norm(rec_path(v, k - 1)), place(k - 1))
    }
}

/// Record places by path. Two texts of one path find the same record.
pub struct PathMap {
    map: StringHashMap<u32>,
}

impl View for PathMap {
    type V = Map<Seq<char>, u32>;

    closed spec fn view(&self) -> Map<Seq<char>, u32> {
        self.map@
    }
}

impl PathMap {
    /// A map with nothing in it.
    pub fn empty() -> (r: PathMap)
        ensures
            r@ == Map::<Seq<char>, u32>::empty(),
    {
        PathMap { map: StringHashMap::new() }
    }

    fn insert(&mut self, p: &str, ix: u32)
        ensures
            final(self)@ == old(self)@.insert(path::norm(p@), ix),
    {
        self.map.insert(normalized(p), ix);
    }

    /// The place found for the path `p`.
    pub fn get(&self, p: &str) -> (r: Option<u32>)
        ensures
            r == (if self@.contains_key(path::norm(p@)) {
                Some(self@[path::norm(p@)])
            } else {
                None
            }),
    {
        match self.map.get(normalized(p).as_str()) {
            Some(ix) => Some(*ix),
            None => None,
        }
    }
}

/// How old at `now` is what was made at `made`: nothing where the clock went back.
pub open spec fn age(made: u64, now: u64) -> u64 {
    if now >= made {
        (now - made) as u64
    } else {
        0
    }
}

impl Index {
    /// What the bytes of a cache file hold for `root`. A recorded root that is
    /// neither `root` nor its canonical path means a hash collision or a moved
    /// cache, and it is safer to ignore the file.
    pub fn load(bytes: &[u8], root: &str, canonical: &str) -> (r: Option<Index>)
        ensures
            match r {
                Some(i) => crate::format::decodes_to(bytes@, i@) && (path::same(
                    i.root@,
                    canonical@,
                ) || path::same(i.root@, root@)),
                None => forall|i: IndexView| #[trigger]
                    crate::format::decodes_to(bytes@, i) ==> !path::same(i.root, canonical@)
                        && !path::same(i.root, root@),
            },
    {
        match Index::decode(bytes) {
            Some(i) => {
                if same_path(i.root.as_str(), canonical) || same_path(i.root.as_str(), root) {
                    Some(i)
                } else {
                    proof {
                        assert forall|j: IndexView| #[trigger]
                            crate::format::decodes_to(bytes@, j) implies !path::same(
                            j.root,
                            canonical@,
                        ) && !path::same(j.root, root@) by {
                            crate::format::law_decoding_is_unique(bytes@, i@, j);
                        }
                    }
                    None
                }
            },
            None => None,
        }
    }

    /// How long ago the scan finished, in seconds, at the time `now`.
    pub fn age_at(&self, now: u64) -> (r: u64)
        ensures
            r == age(self.scanned_at, now),
    {
        if now >= self.scanned_at {
            now - self.scanned_at
        } else {
            0
        }
    }

    /// How long ago the scan finished, in seconds, going by the clock.
    pub fn age_secs(&self) -> (r: u64)
        ensures
            exists|now: u64| r == #[trigger] age(self.scanned_at, now),
    {
        let now: u64 = now_secs();
        self.age_at(now)
    }

    /// All bytes below the root.
    pub fn total_bytes(&self) -> (r: u64)
        requires
            self.root_ix < self.dirs@.len(),
        ensures
            r == self@.dirs[self.root_ix as int].subtree_bytes,
    {
        self.dirs[self.root_ix as usize].subtree_bytes
    }

    /// All bytes below the root that no other file shares.
    pub fn total_private(&self) -> (r: u64)
        requires
            self.root_ix < self.dirs@.len(),
        ensures
            r == self@.dirs[self.root_ix as int].subtree_private,
    {
        self.dirs[self.root_ix as usize].subtree_private
    }

    /// All files below the root.
    pub fn total_files(&self) -> (r: u64)
        requires
            self.root_ix < self.dirs@.len(),
        ensures
            r == self@.dirs[self.root_ix as int].subtree_files,
    {
        self.dirs[self.root_ix as usize].subtree_files
    }

    /// Absolute path of a directory record.
    pub fn path_of(&self, ix: u32) -> (r: String)
        requires
            self@.wf(),
            ix < self.dirs@.len(),
        ensures
            r@ == rec_path(self@, ix as int),
    {
        let ghost v = self@;
        let ghost f = dir_links(v.dirs);
        if ix == self.root_ix {
            return self.root.clone();
        }
        let mut chain: Vec<u32> = Vec::new();
        let mut cur: u32 = ix;
        let mut top = false;
        proof {
            forest::lemma_rank(f);
        }
        while !top
            invariant
                v == self@,
                f == dir_links(v.dirs),
                v.wf(),
                forest::ranked(f, forest::ranking(f).0, forest::ranking(f).1),
                cur < self.dirs@.len(),
                !top ==> cur != self.root_ix,
                forall|j: int| 0 <= j < chain@.len() ==> #[trigger] chain@[j] < self.dirs@.len(),
                forall|j: int| 0 <= j < chain@.len() ==> #[trigger] chain@[j] != self.root_ix,
                chain@.len() > 0 ==> chain@[0] == ix,
                chain@.len() == 0 ==> cur == ix && !top,
                forall|j: int|
                    0 <= j < chain@.len() - 1 ==> v.dirs[chain@[j] as int].parent == Some(
                        #[trigger] chain@[j + 1],
                    ),
                !top && chain@.len() > 0 ==> v.dirs[chain@.last() as int].parent == Some(cur),
                top ==> (v.dirs[chain@.last() as int].parent matches Some(p) ==> p == self.root_ix),
            decreases
                forest::rank(f, cur as int) + (if top {
                    0int
                } else {
                    1int
                }),
        {
            assert(v.dirs[cur as int] == self.dirs@[cur as int]@);
            chain.push(cur);
            match self.dirs[cur as usize].parent {
                Some(p) => {
                    assert(f.par[cur as int] == Some(p as usize));
                    if p == self.root_ix {
                        top = true;
                    } else {
                        cur = p;
                    }
                },
                None => {
                    top = true;
                },
            }
        }
        let mut p = self.root.clone();
        let mut k: usize = chain.len();
        while k > 0
            invariant
                v == self@,
                v.wf(),
                k <= chain@.len(),
                chain@.len() > 0,
                forall|j: int| 0 <= j < chain@.len() ==> #[trigger] chain@[j] < self.dirs@.len(),
                forall|j: int| 0 <= j < chain@.len() ==> #[trigger] chain@[j] != self.root_ix,
                forall|j: int|
                    0 <= j < chain@.len() - 1 ==> v.dirs[chain@[j] as int].parent == Some(
                        #[trigger] chain@[j + 1],
                    ),
                v.dirs[chain@.last() as int].parent matches Some(q) ==> q == self.root_ix,
                p@ == (if k == chain@.len() {
                    v.root
                } else {
                    rec_path(v, chain@[k as int] as int)
                }),
            decreases k,
        {
            k -= 1;
            let i: u32 = chain[k];
            assert(v.dirs[i as int] == self.dirs@[i as int]@);
            proof {
                if k < chain@.len() - 1 {
                    assert(v.dirs[chain@[k as int] as int].parent == Some(chain@[k + 1]));
                }
                assert(rec_path(v, v.root_ix as int) == v.root);
            }
            p = join(p.as_str(), self.dirs[i as usize].name.as_str());
        }
        p
    }

    /// Map every directory path to its record. Built on demand: callers that need
    /// it (incremental refresh) hold it for one scan and drop it.
    pub fn by_path(&self) -> (r: PathMap)
        requires
            self@.wf(),
            self.dirs@.len() <= u32::MAX,
        ensures
            r@ == paths_upto(self@, self.dirs@.len()),
    {
        let ghost v = self@;
        let mut paths: Vec<String> = Vec::new();
        let mut out = PathMap::empty();
        let mut i: usize = 0;
        while i < self.dirs.len()
            invariant
                v == self@,
                v.wf(),
                self.dirs@.len() <= u32::MAX,
                i <= self.dirs@.len(),
                paths@.len() == i,
                forall|j: int| 0 <= j < i ==> (#[trigger] paths@[j])@ == rec_path(v, j),
                out@ == paths_upto(v, i as nat),
            decreases self.dirs@.len() - i,
        {
            let d = &self.dirs[i];
            assert(v.dirs[i as int] == d@);
            let here: u32 = i as u32;
            let p = if here == self.root_ix {
                self.root.clone()
            } else {
                match d.parent {
                    Some(par) if (par as usize) < i => {
                        join(paths[par as usize].as_str(), d.name.as_str())
                    },
                    // Records out of order (or a detached parent) are rare enough
                    // to pay the walk-up cost.
                    _ => self.path_of(here),
                }
            };
            out.insert(p.as_str(), here);
            assert(place(i as int) == here);
            paths.push(p);
            i += 1;
        }
        out
    }
}

} // verus!
