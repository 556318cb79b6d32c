//! A scan counts what the walk reports, and a refresh in which nothing changed lands
//! on the totals of the scan it builds on.

use vstd::prelude::*;

use crate::builder;
use crate::builder::{BuilderView, WalkView};
use crate::builder_laws;
use crate::engine;
use crate::engine::{Refreshed, Strategy, MAX_INCREMENTAL_AGE};
use crate::forest;
use crate::forest::Forest;
use crate::fsevents::Replay;
use crate::index;
use crate::index::{DirView, IndexView, Mode, DEFAULT_THRESHOLD};
use crate::path;
use crate::removal;
use crate::roundtrip;
use crate::scan;
use crate::scan::{NodeView, TreeView};
use crate::text;
use crate::walk;

verus! {

// ---- what a walk reports --------------------------------------------------------------

/// The bytes that an entry of a walk brings: a file its own, a directory what is taken
/// over for it from the previous index.
pub open spec fn entry_bytes(e: WalkView, prior: Option<IndexView>) -> nat {
    if e.is_dir {
        own_of(e, prior, |ds: Seq<DirView>| builder::byte_weights(ds)) + below_of(
            e,
            prior,
            |ds: Seq<DirView>| builder::byte_weights(ds),
        )
    } else {
        e.size as nat
    }
}

/// The unshared bytes that an entry of a walk brings.
pub open spec fn entry_private(e: WalkView, prior: Option<IndexView>) -> nat {
    if e.is_dir {
        own_of(e, prior, |ds: Seq<DirView>| builder::private_weights(ds)) + below_of(
            e,
            prior,
            |ds: Seq<DirView>| builder::private_weights(ds),
        )
    } else {
        e.private as nat
    }
}

/// The files that an entry of a walk brings.
pub open spec fn entry_files(e: WalkView, prior: Option<IndexView>) -> nat {
    if e.is_dir {
        own_of(e, prior, |ds: Seq<DirView>| builder::file_weights(ds)) + below_of(
            e,
            prior,
            |ds: Seq<DirView>| builder::file_weights(ds),
        )
    } else {
        1
    }
}

/// What the files of a directory weigh where they come from the previous index.
pub open spec fn own_of(
    e: WalkView,
    prior: Option<IndexView>,
    weights: spec_fn(Seq<DirView>) -> Seq<nat>,
) -> nat {
    match (e.info, prior) {
        (Some(info), Some(v)) => {
            let paths = index::paths_upto(v, v.dirs.len());
            if info.files_cached && paths.contains_key(path::norm(e.path)) {
                weights(v.dirs)[paths[path::norm(e.path)] as int]
            } else {
                0
            }
        },
        _ => 0,
    }
}

/// What a directory weighs that comes whole from the previous index.
pub open spec fn below_of(
    e: WalkView,
    prior: Option<IndexView>,
    weights: spec_fn(Seq<DirView>) -> Seq<nat>,
) -> nat {
    match (e.reused, prior) {
        (Some(rec), Some(v)) => forest::total(
            index::dir_links(v.dirs),
            weights(v.dirs),
            rec as int,
        ),
        _ => 0,
    }
}

/// The bytes that the first `k` entries of a walk bring.
pub open spec fn reported_bytes(es: Seq<WalkView>, prior: Option<IndexView>, k: nat) -> nat
    decreases k,
{
    if k == 0 {
        0
    } else {
        reported_bytes(es, prior, (k - 1) as nat) + entry_bytes(es[k - 1], prior)
    }
}

/// The unshared bytes that the first `k` entries of a walk bring.
pub open spec fn reported_private(es: Seq<WalkView>, prior: Option<IndexView>, k: nat) -> nat
    decreases k,
{
    if k == 0 {
        0
    } else {
        reported_private(es, prior, (k - 1) as nat) + entry_private(es[k - 1], prior)
    }
}

/// The files that the first `k` entries of a walk bring.
pub open spec fn reported_files(es: Seq<WalkView>, prior: Option<IndexView>, k: nat) -> nat
    decreases k,
{
    if k == 0 {
        0
    } else {
        reported_files(es, prior, (k - 1) as nat) + entry_files(es[k - 1], prior)
    }
}

/// Whether a walk starts with the directory `root` and reports each other path once,
/// below a directory that it reported before.
pub open spec fn from_the_top(root: Seq<char>, es: Seq<WalkView>) -> bool {
    &&& es.len() > 0
    &&& es[0].is_dir
    &&& path::same(es[0].path, root)
    &&& forall|k: int| 0 < k < es.len() ==> #[trigger] hangs(root, es, k)
    &&& forall|j: int, k: int|
        0 <= j < k < es.len() ==> !path::same((#[trigger] es[j]).path, (#[trigger] es[k]).path)
}

/// Whether the `k`-th entry of a walk lies directly in a directory reported before.
pub open spec fn hangs(root: Seq<char>, es: Seq<WalkView>, k: int) -> bool {
    &&& path::parent_of(es[k].path) is Some
    &&& exists|j: int|
        0 <= j < k && (#[trigger] es[j]).is_dir && path::same(
            path::parent_of(es[k].path)->0,
            es[j].path,
        )
}

// ---- the arena of such a walk ------------------------------------------------------------

/// Whether a node is a directory without a weight of its own, or a file that counts
/// and has nothing in it.
pub open spec fn plain_node(n: NodeView) -> bool {
    &&& !n.removed
    &&& n.is_dir ==> n.size == 0 && n.private == 0 && n.file_count == 0
    &&& !n.is_dir ==> n.children.len() == 0 && n.file_count > 0 && (n.synthetic || n.file_count
        == 1)
}

/// Whether the arena is linked as trees, all nodes are plain, and only `x` has no
/// parent.
spec fn good(ns: Seq<NodeView>, r: Seq<nat>, x: int) -> bool {
    &&& builder::linked(ns, r)
    &&& forall|i: int| 0 <= i < ns.len() ==> plain_node(#[trigger] ns[i])
    &&& forall|i: int| 0 <= i < ns.len() && i != x ==> (#[trigger] ns[i]).parent is Some
}

proof fn lemma_child_good(ns: Seq<NodeView>, r: Seq<nat>, parent: int, n: NodeView, x: int)
    requires
        good(ns, r, x),
        0 <= parent < ns.len() < usize::MAX,
        ns[parent].is_dir,
        n.parent == Some(parent as usize),
        n.children.len() == 0,
        plain_node(n),
    ensures
        good(builder::with_child(ns, parent, n), r.push(r[parent] + 1), x),
        builder::with_child(ns, parent, n)[parent].is_dir,
{
    builder::lemma_with_child(ns, r, parent, n);
    let out = builder::with_child(ns, parent, n);
    assert forall|i: int| 0 <= i < out.len() implies plain_node(#[trigger] out[i]) && (i != x
        ==> out[i].parent is Some) by {
        if i < ns.len() {
            assert(plain_node(ns[i]));
        }
    }
}

proof fn lemma_children_good(
    ns: Seq<NodeView>,
    r: Seq<nat>,
    parent: int,
    fs: Seq<NodeView>,
    x: int,
) -> (r2: Seq<nat>)
    requires
        good(ns, r, x),
        0 <= parent < ns.len(),
        ns.len() + fs.len() <= usize::MAX,
        ns[parent].is_dir,
        forall|j: int|
            0 <= j < fs.len() ==> plain_node(#[trigger] fs[j]) && fs[j].children.len() == 0
                && fs[j].parent == Some(parent as usize),
    ensures
        good(builder::with_children(ns, parent, fs), r2, x),
        builder::with_children(ns, parent, fs)[parent].is_dir,
        builder::with_children(ns, parent, fs).len() == ns.len() + fs.len(),
        r.is_prefix_of(r2),
    decreases fs.len(),
{
    if fs.len() == 0 {
        assert(r =~= r.take(r.len() as int));
        r
    } else {
        let front = fs.drop_last();
        assert forall|j: int| 0 <= j < front.len() implies plain_node(#[trigger] front[j])
            && front[j].children.len() == 0 && front[j].parent == Some(parent as usize) by {
            assert(front[j] == fs[j]);
        }
        let r1 = lemma_children_good(ns, r, parent, front, x);
        let mid = builder::with_children(ns, parent, front);
        assert(fs[fs.len() - 1] == fs.last());
        lemma_child_good(mid, r1, parent, fs.last(), x);
        let r2 = r1.push(r1[parent] + 1);
        assert(r1 =~= r2.take(r1.len() as int));
        builder::lemma_prefix_trans(r, r1, r2);
        r2
    }
}

/// The files of a record are plain nodes below `parent`.
proof fn lemma_file_nodes_plain(parent: int, d: DirView)
    requires
        0 <= parent <= usize::MAX,
    ensures
        forall|j: int|
            0 <= j < index::file_nodes(parent as usize, d).len() ==> {
                let n = #[trigger] index::file_nodes(parent as usize, d)[j];
                plain_node(n) && n.children.len() == 0 && n.parent == Some(parent as usize)
            },
{
}

proof fn lemma_subtree_good(
    ns: Seq<NodeView>,
    r: Seq<nat>,
    parent: int,
    ds: Seq<DirView>,
    rec: int,
    x: int,
) -> (r2: Seq<nat>)
    requires
        good(ns, r, x),
        0 <= parent < ns.len(),
        ns[parent].is_dir,
        index::dir_links(ds).wf(),
        0 <= rec < ds.len(),
        builder::with_subtree(ns, parent, ds, rec).len() <= usize::MAX,
    ensures
        good(builder::with_subtree(ns, parent, ds, rec), r2, x),
        r.is_prefix_of(r2),
    decreases forest::height(index::dir_links(ds), rec), index::dir_kids(ds, rec).len() + 1,
{
    let fs = index::file_nodes(parent as usize, ds[rec]);
    let n = index::dir_kids(ds, rec).len();
    let base = builder::with_children(ns, parent, fs);
    builder::lemma_with_children(ns, parent, fs);
    lemma_subdirs_len(base, parent, ds, rec, n);
    lemma_file_nodes_plain(parent, ds[rec]);
    let r1 = lemma_children_good(ns, r, parent, fs, x);
    let r2 = lemma_subdirs_good(base, r1, parent, ds, rec, n, x);
    builder::lemma_prefix_trans(r, r1, r2);
    r2
}

proof fn lemma_subdirs_good(
    ns: Seq<NodeView>,
    r: Seq<nat>,
    parent: int,
    ds: Seq<DirView>,
    rec: int,
    k: nat,
    x: int,
) -> (r2: Seq<nat>)
    requires
        good(ns, r, x),
        0 <= parent < ns.len(),
        ns[parent].is_dir,
        index::dir_links(ds).wf(),
        0 <= rec < ds.len(),
        k <= index::dir_kids(ds, rec).len(),
        builder::with_subdirs(ns, parent, ds, rec, k).len() <= usize::MAX,
    ensures
        good(builder::with_subdirs(ns, parent, ds, rec, k), r2, x),
        r.is_prefix_of(r2),
    decreases forest::height(index::dir_links(ds), rec), k,
{
    if k == 0 {
        assert(r =~= r.take(r.len() as int));
        r
    } else {
        let g = index::dir_links(ds);
        assert(g.kids[rec] == index::dir_kids(ds, rec));
        forest::lemma_kid(g, rec, k - 1);
        let m = builder::with_subdirs(ns, parent, ds, rec, (k - 1) as nat);
        let c = index::dir_kids(ds, rec)[k - 1] as int;
        let n = builder::cached_dir(ds[c], parent);
        let m1 = builder::with_child(m, parent, n);
        lemma_subdirs_len(ns, parent, ds, rec, (k - 1) as nat);
        lemma_subtree_len(m1, m.len() as int, ds, c);
        let r1 = lemma_subdirs_good(ns, r, parent, ds, rec, (k - 1) as nat, x);
        builder_laws::lemma_subdirs_extends(ns, parent, ds, rec, (k - 1) as nat);
        lemma_child_good(m, r1, parent, n, x);
        let r2 = r1.push(r1[parent] + 1);
        assert(r1 =~= r2.take(r1.len() as int));
        let r3 = lemma_subtree_good(m1, r2, m.len() as int, ds, c, x);
        builder::lemma_prefix_trans(r, r1, r2);
        builder::lemma_prefix_trans(r, r2, r3);
        r3
    }
}

proof fn lemma_subtree_len(ns: Seq<NodeView>, parent: int, ds: Seq<DirView>, rec: int)
    requires
        0 <= parent < ns.len(),
        index::dir_links(ds).wf(),
        0 <= rec < ds.len(),
    ensures
        ns.len() <= builder::with_subtree(ns, parent, ds, rec).len(),
    decreases forest::height(index::dir_links(ds), rec), index::dir_kids(ds, rec).len() + 1,
{
    let fs = index::file_nodes(parent as usize, ds[rec]);
    builder::lemma_with_children(ns, parent, fs);
    lemma_subdirs_len(
        builder::with_children(ns, parent, fs),
        parent,
        ds,
        rec,
        index::dir_kids(ds, rec).len(),
    );
}

proof fn lemma_subdirs_len(ns: Seq<NodeView>, parent: int, ds: Seq<DirView>, rec: int, k: nat)
    requires
        0 <= parent < ns.len(),
        index::dir_links(ds).wf(),
        0 <= rec < ds.len(),
        k <= index::dir_kids(ds, rec).len(),
    ensures
        ns.len() <= builder::with_subdirs(ns, parent, ds, rec, k).len(),
    decreases forest::height(index::dir_links(ds), rec), k,
{
    if k > 0 {
        let g = index::dir_links(ds);
        assert(g.kids[rec] == index::dir_kids(ds, rec));
        forest::lemma_kid(g, rec, k - 1);
        let m = builder::with_subdirs(ns, parent, ds, rec, (k - 1) as nat);
        let c = index::dir_kids(ds, rec)[k - 1] as int;
        lemma_subdirs_len(ns, parent, ds, rec, (k - 1) as nat);
        lemma_subtree_len(
            builder::with_child(m, parent, builder::cached_dir(ds[c], parent)),
            m.len() as int,
            ds,
            c,
        );
    }
}

/// The bytes, the unshared bytes and the files of an arena, all nodes added up.
spec fn bytes(ns: Seq<NodeView>) -> nat {
    builder_laws::sum(scan::sizes(ns))
}

spec fn unshared(ns: Seq<NodeView>) -> nat {
    builder_laws::sum(scan::privates(ns))
}

spec fn files(ns: Seq<NodeView>) -> nat {
    builder_laws::sum(scan::counts(ns))
}

/// Whether no node became another: those of `a` are those of `b`, but for their children
/// and mtimes.
spec fn same_kinds(a: Seq<NodeView>, b: Seq<NodeView>) -> bool {
    &&& a.len() <= b.len()
    &&& forall|i: int|
        0 <= i < a.len() ==> #[trigger] b[i] == (NodeView {
            children: b[i].children,
            mtime_ns: b[i].mtime_ns,
            ..a[i]
        })
}

proof fn lemma_mtime_good(b: BuilderView, r: Seq<nat>, i: int, t: i64, x: int)
    requires
        good(b.nodes, r, x),
        0 <= i < b.nodes.len(),
    ensures
        good(b.with_mtime(i, t).nodes, r, x),
        bytes(b.with_mtime(i, t).nodes) == bytes(b.nodes),
        unshared(b.with_mtime(i, t).nodes) == unshared(b.nodes),
        files(b.with_mtime(i, t).nodes) == files(b.nodes),
        same_kinds(b.nodes, b.with_mtime(i, t).nodes),
{
    let n = NodeView { mtime_ns: t, ..b.nodes[i] };
    let out = b.with_mtime(i, t).nodes;
    builder::lemma_update_linked(b.nodes, r, i, n);
    assert(plain_node(b.nodes[i]));
    assert forall|j: int| 0 <= j < out.len() implies plain_node(#[trigger] out[j]) && (j != x
        ==> out[j].parent is Some) by {
        assert(plain_node(b.nodes[j]));
    }
    assert(scan::sizes(out) =~= scan::sizes(b.nodes));
    assert(scan::privates(out) =~= scan::privates(b.nodes));
    assert(scan::counts(out) =~= scan::counts(b.nodes));
}

/// What is noted of a directory, and taken over for it, adds to the arena what the
/// entry brings.
proof fn lemma_details(
    b: BuilderView,
    r: Seq<nat>,
    e: WalkView,
    prior: Option<IndexView>,
    x: int,
) -> (r2: Seq<nat>)
    requires
        good(b.nodes, r, x),
        0 <= b.place(e.path) < b.nodes.len(),
        b.nodes[b.place(e.path)].is_dir,
        e.is_dir,
        prior matches Some(v) ==> v.wf() && v.dirs.len() <= u32::MAX && (e.reused matches Some(rec)
            ==> rec < v.dirs.len()),
        b.with_info(e, prior).with_reused(e, prior).nodes.len() <= usize::MAX,
    ensures
        ({
            let out = b.with_info(e, prior).with_reused(e, prior);
            &&& good(out.nodes, r2, x)
            &&& out.places == b.places
            &&& out.root == b.root
            &&& bytes(out.nodes) == bytes(b.nodes) + entry_bytes(e, prior)
            &&& unshared(out.nodes) == unshared(b.nodes) + entry_private(e, prior)
            &&& files(out.nodes) == files(b.nodes) + entry_files(e, prior)
            &&& same_kinds(b.nodes, out.nodes)
        }),
        r.is_prefix_of(r2),
{
    let i = b.place(e.path);
    let c = b.with_info(e, prior);
    assert(r =~= r.take(r.len() as int));
    assert(c.nodes.len() <= usize::MAX && 0 <= i < c.nodes.len()) by {
        if let Some(info) = e.info {
            let m = b.with_mtime(i, info.mtime_ns);
            if let Some(v) = prior {
                let paths = index::paths_upto(v, v.dirs.len());
                if info.files_cached && paths.contains_key(path::norm(e.path)) {
                    let rec = paths[path::norm(e.path)] as int;
                    builder::lemma_with_children(
                        m.nodes,
                        i,
                        index::file_nodes(i as usize, v.dirs[rec]),
                    );
                }
            }
        }
        if let (Some(rec), Some(v)) = (e.reused, prior) {
            let m = c.with_mtime(i, v.dirs[rec as int].mtime_ns);
            lemma_subtree_len(m.nodes, i, v.dirs, rec as int);
        }
    }
    let r1 = lemma_info(b, r, e, prior, x);
    if let (Some(rec), Some(v)) = (e.reused, prior) {
        let t = v.dirs[rec as int].mtime_ns;
        lemma_mtime_good(c, r1, i, t, x);
        let m = c.with_mtime(i, t);
        let r2 = lemma_subtree_good(m.nodes, r1, i, v.dirs, rec as int, x);
        builder::lemma_prefix_trans(r, r1, r2);
        builder_laws::law_reuse_adds_what_the_index_says(m.nodes, i, v.dirs, rec as int);
        builder_laws::lemma_subtree_extends(m.nodes, i, v.dirs, rec as int);
        r2
    } else {
        r1
    }
}

proof fn lemma_info(
    b: BuilderView,
    r: Seq<nat>,
    e: WalkView,
    prior: Option<IndexView>,
    x: int,
) -> (r2: Seq<nat>)
    requires
        good(b.nodes, r, x),
        0 <= b.place(e.path) < b.nodes.len(),
        b.nodes[b.place(e.path)].is_dir,
        prior matches Some(v) ==> v.wf() && v.dirs.len() <= u32::MAX,
        b.with_info(e, prior).nodes.len() <= usize::MAX,
    ensures
        ({
            let out = b.with_info(e, prior);
            &&& good(out.nodes, r2, x)
            &&& out.places == b.places
            &&& out.root == b.root
            &&& bytes(out.nodes) == bytes(b.nodes) + own_of(
                e,
                prior,
                |ds: Seq<DirView>| builder::byte_weights(ds),
            )
            &&& unshared(out.nodes) == unshared(b.nodes) + own_of(
                e,
                prior,
                |ds: Seq<DirView>| builder::private_weights(ds),
            )
            &&& files(out.nodes) == files(b.nodes) + own_of(
                e,
                prior,
                |ds: Seq<DirView>| builder::file_weights(ds),
            )
            &&& same_kinds(b.nodes, out.nodes)
        }),
        r.is_prefix_of(r2),
{
    let i = b.place(e.path);
    assert(r =~= r.take(r.len() as int));
    match e.info {
        Some(info) => {
            let m = b.with_mtime(i, info.mtime_ns);
            lemma_mtime_good(b, r, i, info.mtime_ns, x);
            match prior {
                Some(v) => {
                    let paths = index::paths_upto(v, v.dirs.len());
                    if info.files_cached && paths.contains_key(path::norm(e.path)) {
                        let rec = paths[path::norm(e.path)] as int;
                        builder::lemma_paths_in_range(v, v.dirs.len(), path::norm(e.path));
                        let fs = index::file_nodes(i as usize, v.dirs[rec]);
                        builder::lemma_with_children(m.nodes, i, fs);
                        lemma_file_nodes_plain(i, v.dirs[rec]);
                        let r2 = lemma_children_good(m.nodes, r, i, fs, x);
                        builder_laws::lemma_record_weight(m.nodes, i, v.dirs, rec);
                        r2
                    } else {
                        r
                    }
                },
                None => r,
            }
        },
        None => r,
    }
}

/// Whether the builder `b` has a node for the `j`-th entry of a walk that says what the
/// entry does, below the node of its directory.
spec fn noted(b: BuilderView, es: Seq<WalkView>, j: int) -> bool {
    let e = es[j];
    let n = b.nodes[b.place(e.path)];
    &&& b.places.contains_key(path::norm(e.path))
    &&& n.is_dir == e.is_dir
    &&& n.name == builder::label(e.path)
    &&& j > 0 ==> {
        let q = path::parent_of(e.path)->0;
        b.places.contains_key(path::norm(q)) && n.parent == Some(b.place(q) as usize)
    }
    &&& !e.is_dir ==> n.size == e.size && n.private == e.private && n.file_count == 1
        && !n.synthetic
}

/// Whether the builder `b` has the nodes of the first `k` entries of a walk, and no
/// others where nothing is taken over.
spec fn all_noted(b: BuilderView, es: Seq<WalkView>, prior: Option<IndexView>, k: nat) -> bool {
    &&& forall|j: int| 0 <= j < k ==> #[trigger] noted(b, es, j)
    &&& prior is None ==> b.nodes.len() == k
}

/// What holds of the builder `b` after the first `k` entries of a walk.
spec fn built(
    b: BuilderView,
    r: Seq<nat>,
    root: Seq<char>,
    es: Seq<WalkView>,
    prior: Option<IndexView>,
    k: nat,
) -> bool {
    &&& b.root == root
    &&& builder::placed(b.places, b.nodes, r)
    &&& b.places.contains_key(path::norm(root))
    &&& good(b.nodes, r, b.place(root))
    &&& forall|key: Seq<char>| #[trigger]
        b.places.contains_key(key) ==> exists|j: int|
            0 <= j < k && key == path::norm((#[trigger] es[j]).path)
    &&& forall|j: int|
        0 <= j < k ==> b.places.contains_key(path::norm((#[trigger] es[j]).path)) && b.nodes[b.place(
            es[j].path,
        )].is_dir == es[j].is_dir
    &&& bytes(b.nodes) == reported_bytes(es, prior, k)
    &&& unshared(b.nodes) == reported_private(es, prior, k)
    &&& files(b.nodes) == reported_files(es, prior, k)
}

/// The node of a new entry.
spec fn new_node(e: WalkView) -> NodeView {
    if e.is_dir {
        builder::fresh_dir(builder::label(e.path))
    } else {
        NodeView {
            is_dir: false,
            size: e.size,
            private: e.private,
            file_count: 1,
            ..builder::fresh_dir(builder::label(e.path))
        }
    }
}

/// The first entry: the root.
proof fn lemma_first(
    root: Seq<char>,
    es: Seq<WalkView>,
    prior: Option<IndexView>,
) -> (r: Seq<nat>)
    requires
        from_the_top(root, es),
        prior matches Some(v) ==> v.wf() && v.dirs.len() <= u32::MAX && (es[0].reused matches Some(
            rec,
        ) ==> rec < v.dirs.len()),
        builder::addressable(root, es, prior, 1),
    ensures
        built(builder::gathered(root, es, prior, 1), r, root, es, prior, 1),
        all_noted(builder::gathered(root, es, prior, 1), es, prior, 1),
{
    let e = es[0];
    let a = builder::gathered(root, es, prior, 0);
    let b = a.with_entry(e);
    let out = builder::gathered(root, es, prior, 1);
    assert(out == a.after(e, prior));
    let n = builder::fresh_dir(builder::label(e.path));
    path::lemma_norm_same(e.path, root);
    path::lemma_norm_same(root, root);
    assert(!a.has_parent(e.path));
    assert(b.nodes =~= seq![n]);
    assert(b.place(e.path) == 0);
    let r0 = seq![path::comps(root).len()];
    let f = scan::links(b.nodes);
    assert(f.kids =~= seq![Seq::<usize>::empty()]);
    assert(f.par =~= seq![None::<usize>]);
    assert(good(b.nodes, r0, 0));
    assert(scan::sizes(b.nodes) =~= seq![0nat]);
    assert(scan::privates(b.nodes) =~= seq![0nat]);
    assert(scan::counts(b.nodes) =~= seq![0nat]);
    reveal_with_fuel(builder_laws::sum, 2);
    assert(bytes(b.nodes) == 0 && unshared(b.nodes) == 0 && files(b.nodes) == 0);
    let r = lemma_details(b, r0, e, prior, 0);
    assert(r[0] == r.take(1)[0]);
    assert forall|key: Seq<char>| #[trigger] out.places.contains_key(key) implies out.places[key]
        < out.nodes.len() && r[out.places[key] as int] == path::comps(key).len() by {
        assert(key == path::norm(e.path));
        assert(key == path::norm(es[0].path));
    }
    reveal_with_fuel(reported_bytes, 2);
    reveal_with_fuel(reported_private, 2);
    reveal_with_fuel(reported_files, 2);
    assert forall|key: Seq<char>| #[trigger] out.places.contains_key(key) implies exists|j: int|
        0 <= j < 1 && key == path::norm((#[trigger] es[j]).path) by {
        assert(key == path::norm(es[0].path));
    }
    assert(noted(out, es, 0));
    r
}

/// A new entry in a directory that has its node.
proof fn lemma_hung(a: BuilderView, r: Seq<nat>, e: WalkView, x: int) -> (r1: Seq<nat>)
    requires
        good(a.nodes, r, x),
        builder::placed(a.places, a.nodes, r),
        a.has_parent(e.path),
        !a.places.contains_key(path::norm(e.path)),
        a.places.contains_key(path::norm(path::parent_of(e.path)->0)),
        a.nodes[a.place(path::parent_of(e.path)->0)].is_dir,
        a.nodes.len() < usize::MAX,
    ensures
        ({
            let b = a.with_entry(e);
            let i = a.nodes.len() as int;
            &&& good(b.nodes, r1, x)
            &&& builder::placed(b.places, b.nodes, r1)
            &&& b.places == a.places.insert(path::norm(e.path), i as usize)
            &&& b.root == a.root
            &&& b.nodes.len() == i + 1
            &&& same_kinds(a.nodes, b.nodes)
            &&& b.nodes[i] == (NodeView {
                parent: Some(a.place(path::parent_of(e.path)->0) as usize),
                ..new_node(e)
            })
            &&& bytes(b.nodes) == bytes(a.nodes) + (if e.is_dir {
                0
            } else {
                e.size as nat
            })
            &&& unshared(b.nodes) == unshared(a.nodes) + (if e.is_dir {
                0
            } else {
                e.private as nat
            })
            &&& files(b.nodes) == files(a.nodes) + (if e.is_dir {
                0nat
            } else {
                1
            })
        }),
{
    let q = path::parent_of(e.path)->0;
    let key = path::norm(e.path);
    path::lemma_norm_same(q, e.path);
    path::lemma_norm_same(e.path, e.path);
    path::lemma_norm_same(q, q);
    builder::lemma_parent_comps(e.path);
    let j = a.place(q);
    let i = a.nodes.len() as int;
    let n = NodeView { parent: Some(j as usize), ..new_node(e) };
    let b = a.with_entry(e);
    assert(b.nodes =~= builder::with_child(a.nodes, j, n));
    lemma_child_good(a.nodes, r, j, n, x);
    builder_laws::lemma_child_weight(a.nodes, j, n);
    let r1 = r.push(r[j] + 1);
    assert(r1[i] == path::comps(e.path).len());
    assert forall|c: Seq<char>| #[trigger] b.places.contains_key(c) implies b.places[c]
        < b.nodes.len() && r1[b.places[c] as int] == path::comps(c).len() by {
        if c != key {
            assert(a.places.contains_key(c));
        }
    }
    r1
}

/// Where an entry is not the first one, its path is new and its directory is there.
proof fn lemma_new_path(
    a: BuilderView,
    r: Seq<nat>,
    root: Seq<char>,
    es: Seq<WalkView>,
    prior: Option<IndexView>,
    k: nat,
)
    requires
        from_the_top(root, es),
        0 < k < es.len(),
        built(a, r, root, es, prior, k),
    ensures
        ({
            let e = es[k as int];
            let q = path::parent_of(e.path)->0;
            &&& a.has_parent(e.path)
            &&& !a.places.contains_key(path::norm(e.path))
            &&& a.places.contains_key(path::norm(q))
            &&& a.nodes[a.place(q)].is_dir
            &&& path::norm(root) != path::norm(e.path)
            &&& forall|m: int|
                0 <= m < k ==> path::norm((#[trigger] es[m]).path) != path::norm(e.path)
        }),
{
    let e = es[k as int];
    assert(hangs(root, es, k as int));
    let q = path::parent_of(e.path)->0;
    let jj = choose|j: int|
        0 <= j < k && (#[trigger] es[j]).is_dir && path::same(q, es[j].path);
    path::lemma_norm_same(q, es[jj].path);
    assert forall|m: int| 0 <= m < k implies path::norm((#[trigger] es[m]).path) != path::norm(
        e.path,
    ) by {
        path::lemma_norm_same(es[m].path, e.path);
        assert(!path::same(es[m].path, es[k as int].path));
    }
    path::lemma_norm_same(es[0].path, root);
    path::lemma_norm_same(e.path, root);
    assert(path::norm(es[0].path) != path::norm(e.path));
    assert(a.places.contains_key(path::norm(es[jj].path)));
}

/// One more entry, in a directory that was reported before.
#[verifier::spinoff_prover]
proof fn lemma_next(
    root: Seq<char>,
    es: Seq<WalkView>,
    prior: Option<IndexView>,
    k: nat,
    r: Seq<nat>,
) -> (r2: Seq<nat>)
    requires
        from_the_top(root, es),
        0 < k < es.len(),
        prior matches Some(v) ==> v.wf() && v.dirs.len() <= u32::MAX && (es[k as int].reused matches Some(
            rec,
        ) ==> rec < v.dirs.len()),
        builder::addressable(root, es, prior, k + 1),
        built(builder::gathered(root, es, prior, k), r, root, es, prior, k),
    ensures
        built(builder::gathered(root, es, prior, k + 1), r2, root, es, prior, k + 1),
{
    let e = es[k as int];
    let a = builder::gathered(root, es, prior, k);
    let out = builder::gathered(root, es, prior, k + 1);
    assert(out == a.after(e, prior));
    let x = a.place(root);
    let key = path::norm(e.path);
    let i = a.nodes.len() as int;
    let b = a.with_entry(e);
    lemma_new_path(a, r, root, es, prior, k);
    lemma_grown_len(a, e, prior);
    let r1 = lemma_hung(a, r, e, x);
    assert(b.place(e.path) == i);
    let r2 = if e.is_dir {
        lemma_details(b, r1, e, prior, x)
    } else {
        assert(r1 =~= r1.take(r1.len() as int));
        r1
    };
    assert(out.places == b.places);
    assert forall|c: Seq<char>| #[trigger] out.places.contains_key(c) implies out.places[c]
        < out.nodes.len() && r2[out.places[c] as int] == path::comps(c).len() by {
        let y = out.places[c] as int;
        assert(r1[y] == r2.take(r1.len() as int)[y]);
    }
    assert forall|c: Seq<char>| #[trigger] out.places.contains_key(c) implies exists|m: int|
        0 <= m < k + 1 && c == path::norm((#[trigger] es[m]).path) by {
        if c == key {
            assert(c == path::norm(es[k as int].path));
        } else {
            assert(a.places.contains_key(c));
            let m = choose|m: int| 0 <= m < k && c == path::norm((#[trigger] es[m]).path);
            assert(c == path::norm(es[m].path));
        }
    }
    assert forall|m: int| 0 <= m < k + 1 implies out.places.contains_key(
        path::norm((#[trigger] es[m]).path),
    ) && out.nodes[out.place(es[m].path)].is_dir == es[m].is_dir by {
        if m < k {
            assert(a.places.contains_key(path::norm(es[m].path)));
            let y = a.place(es[m].path);
            assert(b.nodes[y].is_dir == a.nodes[y].is_dir);
        }
    }
    r2
}

/// One more entry has its node, and the nodes of the others stay.
#[verifier::spinoff_prover]
proof fn lemma_next_noted(
    root: Seq<char>,
    es: Seq<WalkView>,
    prior: Option<IndexView>,
    k: nat,
    r: Seq<nat>,
)
    requires
        from_the_top(root, es),
        0 < k < es.len(),
        prior matches Some(v) ==> v.wf() && v.dirs.len() <= u32::MAX && (es[k as int].reused matches Some(
            rec,
        ) ==> rec < v.dirs.len()),
        builder::addressable(root, es, prior, k + 1),
        built(builder::gathered(root, es, prior, k), r, root, es, prior, k),
        all_noted(builder::gathered(root, es, prior, k), es, prior, k),
    ensures
        all_noted(builder::gathered(root, es, prior, k + 1), es, prior, k + 1),
{
    let e = es[k as int];
    let a = builder::gathered(root, es, prior, k);
    let out = builder::gathered(root, es, prior, k + 1);
    assert(out == a.after(e, prior));
    let i = a.nodes.len() as int;
    let b = a.with_entry(e);
    lemma_new_path(a, r, root, es, prior, k);
    lemma_grown_len(a, e, prior);
    let x = a.place(root);
    let r1 = lemma_hung(a, r, e, x);
    assert(b.place(e.path) == i);
    assert(out.places == b.places && same_kinds(b.nodes, out.nodes)) by {
        if e.is_dir {
            let r2 = lemma_details(b, r1, e, prior, x);
        }
    }
    assert forall|m: int| 0 <= m < k + 1 implies #[trigger] noted(out, es, m) by {
        if m < k {
            lemma_stays_noted(a, b, out, es, m, path::norm(e.path), i as usize);
        } else {
            assert(out.nodes[i].name == b.nodes[i].name);
            assert(es[m] == e);
        }
    }
}

proof fn lemma_stays_noted(
    a: BuilderView,
    b: BuilderView,
    c: BuilderView,
    es: Seq<WalkView>,
    m: int,
    key: Seq<char>,
    i: usize,
)
    requires
        noted(a, es, m),
        0 <= a.place(es[m].path) < a.nodes.len(),
        same_kinds(a.nodes, b.nodes),
        same_kinds(b.nodes, c.nodes),
        c.places == b.places,
        b.places == a.places.insert(key, i),
        !a.places.contains_key(key),
    ensures
        noted(c, es, m),
{
    let y = a.place(es[m].path);
    assert(b.nodes[y].name == a.nodes[y].name);
    assert(c.nodes[y].name == b.nodes[y].name);
}

/// A new entry makes the arena larger.
proof fn lemma_grown_len(a: BuilderView, e: WalkView, prior: Option<IndexView>)
    requires
        a.has_parent(e.path),
        !a.places.contains_key(path::norm(e.path)),
        a.places.contains_key(path::norm(path::parent_of(e.path)->0)),
        a.nodes.len() <= usize::MAX,
        a.place(path::parent_of(e.path)->0) < a.nodes.len(),
        a.after(e, prior).nodes.len() <= usize::MAX,
        prior matches Some(v) ==> v.wf() && v.dirs.len() <= u32::MAX && (e.reused matches Some(rec)
            ==> rec < v.dirs.len()),
    ensures
        a.nodes.len() < usize::MAX,
{
    let b = a.with_entry(e);
    let i = a.nodes.len() as int;
    path::lemma_norm_same(path::parent_of(e.path)->0, e.path);
    builder::lemma_parent_comps(e.path);
    assert(b.place(e.path) == i);
    assert(b.nodes.len() == i + 1);
    lemma_entry_len(a, b, e, prior, i);
}

/// An arena is no larger before the details of an entry than after them.
proof fn lemma_entry_len(
    a: BuilderView,
    b: BuilderView,
    e: WalkView,
    prior: Option<IndexView>,
    i: int,
)
    requires
        b == a.with_entry(e),
        i == b.place(e.path),
        0 <= i < b.nodes.len(),
        prior matches Some(v) ==> v.wf() && v.dirs.len() <= u32::MAX && (e.reused matches Some(rec)
            ==> rec < v.dirs.len()),
    ensures
        b.nodes.len() <= a.after(e, prior).nodes.len(),
{
    if e.is_dir {
        let c = b.with_info(e, prior);
        if let Some(info) = e.info {
            let m = b.with_mtime(i, info.mtime_ns);
            if let Some(v) = prior {
                let paths = index::paths_upto(v, v.dirs.len());
                if info.files_cached && paths.contains_key(path::norm(e.path)) {
                    let rec = paths[path::norm(e.path)] as int;
                    builder::lemma_with_children(
                        m.nodes,
                        i,
                        index::file_nodes(i as usize, v.dirs[rec]),
                    );
                }
            }
        }
        if let (Some(rec), Some(v)) = (e.reused, prior) {
            let m = c.with_mtime(i, v.dirs[rec as int].mtime_ns);
            lemma_subtree_len(m.nodes, i, v.dirs, rec as int);
        }
    }
}

proof fn lemma_built(
    root: Seq<char>,
    es: Seq<WalkView>,
    prior: Option<IndexView>,
    k: nat,
) -> (r: Seq<nat>)
    requires
        from_the_top(root, es),
        0 < k <= es.len(),
        prior matches Some(v) ==> v.wf() && v.dirs.len() <= u32::MAX,
        forall|j: int| 0 <= j < es.len() ==> #[trigger] builder::acceptable(root, es, prior, j),
        builder::addressable(root, es, prior, k),
    ensures
        built(builder::gathered(root, es, prior, k), r, root, es, prior, k),
        all_noted(builder::gathered(root, es, prior, k), es, prior, k),
    decreases k,
{
    assert(builder::acceptable(root, es, prior, k - 1));
    if k == 1 {
        lemma_first(root, es, prior)
    } else {
        let r = lemma_built(root, es, prior, (k - 1) as nat);
        lemma_next_noted(root, es, prior, (k - 1) as nat, r);
        lemma_next(root, es, prior, (k - 1) as nat, r)
    }
}

/// The numbers below `n`.
spec fn upto(n: nat) -> Seq<usize> {
    Seq::new(n, |i: int| i as usize)
}

proof fn lemma_sum_upto(w: Seq<nat>, n: nat)
    requires
        n <= w.len() <= usize::MAX,
    ensures
        removal::kid_sum(w, upto(n)) == builder_laws::sum(w.take(n as int)),
    decreases n,
{
    if n > 0 {
        lemma_sum_upto(w, (n - 1) as nat);
        assert(upto(n).drop_last() =~= upto((n - 1) as nat));
        assert(w.take(n as int).drop_last() =~= w.take(n - 1));
    }
}

proof fn lemma_weight_is_sum(w: Seq<nat>, s: Seq<usize>)
    ensures
        forest::weight_of(w, s) == removal::kid_sum(w, s),
    decreases s.len(),
{
    if s.len() > 0 {
        lemma_weight_is_sum(w, s.drop_last());
    }
}

/// What weighs nothing can be left out.
proof fn lemma_sum_of_kept(w: Seq<nat>, s: Seq<usize>, keep: spec_fn(usize) -> bool)
    requires
        forall|j: int| 0 <= j < s.len() && !keep(#[trigger] s[j]) ==> w[s[j] as int] == 0,
    ensures
        removal::kid_sum(w, s) == removal::kid_sum(w, s.filter(keep)),
    decreases s.len(),
{
    reveal_with_fuel(Seq::filter, 1);
    if s.len() > 0 {
        let front = s.drop_last();
        assert forall|j: int| 0 <= j < front.len() && !keep(#[trigger] front[j]) implies w[front[j] as int]
            == 0 by {
            assert(front[j] == s[j]);
        }
        lemma_sum_of_kept(w, front, keep);
        text::lemma_filter_last(s, keep);
        assert(s[s.len() - 1] == s.last());
        let kept = front.filter(keep);
        assert(kept.push(s.last()).drop_last() =~= kept);
    } else {
        assert(s.filter(keep) =~= s);
    }
}

/// Where everything that weighs something hangs below `x`, its total is all there is.
pub proof fn lemma_total_is_all(f: Forest, w: Seq<nat>, x: int)
    requires
        f.wf(),
        0 <= x < f.len(),
        w.len() == f.len(),
        forall|i: int|
            0 <= i < f.len() && w[i] > 0 ==> #[trigger] forest::walk(f, x).contains(i as usize),
    ensures
        forest::total(f, w, x) == builder_laws::sum(w),
{
    let s = forest::walk(f, x);
    let n = f.len();
    forest::lemma_total_is_weight(f, w, x);
    forest::lemma_walk_distinct(f, x);
    lemma_weight_is_sum(w, s);
    let all = upto(n);
    let keep = |y: usize| s.contains(y);
    let kept = all.filter(keep);
    assert(all.no_duplicates());
    text::lemma_filter_distinct(all, keep);
    assert forall|y: usize| s.contains(y) <==> kept.contains(y) by {
        if s.contains(y) {
            let j = choose|j: int| 0 <= j < s.len() && s[j] == y;
            forest::lemma_walk_member(f, x, j);
            assert(all[y as int] == y);
            text::lemma_filter_keeps(all, keep, y as int);
        }
        if kept.contains(y) {
            let j = choose|j: int| 0 <= j < kept.len() && kept[j] == y;
            text::lemma_filter_members(all, keep, j);
        }
    }
    assert forall|j: int| 0 <= j < all.len() && !keep(#[trigger] all[j]) implies w[all[j] as int]
        == 0 by {
        assert(all[j] == j as usize);
        assert(!s.contains(j as usize));
    }
    lemma_sum_of_kept(w, all, keep);
    builder_laws::lemma_kid_sum_reordered(w, s, kept);
    lemma_sum_upto(w, n);
    assert(w.take(n as int) =~= w);
}

/// Whether a node is one of a scan: it has not been removed and, where it is a file,
/// it counts as one, or as those that it stands for, and has nothing in it.
pub open spec fn countable_node(n: NodeView) -> bool {
    &&& !n.removed
    &&& !n.is_dir ==> n.children.len() == 0 && n.file_count > 0 && (n.synthetic || n.file_count
        == 1)
}

/// Whether the nodes of a tree are those of a scan.
pub open spec fn countable(ns: Seq<NodeView>) -> bool {
    forall|i: int| 0 <= i < ns.len() ==> countable_node(#[trigger] ns[i])
}

/// After the first `k` entries of a walk everything hangs below the root, and weighs
/// what was reported.
proof fn lemma_totals(root: Seq<char>, es: Seq<WalkView>, prior: Option<IndexView>, k: nat) -> (r: Seq<
    nat,
>)
    requires
        from_the_top(root, es),
        0 < k <= es.len(),
        prior matches Some(v) ==> v.wf() && v.dirs.len() <= u32::MAX,
        forall|j: int| 0 <= j < es.len() ==> #[trigger] builder::acceptable(root, es, prior, j),
        builder::addressable(root, es, prior, k),
    ensures
        ({
            let b = builder::gathered(root, es, prior, k);
            let f = scan::links(b.nodes);
            let x = b.root_place();
            &&& built(b, r, root, es, prior, k)
            &&& b.rooted() == b
            &&& x == b.place(root)
            &&& f.wf()
            &&& 0 <= x < b.nodes.len()
            &&& forall|i: int|
                0 <= i < b.nodes.len() ==> #[trigger] forest::walk(f, x).contains(i as usize)
            &&& forest::total(f, scan::sizes(b.nodes), x) == reported_bytes(es, prior, k)
            &&& forest::total(f, scan::privates(b.nodes), x) == reported_private(es, prior, k)
            &&& forest::total(f, scan::counts(b.nodes), x) == reported_files(es, prior, k)
        }),
{
    let b = builder::gathered(root, es, prior, k);
    let r = lemma_built(root, es, prior, k);
    let x = b.place(root);
    let ns = b.nodes;
    let f = scan::links(ns);
    builder::lemma_linked_wf(ns, r);
    assert forall|j: int| 0 <= j < f.len() && j != x implies (#[trigger] f.par[j]) is Some by {
        assert(ns[j].parent is Some);
    }
    assert forall|i: int| 0 <= i < ns.len() implies #[trigger] forest::walk(f, x).contains(
        i as usize,
    ) by {
        forest::lemma_all_below(f, x, i);
    }
    lemma_total_is_all(f, scan::sizes(ns), x);
    lemma_total_is_all(f, scan::privates(ns), x);
    lemma_total_is_all(f, scan::counts(ns), x);
    r
}

/// Whether `t` is the finished tree of a walk.
pub open spec fn finished(
    root: Seq<char>,
    es: Seq<WalkView>,
    prior: Option<IndexView>,
    t: TreeView,
) -> bool {
    let b = builder::gathered(root, es, prior, es.len());
    b.rooted().is_tree(b.rooted().root_place(), t)
}

/// Whether `t` is the tree of what the first `k` entries of a walk report.
pub open spec fn tree_after(
    root: Seq<char>,
    es: Seq<WalkView>,
    prior: Option<IndexView>,
    k: nat,
    t: TreeView,
) -> bool {
    let b = builder::gathered(root, es, prior, k);
    b.is_tree(b.root_place(), t)
}

/// The tree after the first `k` entries of a walk has the totals of what they report.
proof fn lemma_counted(
    root: Seq<char>,
    es: Seq<WalkView>,
    prior: Option<IndexView>,
    k: nat,
    t: TreeView,
)
    requires
        from_the_top(root, es),
        0 < k <= es.len(),
        prior matches Some(v) ==> v.wf() && v.dirs.len() <= u32::MAX,
        forall|j: int| 0 <= j < es.len() ==> #[trigger] builder::acceptable(root, es, prior, j),
        builder::addressable(root, es, prior, k),
        reported_bytes(es, prior, k) <= u64::MAX,
        reported_private(es, prior, k) <= u64::MAX,
        reported_files(es, prior, k) <= u64::MAX,
        tree_after(root, es, prior, k, t),
    ensures
        t.root == builder::gathered(root, es, prior, k).place(root),
        t.root < t.nodes.len(),
        t.nodes[t.root as int].is_dir,
        t.nodes[t.root as int].size == reported_bytes(es, prior, k),
        t.nodes[t.root as int].private == reported_private(es, prior, k),
        t.nodes[t.root as int].file_count == reported_files(es, prior, k),
        removal::adds_up(t.nodes),
        countable(t.nodes),
        t.wf(),
        removal::live_hang(t),
{
    let b = builder::gathered(root, es, prior, k);
    let r = lemma_totals(root, es, prior, k);
    let x = b.place(root);
    let ns = b.nodes;
    let f = scan::links(ns);
    assert forall|i: int|
        0 <= i < ns.len() && ((#[trigger] ns[i]).is_dir || ns[i].children.len()
            > 0) implies ns[i].size == 0 && ns[i].private == 0 && ns[i].file_count == 0 by {
        assert(plain_node(ns[i]));
    }
    builder_laws::law_finished_tree_adds_up(b, x, t);
    let mid = scan::aggregated(ns, x);
    assert(forest::walk(f, x).contains(x as usize));
    assert(scan::kids_sorted(mid, mid[x], t.nodes[x]));
    path::lemma_norm_same(es[0].path, root);
    assert(b.nodes[b.place(es[0].path)].is_dir);
    assert forall|i: int| 0 <= i < t.nodes.len() implies countable_node(#[trigger] t.nodes[i]) by {
        assert(plain_node(ns[i]));
        assert(scan::kids_sorted(mid, mid[i], t.nodes[i]));
        assert(forest::walk(f, x).contains(i as usize));
        let j = choose|j: int| 0 <= j < forest::walk(f, x).len() && forest::walk(f, x)[j] == i as usize;
        forest::lemma_walk_total_bound(f, scan::counts(ns), x, j);
        if !ns[i].is_dir {
            assert(f.kids[i].len() == 0);
            assert(forest::kids_total(f, scan::counts(ns), i, 0) == 0);
            assert(forest::total(f, scan::counts(ns), i) == scan::counts(ns)[i]);
        }
    }
    let g = scan::links(t.nodes);
    builder::lemma_aggregated(ns, x);
    scan::lemma_sorted_links(mid, t.nodes);
    assert forall|j: int| 0 <= j < g.len() && j != x implies (#[trigger] g.par[j]) is Some by {
        assert(scan::kids_sorted(mid, mid[j], t.nodes[j]));
        assert(ns[j].parent is Some);
    }
    assert forall|i: int| 0 <= i < t.nodes.len() implies #[trigger] removal::below(t.nodes, i, x) by {
        forest::lemma_all_below(g, x, i);
    }
}

/// A scan counts each byte, each unshared byte and each file that its walk reports, or
/// that is taken over from the previous index, once: they are the totals of the root.
/// In the finished tree every directory has the totals of its children, and everything
/// hangs below the root.
pub proof fn law_scan_counts_what_is_reported(
    root: Seq<char>,
    es: Seq<WalkView>,
    prior: Option<IndexView>,
    t: TreeView,
)
    requires
        from_the_top(root, es),
        prior matches Some(v) ==> v.wf() && v.dirs.len() <= u32::MAX,
        builder::walkable(root, es, prior),
        builder::addressable(root, es, prior, es.len()),
        finished(root, es, prior, t),
    ensures
        t.root < t.nodes.len(),
        t.nodes[t.root as int].is_dir,
        t.nodes[t.root as int].size == reported_bytes(es, prior, es.len()),
        t.nodes[t.root as int].private == reported_private(es, prior, es.len()),
        t.nodes[t.root as int].file_count == reported_files(es, prior, es.len()),
        removal::adds_up(t.nodes),
        countable(t.nodes),
        removal::live_hang(t),
{
    let r = lemma_totals(root, es, prior, es.len());
    lemma_counted(root, es, prior, es.len(), t);
}

// ---- every entry has its node ---------------------------------------------------------------

/// Whether the last component of each path of a walk is a name, but for the root's.
pub open spec fn well_named(es: Seq<WalkView>) -> bool {
    forall|k: int| 0 < k < es.len() ==> path::name_of((#[trigger] es[k]).path) is Some
}

/// Whether the node `i` of a tree is the one of the entry `e`: it lies at the path of the
/// entry and is what the entry is, a file with just its bytes.
pub open spec fn stands_for(t: TreeView, i: int, e: WalkView) -> bool {
    let n = t.nodes[i];
    &&& path::same(scan::node_path(t, i), e.path)
    &&& n.is_dir == e.is_dir
    &&& !e.is_dir ==> n.size == e.size && n.private == e.private && n.file_count == 1
        && n.children.len() == 0
    &&& !n.removed
}

/// Whether some node of the tree is the one of the entry `e`.
pub open spec fn has_node(t: TreeView, e: WalkView) -> bool {
    exists|i: int| 0 <= i < t.nodes.len() && #[trigger] stands_for(t, i, e)
}

/// A finished node says what its node in the arena did; a file keeps its figures.
proof fn lemma_finished_node(
    root: Seq<char>,
    es: Seq<WalkView>,
    prior: Option<IndexView>,
    t: TreeView,
    i: int,
)
    requires
        from_the_top(root, es),
        prior matches Some(v) ==> v.wf() && v.dirs.len() <= u32::MAX,
        builder::walkable(root, es, prior),
        builder::addressable(root, es, prior, es.len()),
        finished(root, es, prior, t),
        0 <= i < builder::gathered(root, es, prior, es.len()).nodes.len(),
    ensures
        ({
            let a = builder::gathered(root, es, prior, es.len()).nodes[i];
            let n = t.nodes[i];
            &&& i < t.nodes.len()
            &&& n.name == a.name
            &&& n.parent == a.parent
            &&& n.is_dir == a.is_dir
            &&& !n.removed
            &&& !a.is_dir ==> n.size == a.size && n.private == a.private && n.file_count
                == a.file_count && n.children.len() == 0
        }),
{
    let b = builder::gathered(root, es, prior, es.len());
    let r = lemma_totals(root, es, prior, es.len());
    let x = b.root_place();
    let ns = b.nodes;
    let f = scan::links(ns);
    let mid = scan::aggregated(ns, x);
    assert(scan::kids_sorted(mid, mid[i], t.nodes[i]));
    assert(plain_node(ns[i]));
    assert(forest::walk(f, x).contains(i as usize));
    if !ns[i].is_dir {
        assert(f.kids[i].len() == 0);
        assert(forest::kids_total(f, scan::sizes(ns), i, 0) == 0);
        assert(forest::kids_total(f, scan::privates(ns), i, 0) == 0);
        assert(forest::kids_total(f, scan::counts(ns), i, 0) == 0);
    }
}

#[verifier::spinoff_prover]
proof fn lemma_entry_node(
    root: Seq<char>,
    es: Seq<WalkView>,
    prior: Option<IndexView>,
    t: TreeView,
    k: int,
)
    requires
        root.len() > 0,
        from_the_top(root, es),
        well_named(es),
        prior matches Some(v) ==> v.wf() && v.dirs.len() <= u32::MAX,
        builder::walkable(root, es, prior),
        builder::addressable(root, es, prior, es.len()),
        finished(root, es, prior, t),
        t.wf(),
        0 <= k < es.len(),
    ensures
        ({
            let x = builder::gathered(root, es, prior, es.len()).place(es[k].path);
            &&& 0 <= x < t.nodes.len()
            &&& stands_for(t, x, es[k])
            &&& scan::node_path(t, x).len() > 0
        }),
        path::comps(root).len() <= path::comps(es[k].path).len(),
    decreases k,
{
    let b = builder::gathered(root, es, prior, es.len());
    let e = es[k];
    let r = lemma_totals(root, es, prior, es.len());
    let r1 = lemma_built(root, es, prior, es.len());
    let x = b.place(e.path);
    assert(noted(b, es, k));
    assert(b.places.contains_key(path::norm(e.path)));
    lemma_finished_node(root, es, prior, t, x);
    path::lemma_norm_same(e.path, root);
    if k == 0 {
        path::lemma_norm_same(es[0].path, root);
        assert(x == t.root);
        assert(scan::node_path(t, x) == t.root_path);
    } else {
        assert(hangs(root, es, k));
        let q = path::parent_of(e.path)->0;
        let j = choose|j: int| 0 <= j < k && (#[trigger] es[j]).is_dir && path::same(q, es[j].path);
        lemma_entry_node(root, es, prior, t, j);
        builder::lemma_parent_comps(e.path);
        path::lemma_norm_same(q, es[j].path);
        let y = b.place(q);
        assert(y == b.place(es[j].path));
        let cs = path::comps(e.path);
        path::lemma_norm_same(e.path, e.path);
        path::lemma_norm_same(root, root);
        assert(x != t.root) by {
            assert(r[x] == path::comps(path::norm(e.path)).len());
            assert(r[t.root as int] == path::comps(path::norm(root)).len());
        }
        assert(t.nodes[x].parent == Some(y as usize));
        path::lemma_comps_valid(e.path);
        let name = t.nodes[x].name;
        assert(path::name_of(e.path) is Some);
        assert(name == cs.last());
        assert(path::plain(name)) by {
            if cs.len() > 1 {
                assert(path::plain(cs[cs.len() - 1]));
            }
        }
        path::lemma_comps_join(scan::node_path(t, y), name);
        assert(cs =~= cs.drop_last().push(cs.last()));
    }
}

/// In the tree of a scan every reported entry has a node of its own, at its own path: a
/// directory is a directory there, and a file has just the bytes that were reported.
pub proof fn law_every_entry_has_its_node(
    root: Seq<char>,
    es: Seq<WalkView>,
    prior: Option<IndexView>,
    t: TreeView,
)
    requires
        root.len() > 0,
        from_the_top(root, es),
        well_named(es),
        prior matches Some(v) ==> v.wf() && v.dirs.len() <= u32::MAX,
        builder::walkable(root, es, prior),
        builder::addressable(root, es, prior, es.len()),
        finished(root, es, prior, t),
        t.wf(),
    ensures
        forall|k: int| 0 <= k < es.len() ==> has_node(t, #[trigger] es[k]),
        stands_for(t, t.root as int, es[0]),
        t.root_path == root,
        prior is None ==> t.nodes.len() == es.len(),
{
    let b = builder::gathered(root, es, prior, es.len());
    assert forall|k: int| 0 <= k < es.len() implies has_node(t, #[trigger] es[k]) by {
        lemma_entry_node(root, es, prior, t, k);
        assert(stands_for(t, b.place(es[k].path), es[k]));
    }
    let r = lemma_built(root, es, prior, es.len());
    lemma_entry_node(root, es, prior, t, 0);
    path::lemma_norm_same(es[0].path, root);
}

// ---- while a walk runs --------------------------------------------------------------------

proof fn lemma_reported_grows(es: Seq<WalkView>, prior: Option<IndexView>, j: nat, k: nat)
    requires
        j <= k,
    ensures
        reported_bytes(es, prior, j) <= reported_bytes(es, prior, k),
        reported_private(es, prior, j) <= reported_private(es, prior, k),
        reported_files(es, prior, j) <= reported_files(es, prior, k),
    decreases k,
{
    if j < k {
        lemma_reported_grows(es, prior, j, (k - 1) as nat);
    }
}

/// What was gathered stays where it is.
proof fn lemma_keeps_gathered(
    root: Seq<char>,
    es: Seq<WalkView>,
    prior: Option<IndexView>,
    j: nat,
    k: nat,
)
    requires
        from_the_top(root, es),
        0 < j <= k <= es.len(),
        prior matches Some(v) ==> v.wf() && v.dirs.len() <= u32::MAX,
        forall|m: int| 0 <= m < es.len() ==> #[trigger] builder::acceptable(root, es, prior, m),
        builder::addressable(root, es, prior, k),
    ensures
        builder_laws::keeps(
            builder::gathered(root, es, prior, j),
            builder::gathered(root, es, prior, k),
        ),
    decreases k,
{
    let b = builder::gathered(root, es, prior, k);
    if j == k {
        assert forall|i: int| 0 <= i < b.nodes.len() implies b.nodes[i].children.is_prefix_of(
            (#[trigger] b.nodes[i]).children,
        ) by {
            let c = b.nodes[i].children;
            assert(c =~= c.take(c.len() as int));
        }
    } else {
        let m = (k - 1) as nat;
        let a = builder::gathered(root, es, prior, m);
        let e = es[m as int];
        lemma_keeps_gathered(root, es, prior, j, m);
        let r = lemma_built(root, es, prior, m);
        assert(builder::acceptable(root, es, prior, m as int));
        assert(b == a.after(e, prior));
        lemma_new_path(a, r, root, es, prior, m);
        lemma_grown_len(a, e, prior);
        assert(builder::linked(a.nodes, r) && builder::placed(a.places, a.nodes, r));
        builder_laws::law_arena_only_grows(a, e, prior);
        builder_laws::lemma_keeps_trans(builder::gathered(root, es, prior, j), a, b);
    }
}

/// A scan can be browsed while it runs: of two snapshots the later one has no smaller
/// totals, and every node of the earlier one under its index and its name. This holds
/// of any snapshot and the finished tree, which is the one after all entries.
pub proof fn law_snapshots_grow(
    root: Seq<char>,
    es: Seq<WalkView>,
    prior: Option<IndexView>,
    j: nat,
    k: nat,
    a: TreeView,
    b: TreeView,
)
    requires
        from_the_top(root, es),
        prior matches Some(v) ==> v.wf() && v.dirs.len() <= u32::MAX,
        builder::walkable(root, es, prior),
        builder::addressable(root, es, prior, es.len()),
        0 < j <= k <= es.len(),
        tree_after(root, es, prior, j, a),
        tree_after(root, es, prior, k, b),
    ensures
        a.root == b.root < a.nodes.len() <= b.nodes.len(),
        a.nodes[a.root as int].size <= b.nodes[b.root as int].size,
        a.nodes[a.root as int].private <= b.nodes[b.root as int].private,
        a.nodes[a.root as int].file_count <= b.nodes[b.root as int].file_count,
        forall|i: int|
            0 <= i < a.nodes.len() ==> (#[trigger] b.nodes[i]).name == a.nodes[i].name,
{
    let n = es.len();
    let r = lemma_totals(root, es, prior, n);
    assert(builder::addressable(root, es, prior, j));
    assert(builder::addressable(root, es, prior, k));
    lemma_reported_grows(es, prior, j, k);
    lemma_reported_grows(es, prior, k, n);
    lemma_counted(root, es, prior, j, a);
    lemma_counted(root, es, prior, k, b);
    lemma_keeps_gathered(root, es, prior, j, k);
    let (c, d) = (builder::gathered(root, es, prior, j), builder::gathered(root, es, prior, k));
    let s = lemma_built(root, es, prior, j);
    assert(c.places.contains_key(path::norm(root)));
    let (x, y) = (scan::aggregated(c.nodes, c.root_place()), scan::aggregated(d.nodes, d.root_place()));
    assert forall|i: int| 0 <= i < a.nodes.len() implies (#[trigger] b.nodes[i]).name
        == a.nodes[i].name by {
        assert(scan::kids_sorted(x, x[i], a.nodes[i]));
        assert(scan::kids_sorted(y, y[i], b.nodes[i]));
        assert(d.nodes[i].name == c.nodes[i].name);
    }
}

/// The last snapshot of a scan has the totals and the names of the finished tree.
pub proof fn law_last_snapshot_is_the_tree(
    root: Seq<char>,
    es: Seq<WalkView>,
    prior: Option<IndexView>,
    s: TreeView,
    t: TreeView,
)
    requires
        from_the_top(root, es),
        prior matches Some(v) ==> v.wf() && v.dirs.len() <= u32::MAX,
        builder::walkable(root, es, prior),
        builder::addressable(root, es, prior, es.len()),
        tree_after(root, es, prior, es.len(), s),
        finished(root, es, prior, t),
    ensures
        s.root == t.root,
        s.nodes.len() == t.nodes.len(),
        s.nodes[s.root as int].size == t.nodes[t.root as int].size,
        s.nodes[s.root as int].private == t.nodes[t.root as int].private,
        s.nodes[s.root as int].file_count == t.nodes[t.root as int].file_count,
        forall|i: int|
            0 <= i < s.nodes.len() ==> (#[trigger] t.nodes[i]).name == s.nodes[i].name,
{
    let r = lemma_totals(root, es, prior, es.len());
    law_snapshots_grow(root, es, prior, es.len(), es.len(), s, t);
    law_snapshots_grow(root, es, prior, es.len(), es.len(), t, s);
}

// ---- the index of a scan ------------------------------------------------------------------

/// The bytes at and below each record.
pub open spec fn subtree_bytes(ds: Seq<DirView>) -> Seq<nat> {
    ds.map_values(|d: DirView| d.subtree_bytes as nat)
}

/// The unshared bytes at and below each record.
pub open spec fn subtree_private(ds: Seq<DirView>) -> Seq<nat> {
    ds.map_values(|d: DirView| d.subtree_private as nat)
}

/// The files at and below each record.
pub open spec fn subtree_files(ds: Seq<DirView>) -> Seq<nat> {
    ds.map_values(|d: DirView| d.subtree_files as nat)
}

/// Whether the record `i` has the totals of its files and of the records below it.
pub open spec fn record_adds_up(ds: Seq<DirView>, i: int) -> bool {
    let below = index::dir_kids(ds, i);
    let d = ds[i];
    &&& d.subtree_bytes == builder::byte_weights(ds)[i] + removal::kid_sum(subtree_bytes(ds), below)
    &&& d.subtree_private == builder::private_weights(ds)[i] + removal::kid_sum(
        subtree_private(ds),
        below,
    )
    &&& d.subtree_files == builder::file_weights(ds)[i] + removal::kid_sum(subtree_files(ds), below)
}

/// Whether each record has the totals of its files and of the records below it.
pub open spec fn index_adds_up(ds: Seq<DirView>) -> bool {
    forall|i: int| 0 <= i < ds.len() ==> #[trigger] record_adds_up(ds, i)
}

/// The bytes of large files, added up.
spec fn large_sum(large: Seq<(Seq<char>, u64)>) -> nat
    decreases large.len(),
{
    if large.len() == 0 {
        0
    } else {
        large_sum(large.drop_last()) + large.last().1 as nat
    }
}

proof fn lemma_large_sum(d: DirView, k: nat)
    requires
        k <= d.large.len(),
    ensures
        builder::large_bytes(d, k) == large_sum(d.large.take(k as int)),
    decreases k,
{
    if k > 0 {
        lemma_large_sum(d, (k - 1) as nat);
        assert(d.large.take(k as int).drop_last() =~= d.large.take(k - 1));
    }
}

/// Numbers, added up.
spec fn sum64(ns: Seq<u64>) -> nat
    decreases ns.len(),
{
    if ns.len() == 0 {
        0
    } else {
        sum64(ns.drop_last()) + ns.last() as nat
    }
}

proof fn lemma_private_sum(d: DirView, k: nat)
    requires
        k <= d.large.len() == d.large_private.len(),
    ensures
        builder::large_private(d, k) == sum64(d.large_private.take(k as int)),
    decreases k,
{
    if k > 0 {
        lemma_private_sum(d, (k - 1) as nat);
        assert(d.large_private.take(k as int).drop_last() =~= d.large_private.take(k - 1));
    }
}

/// The entries of a directory are its small files, its large ones, and its
/// directories.
proof fn lemma_split(ns: Seq<NodeView>, kids: Seq<usize>, threshold: u64, k: nat)
    requires
        k <= kids.len(),
        forall|j: int| 0 <= j < kids.len() ==> #[trigger] kids[j] < ns.len(),
        countable(ns),
    ensures
        ({
            let head = kids.take(k as int);
            let dirs = head.filter(index::live_in(ns));
            let large = index::large_of(ns, kids, threshold, k);
            let large_private = index::large_privates(ns, kids, threshold, k);
            let small = index::small_files(ns, kids, threshold, k);
            &&& removal::kid_sum(scan::sizes(ns), head) == index::small_bytes(
                ns,
                kids,
                threshold,
                k,
            ) + large_sum(large) + removal::kid_sum(scan::sizes(ns), dirs)
            &&& removal::kid_sum(scan::privates(ns), head) == index::small_private(
                ns,
                kids,
                threshold,
                k,
            ) + sum64(large_private) + removal::kid_sum(scan::privates(ns), dirs)
            &&& removal::kid_sum(scan::counts(ns), head) == small + large.len()
                + removal::kid_sum(scan::counts(ns), dirs)
            &&& large_private.len() == large.len()
            &&& small == 0 ==> index::small_bytes(ns, kids, threshold, k) == 0
                && index::small_private(ns, kids, threshold, k) == 0
        }),
    decreases k,
{
    let head = kids.take(k as int);
    let keep = index::live_in(ns);
    reveal(Seq::filter);
    if k > 0 {
        lemma_split(ns, kids, threshold, (k - 1) as nat);
        assert(head.drop_last() =~= kids.take(k - 1));
        let n = ns[kids[k - 1] as int];
        assert(countable_node(n));
        let before = index::large_of(ns, kids, threshold, (k - 1) as nat);
        if index::is_large(n, threshold) {
            assert(before.push((n.name, n.size)).drop_last() =~= before);
            let unshared = index::large_privates(ns, kids, threshold, (k - 1) as nat);
            assert(unshared.push(n.private).drop_last() =~= unshared);
        }
        let front = kids.take(k - 1).filter(keep);
        if keep(kids[k - 1]) {
            assert(head.filter(keep) =~= front.push(kids[k - 1]));
            assert(front.push(kids[k - 1]).drop_last() =~= front);
        } else {
            assert(head.filter(keep) =~= front);
        }
    }
}

/// The records below a record stand for the directories in its directory.
proof fn lemma_kids_match(t: TreeView, v: IndexView, k: int)
    requires
        t.wf(),
        !t.nodes[t.root as int].removed,
        index::recorded(t).len() <= u32::MAX,
        v.dirs == Seq::new(
            index::recorded(t).len(),
            |i: int| index::record(t, v.threshold, i),
        ),
        0 <= k < v.dirs.len(),
    ensures
        ({
            let w = index::recorded(t);
            let kids = index::live_links(t.nodes).kids[w[k] as int];
            let below = index::dir_kids(v.dirs, k);
            &&& removal::kid_sum(subtree_bytes(v.dirs), below) == removal::kid_sum(
                scan::sizes(t.nodes),
                kids,
            )
            &&& removal::kid_sum(subtree_private(v.dirs), below) == removal::kid_sum(
                scan::privates(t.nodes),
                kids,
            )
            &&& removal::kid_sum(subtree_files(v.dirs), below) == removal::kid_sum(
                scan::counts(t.nodes),
                kids,
            )
        }),
{
    let ns = t.nodes;
    let ds = v.dirs;
    let w = index::recorded(t);
    let l = index::live_links(ns);
    let root = t.root as int;
    index::lemma_live_wf(ns);
    forest::lemma_walk_distinct(l, root);
    let x = w[k];
    forest::lemma_walk_member(l, root, k);
    let kids = l.kids[x as int];
    let below = index::dir_kids(ds, k);
    index::lemma_kids_upto(ds, k, ds.len());
    let named = below.map_values(|c: usize| w[c as int]);
    assert forall|c: int| 0 < c < ds.len() implies {
        &&& l.par[w[c] as int] is Some
        &&& ns[w[c] as int].parent == l.par[w[c] as int]
        &&& (#[trigger] ds[c]).parent == Some(w.index_of(ns[w[c] as int].parent->0) as u32)
        &&& w.contains(ns[w[c] as int].parent->0)
    } by {
        forest::lemma_walk_member(l, root, c);
        let p = l.par[w[c] as int]->0;
        assert(w.contains(p));
        let j = w.index_of(p);
        assert(0 <= j < w.len() && w[j] == p);
        assert(index::place(j) == j);
    }
    assert forall|c: int| 0 <= c < ds.len() implies ((#[trigger] ds[c]).parent == Some(k as u32)
        <==> kids.contains(w[c])) by {
        forest::lemma_walk_member(l, root, c);
        if c == 0 {
            assert(w[0] == t.root);
            if kids.contains(w[0]) {
                let j = choose|j: int| 0 <= j < kids.len() && kids[j] == w[0];
                let m = forest::lemma_walk_kid_after(l, root, k, j);
                assert(w[m] == w[0]);
            }
        } else {
            let p = ns[w[c] as int].parent->0;
            let j = w.index_of(p);
            assert(0 <= j < w.len() && w[j] == p);
            if j == k {
                assert(l.kids[p as int].contains(w[c]));
            }
            if kids.contains(w[c]) {
                let m = choose|m: int| 0 <= m < kids.len() && kids[m] == w[c];
                forest::lemma_kid(l, x as int, m);
                assert(p == x);
                assert(w[j] == w[k]);
            }
        }
    }
    assert(named.no_duplicates()) by {
        assert forall|a: int, b: int| 0 <= a < named.len() && 0 <= b < named.len() && a
            != b implies named[a] != named[b] by {
            assert(below[a] != below[b]);
            assert(w[below[a] as int] != w[below[b] as int]);
        }
    }
    assert forall|y: usize| named.contains(y) <==> kids.contains(y) by {
        if named.contains(y) {
            let a = choose|a: int| 0 <= a < named.len() && named[a] == y;
            assert(ds[below[a] as int].parent == Some(k as u32));
        }
        if kids.contains(y) {
            let j = choose|j: int| 0 <= j < kids.len() && kids[j] == y;
            let m = forest::lemma_walk_kid_after(l, root, k, j);
            assert(w[m] == y);
            assert(ds[m].parent == Some(k as u32));
            assert(below.contains(m as usize));
            let a = choose|a: int| 0 <= a < below.len() && below[a] == m as usize;
            assert(named[a] == y);
        }
    }
    assert(kids.no_duplicates());
    builder_laws::lemma_kid_sum_reordered(scan::sizes(ns), named, kids);
    builder_laws::lemma_kid_sum_reordered(scan::privates(ns), named, kids);
    builder_laws::lemma_kid_sum_reordered(scan::counts(ns), named, kids);
    lemma_sum_renamed(subtree_bytes(ds), scan::sizes(ns), below, named);
    lemma_sum_renamed(subtree_private(ds), scan::privates(ns), below, named);
    lemma_sum_renamed(subtree_files(ds), scan::counts(ns), below, named);
}

proof fn lemma_sum_renamed(a: Seq<nat>, b: Seq<nat>, s: Seq<usize>, t: Seq<usize>)
    requires
        s.len() == t.len(),
        forall|j: int| 0 <= j < s.len() ==> a[#[trigger] s[j] as int] == b[t[j] as int],
    ensures
        removal::kid_sum(a, s) == removal::kid_sum(b, t),
    decreases s.len(),
{
    if s.len() > 0 {
        assert(a[s[s.len() - 1] as int] == b[t[s.len() - 1] as int]);
        assert forall|j: int| 0 <= j < s.drop_last().len() implies a[#[trigger] s.drop_last()[j] as int]
            == b[t.drop_last()[j] as int] by {
            assert(a[s[j] as int] == b[t[j] as int]);
        }
        lemma_sum_renamed(a, b, s.drop_last(), t.drop_last());
    }
}

/// The index of a scan adds up: each record has the totals of its files and of the
/// records below it.
pub proof fn law_index_adds_up(
    t: TreeView,
    mode: Mode,
    last_event_id: u64,
    threshold: u64,
    device_id: u64,
    now: u64,
)
    requires
        t.wf(),
        removal::adds_up(t.nodes),
        countable(t.nodes),
        t.nodes[t.root as int].is_dir,
        index::recorded(t).len() <= u32::MAX,
    ensures
        ({
            let v = index::index_of_tree(t, mode, last_event_id, threshold, device_id, now);
            &&& v.wf()
            &&& index_adds_up(v.dirs)
            &&& v.dirs[v.root_ix as int].subtree_bytes == t.nodes[t.root as int].size
            &&& v.dirs[v.root_ix as int].subtree_private == t.nodes[t.root as int].private
            &&& v.dirs[v.root_ix as int].subtree_files == t.nodes[t.root as int].file_count
        }),
{
    let v = index::index_of_tree(t, mode, last_event_id, threshold, device_id, now);
    let ns = t.nodes;
    let ds = v.dirs;
    let w = index::recorded(t);
    let l = index::live_links(ns);
    let f = scan::links(ns);
    let root = t.root as int;
    assert(countable_node(ns[root]));
    roundtrip::law_index_of_tree_is_wf(t, mode, last_event_id, threshold, device_id, now);
    builder_laws::law_adding_up_fits(t, threshold);
    index::lemma_live_wf(ns);
    assert(w[0] == t.root);
    assert(ds[0] == index::record(t, threshold, 0));
    assert forall|i: int| 0 <= i < ds.len() implies #[trigger] record_adds_up(ds, i) by {
        lemma_kids_match(t, v, i);
        forest::lemma_walk_member(l, root, i);
        let x = w[i] as int;
        let n = ns[x];
        let d = ds[i];
        assert(d == index::record(t, threshold, i));
        assert(n.is_dir) by {
            if i > 0 {
                assert(l.par[x] is Some);
            }
        }
        let kids = n.children;
        assert(f.kids[x] == kids);
        assert forall|j: int| 0 <= j < kids.len() implies #[trigger] kids[j] < ns.len() by {
            assert(f.kids[x][j] < f.len());
        }
        lemma_split(ns, kids, threshold, kids.len());
        assert(kids.take(kids.len() as int) =~= kids);
        index::lemma_live_kids(ns, x);
        lemma_large_sum(d, d.large.len());
        assert(d.large.take(d.large.len() as int) =~= d.large);
        lemma_private_sum(d, d.large.len());
        assert(d.large_private.take(d.large.len() as int) =~= d.large_private);
        assert(scan::sizes(ns)[x] == removal::kid_sum(scan::sizes(ns), kids));
        assert(scan::privates(ns)[x] == removal::kid_sum(scan::privates(ns), kids));
        assert(scan::counts(ns)[x] == removal::kid_sum(scan::counts(ns), kids));
        assert(index::kids_fit(ns, ns[x].children, threshold));
    }
}

/// Where an index adds up, what is at and below a record weighs what it says.
proof fn lemma_record_total(v: IndexView, i: int)
    requires
        v.wf(),
        index_adds_up(v.dirs),
        0 <= i < v.dirs.len(),
    ensures
        forest::total(index::dir_links(v.dirs), builder::byte_weights(v.dirs), i)
            == v.dirs[i].subtree_bytes,
        forest::total(index::dir_links(v.dirs), builder::private_weights(v.dirs), i)
            == v.dirs[i].subtree_private,
        forest::total(index::dir_links(v.dirs), builder::file_weights(v.dirs), i)
            == v.dirs[i].subtree_files,
    decreases forest::height(index::dir_links(v.dirs), i),
{
    let ds = v.dirs;
    let g = index::dir_links(ds);
    let kids = g.kids[i];
    assert(kids == index::dir_kids(ds, i));
    assert forall|j: int| 0 <= j < kids.len() implies {
        let c = #[trigger] g.kids[i][j] as int;
        &&& subtree_bytes(ds)[c] == forest::total(g, builder::byte_weights(ds), c)
        &&& subtree_private(ds)[c] == forest::total(g, builder::private_weights(ds), c)
        &&& subtree_files(ds)[c] == forest::total(g, builder::file_weights(ds), c)
    } by {
        forest::lemma_kid(g, i, j);
        lemma_record_total(v, g.kids[i][j] as int);
    }
    builder_laws::lemma_kids_total_is_sum(
        g,
        builder::byte_weights(ds),
        subtree_bytes(ds),
        i,
        kids.len(),
    );
    builder_laws::lemma_kids_total_is_sum(
        g,
        builder::private_weights(ds),
        subtree_private(ds),
        i,
        kids.len(),
    );
    builder_laws::lemma_kids_total_is_sum(
        g,
        builder::file_weights(ds),
        subtree_files(ds),
        i,
        kids.len(),
    );
    assert(kids.take(kids.len() as int) =~= kids);
    assert(record_adds_up(ds, i));
}

// ---- nothing changed ----------------------------------------------------------------------

/// Whether the `k`-th entry of a walk is the directory of the record `rec`, taken over
/// from the index: whole, or its own files only.
pub open spec fn taken_over(v: IndexView, e: WalkView, rec: usize) -> bool {
    let paths = index::paths_upto(v, v.dirs.len());
    let key = path::norm(e.path);
    &&& e.is_dir
    &&& match e.reused {
        Some(r) => r == rec && !(e.info matches Some(info) && info.files_cached),
        None => (e.info matches Some(info) && info.files_cached) && paths.contains_key(key)
            && paths[key] == rec,
    }
}

/// The walk takes over each directory that did not change: one that it need not visit
/// whole, and one that still has the mtime of its record with its files.
pub proof fn law_unchanged_is_taken_over(
    v: IndexView,
    dirty: Option<Set<Seq<char>>>,
    e: WalkView,
    rec: u32,
)
    requires
        v.wf(),
        v.dirs.len() <= u32::MAX,
        e.is_dir,
        index::paths_upto(v, v.dirs.len()).contains_key(path::norm(e.path)),
        index::paths_upto(v, v.dirs.len())[path::norm(e.path)] == rec,
        v.dirs[rec as int].mtime_ns != 0,
        e.reused == walk::served(v, dirty, e.path),
        e.reused is Some ==> e.info is None,
        e.reused is None ==> (e.info matches Some(info) && info.mtime_ns
            == v.dirs[rec as int].mtime_ns && info.files_cached == walk::unchanged(
            v,
            e.path,
            info.mtime_ns,
        )),
    ensures
        taken_over(v, e, rec as usize),
{
    builder::lemma_paths_in_range(v, v.dirs.len(), path::norm(e.path));
}

/// Whether `es` is the walk of a refresh in which nothing changed since the index `v`
/// was made: `recs` are the records of its entries. The root is there, the
/// directories in one that was walked are there, and nothing else is.
pub open spec fn nothing_changed(v: IndexView, es: Seq<WalkView>, recs: Seq<usize>) -> bool {
    &&& recs.len() == es.len() > 0
    &&& recs.no_duplicates()
    &&& recs[0] == v.root_ix
    &&& forall|k: int|
        0 <= k < es.len() ==> recs[k] < v.dirs.len() && taken_over(
            v,
            #[trigger] es[k],
            recs[k],
        )
    &&& forall|k: int, c: usize|
        0 <= k < es.len() && (#[trigger] es[k]).reused is None && #[trigger] index::dir_kids(
            v.dirs,
            recs[k] as int,
        ).contains(c) ==> recs.contains(c)
    &&& forall|k: int| 0 < k < es.len() ==> #[trigger] in_walked(v, es, recs, k)
}

/// Whether the record of the `k`-th entry lies directly in one that was walked before.
pub open spec fn in_walked(v: IndexView, es: Seq<WalkView>, recs: Seq<usize>, k: int) -> bool {
    exists|j: int|
        0 <= j < k && (#[trigger] es[j]).reused is None && v.dirs[recs[k] as int].parent == Some(
            recs[j] as u32,
        )
}

/// Whether the record `i` was taken over whole.
spec fn cut(es: Seq<WalkView>, recs: Seq<usize>, i: usize) -> bool {
    exists|k: int| 0 <= k < es.len() && recs[k] == i && (#[trigger] es[k]).reused is Some
}

/// Tells the records that do not lie in one that was taken over whole.
spec fn above_cuts(ds: Seq<DirView>, es: Seq<WalkView>, recs: Seq<usize>) -> spec_fn(usize) -> bool {
    |c: usize| ds[c as int].parent matches Some(p) ==> !cut(es, recs, p as usize)
}

/// The links between the records above the cuts.
spec fn trimmed(ds: Seq<DirView>, es: Seq<WalkView>, recs: Seq<usize>) -> Forest {
    forest::pruned(index::dir_links(ds), above_cuts(ds, es, recs))
}

/// The weights, with all that was cut off counted where it was cut.
spec fn gathered_weights(ds: Seq<DirView>, es: Seq<WalkView>, recs: Seq<usize>, w: Seq<nat>) -> Seq<
    nat,
> {
    Seq::new(
        ds.len(),
        |i: int|
            if cut(es, recs, i as usize) {
                forest::total(index::dir_links(ds), w, i)
            } else {
                w[i]
            },
    )
}

proof fn lemma_trimmed_kids(v: IndexView, es: Seq<WalkView>, recs: Seq<usize>, i: int)
    requires
        v.wf(),
        v.dirs.len() <= u32::MAX,
        0 <= i < v.dirs.len(),
    ensures
        trimmed(v.dirs, es, recs).kids[i] == (if cut(es, recs, i as usize) {
            Seq::empty()
        } else {
            index::dir_kids(v.dirs, i)
        }),
{
    let ds = v.dirs;
    let g = index::dir_links(ds);
    let kids = index::dir_kids(ds, i);
    let keep = above_cuts(ds, es, recs);
    assert(g.kids[i] == kids);
    index::lemma_kids_upto(ds, i, ds.len());
    assert forall|j: int| 0 <= j < kids.len() implies keep(#[trigger] kids[j]) == !cut(
        es,
        recs,
        i as usize,
    ) by {
        assert(ds[kids[j] as int].parent == Some(i as u32));
    }
    lemma_filter_all(kids, keep, !cut(es, recs, i as usize), kids.len());
    assert(kids.take(kids.len() as int) =~= kids);
}

proof fn lemma_filter_all(s: Seq<usize>, keep: spec_fn(usize) -> bool, all: bool, k: nat)
    requires
        k <= s.len(),
        forall|j: int| 0 <= j < s.len() ==> keep(#[trigger] s[j]) == all,
    ensures
        s.take(k as int).filter(keep) == (if all {
            s.take(k as int)
        } else {
            Seq::empty()
        }),
    decreases k,
{
    reveal(Seq::filter);
    if k > 0 {
        lemma_filter_all(s, keep, all, (k - 1) as nat);
        let head = s.take(k as int);
        assert(head.drop_last() =~= s.take(k - 1));
        assert(keep(s[k - 1]) == all);
        text::lemma_filter_last(head, keep);
        assert(s.take(k - 1).push(s[k - 1]) =~= head);
    } else {
        assert(s.take(0) =~= Seq::empty());
    }
}

/// Cutting subtrees off and counting them where they were cut changes no total.
proof fn lemma_cut_total(v: IndexView, es: Seq<WalkView>, recs: Seq<usize>, w: Seq<nat>, i: int)
    requires
        v.wf(),
        v.dirs.len() <= u32::MAX,
        w.len() == v.dirs.len(),
        0 <= i < v.dirs.len(),
        trimmed(v.dirs, es, recs).wf(),
    ensures
        forest::total(
            trimmed(v.dirs, es, recs),
            gathered_weights(v.dirs, es, recs, w),
            i,
        ) == forest::total(index::dir_links(v.dirs), w, i),
    decreases forest::height(index::dir_links(v.dirs), i), index::dir_kids(v.dirs, i).len() + 1,
{
    let g = index::dir_links(v.dirs);
    assert(g.kids[i] == index::dir_kids(v.dirs, i));
    lemma_trimmed_kids(v, es, recs, i);
    if !cut(es, recs, i as usize) {
        lemma_cut_kids_total(v, es, recs, w, i, index::dir_kids(v.dirs, i).len());
    } else {
        assert(forest::kids_total(
            trimmed(v.dirs, es, recs),
            gathered_weights(v.dirs, es, recs, w),
            i,
            0,
        ) == 0);
    }
}

proof fn lemma_cut_kids_total(
    v: IndexView,
    es: Seq<WalkView>,
    recs: Seq<usize>,
    w: Seq<nat>,
    i: int,
    k: nat,
)
    requires
        v.wf(),
        v.dirs.len() <= u32::MAX,
        w.len() == v.dirs.len(),
        0 <= i < v.dirs.len(),
        trimmed(v.dirs, es, recs).wf(),
        !cut(es, recs, i as usize),
        k <= index::dir_kids(v.dirs, i).len(),
    ensures
        forest::kids_total(
            trimmed(v.dirs, es, recs),
            gathered_weights(v.dirs, es, recs, w),
            i,
            k,
        ) == forest::kids_total(index::dir_links(v.dirs), w, i, k),
    decreases forest::height(index::dir_links(v.dirs), i), k,
{
    let g = index::dir_links(v.dirs);
    assert(g.kids[i] == index::dir_kids(v.dirs, i));
    lemma_trimmed_kids(v, es, recs, i);
    if k > 0 {
        forest::lemma_kid(g, i, k - 1);
        lemma_cut_kids_total(v, es, recs, w, i, (k - 1) as nat);
        lemma_cut_total(v, es, recs, w, g.kids[i][k - 1] as int);
    }
}

/// What is reached from the root without going below a cut was reported.
proof fn lemma_reported(v: IndexView, es: Seq<WalkView>, recs: Seq<usize>, y: usize)
    requires
        v.wf(),
        v.dirs.len() <= u32::MAX,
        nothing_changed(v, es, recs),
        trimmed(v.dirs, es, recs).wf(),
        forest::walk(trimmed(v.dirs, es, recs), v.root_ix as int).contains(y),
    ensures
        recs.contains(y),
    decreases forest::rank(trimmed(v.dirs, es, recs), y as int),
{
    let f = trimmed(v.dirs, es, recs);
    let w = forest::walk(f, v.root_ix as int);
    let j = choose|j: int| 0 <= j < w.len() && w[j] == y;
    forest::lemma_walk_member(f, v.root_ix as int, j);
    forest::lemma_rank(f);
    if j == 0 {
        assert(recs[0] == y);
    } else {
        let p = f.par[y as int]->0;
        assert(f.par[y as int] == Some(p));
        lemma_reported(v, es, recs, p);
        assert(f.kids[p as int].contains(y));
        lemma_trimmed_kids(v, es, recs, p as int);
        let k = choose|k: int| 0 <= k < recs.len() && recs[k] == p;
        if es[k].reused is Some {
            assert(cut(es, recs, p));
        }
        assert(index::dir_kids(v.dirs, recs[k] as int).contains(y));
    }
}

/// What was reported is reached from the root without going below a cut.
proof fn lemma_reachable(v: IndexView, es: Seq<WalkView>, recs: Seq<usize>, k: int)
    requires
        v.wf(),
        v.dirs.len() <= u32::MAX,
        nothing_changed(v, es, recs),
        trimmed(v.dirs, es, recs).wf(),
        0 <= k < recs.len(),
    ensures
        forest::walk(trimmed(v.dirs, es, recs), v.root_ix as int).contains(recs[k]),
    decreases k,
{
    let f = trimmed(v.dirs, es, recs);
    let root = v.root_ix as int;
    let w = forest::walk(f, root);
    if k == 0 {
        assert(w[0] == recs[0]);
    } else {
        assert(in_walked(v, es, recs, k));
        let j = choose|j: int|
            0 <= j < k && (#[trigger] es[j]).reused is None && v.dirs[recs[k] as int].parent == Some(
                recs[j] as u32,
            );
        lemma_reachable(v, es, recs, j);
        assert(taken_over(v, es[j], recs[j]));
        assert(taken_over(v, es[k], recs[k]));
        let p = recs[j];
        assert(!cut(es, recs, p)) by {
            if cut(es, recs, p) {
                let m = choose|m: int| 0 <= m < es.len() && recs[m] == p && (#[trigger] es[m]).reused is Some;
                assert(recs[m] == recs[j]);
            }
        }
        lemma_trimmed_kids(v, es, recs, p as int);
        index::lemma_kids_upto(v.dirs, p as int, v.dirs.len());
        assert(v.dirs[recs[k] as int].parent == Some(p as int as u32));
        assert(f.kids[p as int].contains(recs[k]));
        let a = choose|a: int| 0 <= a < w.len() && w[a] == p;
        let b = choose|b: int| 0 <= b < f.kids[p as int].len() && f.kids[p as int][b] == recs[k];
        let m = forest::lemma_walk_kid_after(f, root, a, b);
        assert(w[m] == recs[k]);
    }
}

/// The entries bring what their records weigh.
proof fn lemma_brought(v: IndexView, es: Seq<WalkView>, recs: Seq<usize>, k: nat)
    requires
        v.wf(),
        v.dirs.len() <= u32::MAX,
        nothing_changed(v, es, recs),
        k <= es.len(),
    ensures
        reported_bytes(es, Some(v), k) == removal::kid_sum(
            gathered_weights(v.dirs, es, recs, builder::byte_weights(v.dirs)),
            recs.take(k as int),
        ),
        reported_private(es, Some(v), k) == removal::kid_sum(
            gathered_weights(v.dirs, es, recs, builder::private_weights(v.dirs)),
            recs.take(k as int),
        ),
        reported_files(es, Some(v), k) == removal::kid_sum(
            gathered_weights(v.dirs, es, recs, builder::file_weights(v.dirs)),
            recs.take(k as int),
        ),
    decreases k,
{
    if k > 0 {
        lemma_brought(v, es, recs, (k - 1) as nat);
        let head = recs.take(k as int);
        assert(head.drop_last() =~= recs.take(k - 1));
        let e = es[k - 1];
        let i = recs[k - 1];
        assert(taken_over(v, e, i));
        if e.reused is Some {
            assert(cut(es, recs, i));
        } else {
            assert(!cut(es, recs, i)) by {
                if cut(es, recs, i) {
                    let m = choose|m: int|
                        0 <= m < es.len() && recs[m] == i && (#[trigger] es[m]).reused is Some;
                    assert(recs[m] == recs[k - 1]);
                }
            }
        }
    }
}

/// What the reported records weigh, with what was cut off, is what the index has.
proof fn lemma_total_by_records(
    v: IndexView,
    es: Seq<WalkView>,
    recs: Seq<usize>,
    weights: Seq<nat>,
    w: Seq<usize>,
)
    requires
        v.wf(),
        v.dirs.len() <= u32::MAX,
        nothing_changed(v, es, recs),
        weights.len() == v.dirs.len(),
        w == forest::walk(trimmed(v.dirs, es, recs), v.root_ix as int),
        w.no_duplicates(),
        forall|y: usize| w.contains(y) <==> recs.contains(y),
    ensures
        removal::kid_sum(gathered_weights(v.dirs, es, recs, weights), recs) == forest::total(
            index::dir_links(v.dirs),
            weights,
            v.root_ix as int,
        ),
{
    let f = trimmed(v.dirs, es, recs);
    let top = v.root_ix as int;
    let g = gathered_weights(v.dirs, es, recs, weights);
    forest::lemma_pruned_wf(index::dir_links(v.dirs), above_cuts(v.dirs, es, recs));
    builder_laws::lemma_kid_sum_reordered(g, w, recs);
    forest::lemma_total_is_weight(f, g, top);
    lemma_weight_is_sum(g, w);
    lemma_cut_total(v, es, recs, weights, top);
}

/// A refresh in which nothing changed lands on the totals that the index has, whatever
/// directories it takes over whole.
pub proof fn law_refresh_keeps_totals(
    root: Seq<char>,
    v: IndexView,
    es: Seq<WalkView>,
    recs: Seq<usize>,
    t: TreeView,
)
    requires
        v.wf(),
        v.dirs.len() <= u32::MAX,
        index_adds_up(v.dirs),
        from_the_top(root, es),
        nothing_changed(v, es, recs),
        builder::walkable(root, es, Some(v)),
        builder::addressable(root, es, Some(v), es.len()),
        finished(root, es, Some(v), t),
    ensures
        t.root < t.nodes.len(),
        t.nodes[t.root as int].size == v.dirs[v.root_ix as int].subtree_bytes,
        t.nodes[t.root as int].private == v.dirs[v.root_ix as int].subtree_private,
        t.nodes[t.root as int].file_count == v.dirs[v.root_ix as int].subtree_files,
{
    let ds = v.dirs;
    let g = index::dir_links(ds);
    let f = trimmed(ds, es, recs);
    let top = v.root_ix as int;
    let n = es.len();
    law_scan_counts_what_is_reported(root, es, Some(v), t);
    forest::lemma_pruned_wf(g, above_cuts(ds, es, recs));
    lemma_brought(v, es, recs, n);
    assert(recs.take(n as int) =~= recs);
    let w = forest::walk(f, top);
    forest::lemma_walk_distinct(f, top);
    assert forall|y: usize| w.contains(y) <==> recs.contains(y) by {
        if w.contains(y) {
            lemma_reported(v, es, recs, y);
        }
        if recs.contains(y) {
            let k = choose|k: int| 0 <= k < recs.len() && recs[k] == y;
            lemma_reachable(v, es, recs, k);
        }
    }
    lemma_total_by_records(v, es, recs, builder::byte_weights(ds), w);
    lemma_total_by_records(v, es, recs, builder::private_weights(ds), w);
    lemma_total_by_records(v, es, recs, builder::file_weights(ds), w);
    lemma_record_total(v, top);
}

/// A full scan and a refresh agree: where nothing changed in between, the refresh
/// lands on the same totals.
pub proof fn law_full_scan_and_refresh_agree(
    root: Seq<char>,
    full: Seq<WalkView>,
    t: TreeView,
    mode: Mode,
    last_event_id: u64,
    threshold: u64,
    device_id: u64,
    now: u64,
    again: Seq<WalkView>,
    recs: Seq<usize>,
    u: TreeView,
)
    requires
        from_the_top(root, full),
        builder::walkable(root, full, None),
        builder::addressable(root, full, None, full.len()),
        finished(root, full, None, t),
        t.wf(),
        index::recorded(t).len() <= u32::MAX,
        from_the_top(root, again),
        ({
            let v = index::index_of_tree(t, mode, last_event_id, threshold, device_id, now);
            &&& nothing_changed(v, again, recs)
            &&& builder::walkable(root, again, Some(v))
            &&& builder::addressable(root, again, Some(v), again.len())
            &&& finished(root, again, Some(v), u)
        }),
    ensures
        u.root < u.nodes.len(),
        u.nodes[u.root as int].size == t.nodes[t.root as int].size,
        u.nodes[u.root as int].private == t.nodes[t.root as int].private,
        u.nodes[u.root as int].file_count == t.nodes[t.root as int].file_count,
{
    let v = index::index_of_tree(t, mode, last_event_id, threshold, device_id, now);
    law_scan_counts_what_is_reported(root, full, None, t);
    law_index_adds_up(t, mode, last_event_id, threshold, device_id, now);
    law_refresh_keeps_totals(root, v, again, recs, u);
}

/// The strategy for an index of the same volume that is no older than a week is an
/// incremental one.
proof fn lemma_incremental(
    root: Seq<char>,
    canon: Option<Seq<char>>,
    v: IndexView,
    device: u64,
    age: u64,
    replay: Replay,
    is_dir: Seq<bool>,
    s: Strategy,
)
    requires
        v.device_id == device,
        age <= MAX_INCREMENTAL_AGE,
        engine::planned(root, canon, Some(v), device, age, replay, is_dir, s),
    ensures
        engine::summary(s).0 != Mode::Full,
{
    assert(engine::full_reason(Some(v), device, age) is None);
}

/// A full refresh and an automatic one after it agree: where nothing changed in between
/// and no more than a week went by, the second one is incremental and lands on the
/// totals of the first. Both have an index of their own mode with the totals of their
/// tree.
pub proof fn law_full_then_automatic_refresh_agree(
    root: Seq<char>,
    canon: Option<Seq<char>>,
    device: u64,
    full: Seq<WalkView>,
    t: TreeView,
    first: Strategy,
    first_id: u64,
    a: Refreshed,
    age: u64,
    replay: Replay,
    is_dir: Seq<bool>,
    again: Seq<WalkView>,
    recs: Seq<usize>,
    u: TreeView,
    second: Strategy,
    second_id: u64,
    b: Refreshed,
)
    requires
        engine::planned(root, canon, None, device, 0, replay, is_dir, first),
        from_the_top(root, full),
        builder::walkable(root, full, None),
        builder::addressable(root, full, None, full.len()),
        finished(root, full, None, t),
        t.wf(),
        index::recorded(t).len() <= u32::MAX,
        engine::concluded(t, first, first_id, device, a),
        age <= MAX_INCREMENTAL_AGE,
        engine::planned(root, canon, Some(a.index@), device, age, replay, is_dir, second),
        from_the_top(root, again),
        nothing_changed(a.index@, again, recs),
        builder::walkable(root, again, Some(a.index@)),
        builder::addressable(root, again, Some(a.index@), again.len()),
        finished(root, again, Some(a.index@), u),
        u.wf(),
        engine::concluded(u, second, second_id, device, b),
    ensures
        a.mode == Mode::Full,
        b.mode != Mode::Full,
        b.tree@.nodes[b.tree@.root as int].size == a.tree@.nodes[a.tree@.root as int].size,
        b.tree@.nodes[b.tree@.root as int].private == a.tree@.nodes[a.tree@.root as int].private,
        b.tree@.nodes[b.tree@.root as int].file_count
            == a.tree@.nodes[a.tree@.root as int].file_count,
        engine::whole(a),
        engine::whole(b),
{
    let v = a.index@;
    lemma_incremental(root, canon, v, device, age, replay, is_dir, second);
    law_full_scan_and_refresh_agree(
        root,
        full,
        t,
        a.mode,
        first_id,
        DEFAULT_THRESHOLD,
        device,
        a.index.scanned_at,
        again,
        recs,
        u,
    );
    law_scan_counts_what_is_reported(root, full, None, t);
    law_index_adds_up(t, a.mode, first_id, DEFAULT_THRESHOLD, device, a.index.scanned_at);
    law_scan_counts_what_is_reported(root, again, Some(v), u);
    assert(countable_node(t.nodes[t.root as int]));
    assert(countable_node(u.nodes[u.root as int]));
    engine::law_refresh_is_of_one_piece(t, first, first_id, device, a);
    engine::law_refresh_is_of_one_piece(u, second, second_id, device, b);
}

} // verus!
