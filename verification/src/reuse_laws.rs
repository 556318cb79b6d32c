//! What is hung into a tree from the previous index.

use vstd::prelude::*;

use crate::builder;
use crate::builder::{BuilderView, ScanProgress, WalkView};
use crate::builder_laws;
use crate::forest;
use crate::index;
use crate::index::{DirView, IndexView};
use crate::path;
use crate::scan::NodeView;
use crate::util;

verus! {

/// Whether a child of the node `x` is a file with these values.
pub open spec fn has_file(
    ns: Seq<NodeView>,
    x: int,
    name: Seq<char>,
    size: u64,
    private: u64,
    files: u64,
    synthetic: bool,
) -> bool {
    exists|k: int|
        0 <= k < ns[x].children.len() && (#[trigger] ns[x].children[k]) < ns.len() && {
            let n = ns[ns[x].children[k] as int];
            &&& n.name == name
            &&& n.size == size
            &&& n.private == private
            &&& n.file_count == files
            &&& n.synthetic == synthetic
            &&& !n.is_dir && !n.removed
            &&& n.parent == Some(x as usize)
        }
}

/// Whether the files of the record are children of the node `x`: each large one by itself,
/// and the others as one, where there are any.
pub open spec fn has_files(ns: Seq<NodeView>, x: int, d: DirView) -> bool {
    &&& forall|j: int|
        0 <= j < d.large.len() ==> has_file(
            ns,
            x,
            (#[trigger] d.large[j]).0,
            d.large[j].1,
            if j < d.large_private.len() {
                d.large_private[j]
            } else {
                d.large[j].1
            },
            1,
            false,
        )
    &&& d.own_files > 0 ==> has_file(
        ns,
        x,
        index::small_name(d.own_files),
        d.own_bytes,
        d.own_private,
        d.own_files,
        true,
    )
}

/// Whether the node `y` is the directory of the record, a child of the node `x`.
pub open spec fn is_dir_of(ns: Seq<NodeView>, x: int, y: int, d: DirView) -> bool {
    &&& 0 <= y < ns.len()
    &&& ns[x].children.contains(y as usize)
    &&& ns[y].parent == Some(x as usize)
    &&& ns[y].is_dir && !ns[y].removed && !ns[y].synthetic
    &&& ns[y].name == d.name
    &&& ns[y].mtime_ns == d.mtime_ns
}

/// Whether the records of `some` are there as the nodes that `at` tells: each with its
/// files, and each but `top` as a directory of that of the record that it hangs in.
pub open spec fn placed(
    ns: Seq<NodeView>,
    ds: Seq<DirView>,
    some: Seq<usize>,
    top: int,
    at: spec_fn(int) -> int,
) -> bool {
    forall|c: usize| #[trigger]
        some.contains(c) ==> {
            &&& c < ds.len()
            &&& 0 <= at(c as int) < ns.len()
            &&& has_files(ns, at(c as int), ds[c as int])
            &&& c != top ==> (ds[c as int].parent matches Some(p) && 0 <= at(p as int) < ns.len()
                && is_dir_of(ns, at(p as int), at(c as int), ds[c as int]))
        }
}

/// Whether `b` is the arena `a` with more nodes, and more children of the old ones.
pub open spec fn grows(a: Seq<NodeView>, b: Seq<NodeView>) -> bool {
    &&& a.len() <= b.len()
    &&& forall|i: int| 0 <= i < a.len() ==> builder::grown(a[i], #[trigger] b[i])
}

proof fn lemma_grows(a: Seq<NodeView>, b: Seq<NodeView>, parent: int)
    requires
        0 <= parent < a.len(),
        builder::extends(a, b, parent),
    ensures
        grows(a, b),
{
    assert forall|i: int| 0 <= i < a.len() implies builder::grown(a[i], #[trigger] b[i]) by {
        if i != parent {
            assert(b[i] == a[i]);
            assert(a[i].children.take(a[i].children.len() as int) =~= a[i].children);
        }
    }
}

proof fn lemma_file_stays(
    a: Seq<NodeView>,
    b: Seq<NodeView>,
    x: int,
    name: Seq<char>,
    size: u64,
    private: u64,
    files: u64,
    synthetic: bool,
)
    requires
        grows(a, b),
        0 <= x < a.len(),
        has_file(a, x, name, size, private, files, synthetic),
    ensures
        has_file(b, x, name, size, private, files, synthetic),
{
    let k = choose|k: int|
        0 <= k < a[x].children.len() && (#[trigger] a[x].children[k]) < a.len() && {
            let n = a[a[x].children[k] as int];
            &&& n.name == name
            &&& n.size == size
            &&& n.private == private
            &&& n.file_count == files
            &&& n.synthetic == synthetic
            &&& !n.is_dir && !n.removed
            &&& n.parent == Some(x as usize)
        };
    assert(builder::grown(a[x], b[x]));
    assert(b[x].children[k] == a[x].children[k]);
    let c = a[x].children[k] as int;
    assert(builder::grown(a[c], b[c]));
}

proof fn lemma_files_stay(a: Seq<NodeView>, b: Seq<NodeView>, x: int, d: DirView)
    requires
        grows(a, b),
        0 <= x < a.len(),
        has_files(a, x, d),
    ensures
        has_files(b, x, d),
{
    assert forall|j: int| 0 <= j < d.large.len() implies has_file(
        b,
        x,
        (#[trigger] d.large[j]).0,
        d.large[j].1,
        if j < d.large_private.len() {
            d.large_private[j]
        } else {
            d.large[j].1
        },
        1,
        false,
    ) by {
        lemma_file_stays(
            a,
            b,
            x,
            d.large[j].0,
            d.large[j].1,
            if j < d.large_private.len() {
                d.large_private[j]
            } else {
                d.large[j].1
            },
            1,
            false,
        );
    }
    if d.own_files > 0 {
        lemma_file_stays(
            a,
            b,
            x,
            index::small_name(d.own_files),
            d.own_bytes,
            d.own_private,
            d.own_files,
            true,
        );
    }
}

proof fn lemma_placed_stays(
    a: Seq<NodeView>,
    b: Seq<NodeView>,
    ds: Seq<DirView>,
    some: Seq<usize>,
    top: int,
    at: spec_fn(int) -> int,
)
    requires
        grows(a, b),
        placed(a, ds, some, top, at),
    ensures
        placed(b, ds, some, top, at),
{
    assert forall|c: usize| #[trigger] some.contains(c) implies {
        &&& c < ds.len()
        &&& 0 <= at(c as int) < b.len()
        &&& has_files(b, at(c as int), ds[c as int])
        &&& c != top ==> (ds[c as int].parent matches Some(p) && 0 <= at(p as int) < b.len()
            && is_dir_of(b, at(p as int), at(c as int), ds[c as int]))
    } by {
        lemma_files_stay(a, b, at(c as int), ds[c as int]);
        if c != top {
            let p = ds[c as int].parent->0;
            lemma_dir_stays(a, b, at(p as int), at(c as int), ds[c as int]);
        }
    }
}

proof fn lemma_dir_stays(a: Seq<NodeView>, b: Seq<NodeView>, x: int, y: int, d: DirView)
    requires
        grows(a, b),
        0 <= x < a.len(),
        is_dir_of(a, x, y, d),
    ensures
        is_dir_of(b, x, y, d),
{
    assert(builder::grown(a[x], b[x]));
    assert(builder::grown(a[y], b[y]));
    let k = choose|k: int| 0 <= k < a[x].children.len() && a[x].children[k] == y as usize;
    assert(b[x].children[k] == a[x].children[k]);
}

/// The files that are added are children of their parent.
proof fn lemma_added(ns: Seq<NodeView>, parent: int, fs: Seq<NodeView>, j: int)
    requires
        0 <= parent < ns.len(),
        ns.len() + fs.len() <= usize::MAX,
        0 <= j < fs.len(),
    ensures
        ({
            let out = builder::with_children(ns, parent, fs);
            &&& out.len() == ns.len() + fs.len()
            &&& out[ns.len() + j] == fs[j]
            &&& out[parent].children.contains((ns.len() + j) as usize)
        }),
    decreases fs.len(),
{
    let front = fs.drop_last();
    let before = builder::with_children(ns, parent, front);
    let out = builder::with_children(ns, parent, fs);
    builder::lemma_with_children(ns, parent, front);
    let kids = before[parent].children;
    assert(out[parent].children == kids.push(before.len() as usize));
    if j < front.len() {
        lemma_added(ns, parent, front, j);
        let k = choose|k: int| 0 <= k < kids.len() && kids[k] == (ns.len() + j) as usize;
        assert(out[parent].children[k] == kids[k]);
        assert(out[ns.len() + j] == before[ns.len() + j]);
        assert(fs[j] == front[j]);
    } else {
        assert(out[parent].children[kids.len() as int] == before.len() as usize);
    }
}

proof fn lemma_files_added(ns: Seq<NodeView>, parent: int, d: DirView)
    requires
        0 <= parent < ns.len(),
        builder::with_children(ns, parent, index::file_nodes(parent as usize, d)).len()
            <= usize::MAX,
    ensures
        has_files(
            builder::with_children(ns, parent, index::file_nodes(parent as usize, d)),
            parent,
            d,
        ),
{
    let fs = index::file_nodes(parent as usize, d);
    let out = builder::with_children(ns, parent, fs);
    builder::lemma_with_children(ns, parent, fs);
    assert forall|j: int| 0 <= j < fs.len() implies has_file(
        out,
        parent,
        (#[trigger] fs[j]).name,
        fs[j].size,
        fs[j].private,
        fs[j].file_count,
        fs[j].synthetic,
    ) by {
        lemma_added(ns, parent, fs, j);
        let c = (ns.len() + j) as usize;
        let k = choose|k: int| 0 <= k < out[parent].children.len() && out[parent].children[k] == c;
        assert(out[parent].children[k] < out.len());
        assert(out[c as int] == fs[j]);
    }
    assert forall|j: int| 0 <= j < d.large.len() implies has_file(
        out,
        parent,
        (#[trigger] d.large[j]).0,
        d.large[j].1,
        if j < d.large_private.len() {
            d.large_private[j]
        } else {
            d.large[j].1
        },
        1,
        false,
    ) by {
        assert(fs[j].name == d.large[j].0);
    }
    if d.own_files > 0 {
        assert(fs[d.large.len() as int].name == index::small_name(d.own_files));
    }
}

/// What is hung in from the index is all that the index has at and below the record: each
/// directory under its name and with its time, in the directory that it hangs in there,
/// with its large files one by one and one stand-in for the others. What was there before
/// stays.
pub proof fn law_reuse_hangs_in_what_the_index_has(
    ns: Seq<NodeView>,
    parent: int,
    ds: Seq<DirView>,
    rec: int,
) -> (at: spec_fn(int) -> int)
    requires
        0 <= parent < ns.len(),
        index::dir_links(ds).wf(),
        0 <= rec < ds.len(),
        builder::with_subtree(ns, parent, ds, rec).len() <= usize::MAX,
    ensures
        grows(ns, builder::with_subtree(ns, parent, ds, rec)),
        at(rec) == parent,
        placed(
            builder::with_subtree(ns, parent, ds, rec),
            ds,
            forest::walk(index::dir_links(ds), rec),
            rec,
            at,
        ),
    decreases forest::height(index::dir_links(ds), rec), index::dir_kids(ds, rec).len() + 1,
{
    let g = index::dir_links(ds);
    let kids = index::dir_kids(ds, rec);
    assert(g.kids[rec] == kids);
    let fs = index::file_nodes(parent as usize, ds[rec]);
    let base = builder::with_children(ns, parent, fs);
    let out = builder::with_subtree(ns, parent, ds, rec);
    builder::lemma_with_children(ns, parent, fs);
    builder_laws::lemma_subtree_extends(ns, parent, ds, rec);
    lemma_grows(ns, out, parent);
    builder_laws::lemma_subdirs_extends(base, parent, ds, rec, kids.len());
    lemma_grows(base, out, parent);
    lemma_files_added(ns, parent, ds[rec]);
    lemma_files_stay(base, out, parent, ds[rec]);
    let at = lemma_subdirs_placed(base, parent, ds, rec, kids.len());
    let w = forest::walk(g, rec);
    let kw = forest::kids_walk(g, rec, kids.len());
    assert forall|c: usize| #[trigger] w.contains(c) && c != rec implies kw.contains(c) by {
        let j = choose|j: int| 0 <= j < w.len() && w[j] == c;
        assert(w[0] == rec as usize);
        assert(kw[j - 1] == c);
    }
    at
}

/// The same for the first `k` directories in a record.
proof fn lemma_subdirs_placed(
    ns: Seq<NodeView>,
    parent: int,
    ds: Seq<DirView>,
    rec: int,
    k: nat,
) -> (at: spec_fn(int) -> int)
    requires
        0 <= parent < ns.len(),
        index::dir_links(ds).wf(),
        0 <= rec < ds.len(),
        k <= index::dir_kids(ds, rec).len(),
        builder::with_subdirs(ns, parent, ds, rec, k).len() <= usize::MAX,
    ensures
        at(rec) == parent,
        placed(
            builder::with_subdirs(ns, parent, ds, rec, k),
            ds,
            forest::kids_walk(index::dir_links(ds), rec, k),
            rec,
            at,
        ),
        forall|c: usize| #[trigger]
            forest::kids_walk(index::dir_links(ds), rec, k).contains(c) ==> c != rec,
    decreases forest::height(index::dir_links(ds), rec), k,
{
    if k == 0 {
        |c: int| parent
    } else {
        let g = index::dir_links(ds);
        let kids = index::dir_kids(ds, rec);
        assert(g.kids[rec] == kids);
        forest::lemma_kid(g, rec, k - 1);
        let m = builder::with_subdirs(ns, parent, ds, rec, (k - 1) as nat);
        let c = kids[k - 1] as int;
        let d = builder::cached_dir(ds[c], parent);
        let m1 = builder::with_child(m, parent, d);
        let y = m.len() as int;
        let out = builder::with_subdirs(ns, parent, ds, rec, k);
        builder_laws::lemma_subdirs_extends(ns, parent, ds, rec, (k - 1) as nat);
        builder_laws::lemma_subtree_extends(m1, y, ds, c);
        lemma_grows(m1, out, y);
        assert(grows(m, m1)) by {
            assert forall|i: int| 0 <= i < m.len() implies builder::grown(m[i], #[trigger] m1[i]) by {
                assert(m1[i].children.take(m[i].children.len() as int) =~= m[i].children);
            }
        }
        let at0 = lemma_subdirs_placed(ns, parent, ds, rec, (k - 1) as nat);
        let at1 = law_reuse_hangs_in_what_the_index_has(m1, y, ds, c);
        assert(m1[parent].children[m[parent].children.len() as int] == y as usize);
        assert(is_dir_of(m1, parent, y, ds[c]));
        lemma_dir_stays(m1, out, parent, y, ds[c]);
        let w0 = forest::kids_walk(g, rec, (k - 1) as nat);
        let w1 = forest::walk(g, c);
        let w = forest::kids_walk(g, rec, k);
        lemma_placed_stays(m, m1, ds, w0, rec, at0);
        lemma_placed_stays(m1, out, ds, w0, rec, at0);
        let at = |x: int|
            if w1.contains(x as usize) {
                at1(x)
            } else {
                at0(x)
            };
        assert forall|x: usize| #[trigger] w1.contains(x) implies x != rec && x < ds.len() by {
            let j = choose|j: int| 0 <= j < w1.len() && w1[j] == x;
            forest::lemma_walk_member(g, c, j);
        }
        assert(!w1.contains(rec as usize));
        assert forall|x: usize| #[trigger] w.contains(x) implies {
            &&& x != rec
            &&& x < ds.len()
            &&& 0 <= at(x as int) < out.len()
            &&& has_files(out, at(x as int), ds[x as int])
            &&& (ds[x as int].parent matches Some(p) && 0 <= at(p as int) < out.len() && is_dir_of(
                out,
                at(p as int),
                at(x as int),
                ds[x as int],
            ))
        } by {
            let i = choose|i: int| 0 <= i < w.len() && w[i] == x;
            if w1.contains(x) {
                let j = choose|j: int| 0 <= j < w1.len() && w1[j] == x;
                forest::lemma_walk_member(g, c, j);
                if j == 0 {
                    assert(x == c);
                    assert(g.par[c] == Some(rec as usize));
                    assert(at(c) == y);
                    assert(at(rec) == parent);
                } else {
                    let p = ds[x as int].parent->0;
                    assert(g.par[x as int] == Some(p as usize));
                    assert(w1.contains(p as usize));
                    assert(x != c);
                }
            } else {
                if i < w1.len() {
                    assert(w1[i] == x);
                }
                assert(w0[i - w1.len()] == x);
                assert(w0.contains(x));
                let p = ds[x as int].parent->0;
                assert(g.par[x as int] == Some(p as usize));
                assert(g.kids[p as int].contains(x));
                if w1.contains(p as usize) {
                    let j = choose|j: int| 0 <= j < w1.len() && w1[j] == p as usize;
                    let l = choose|l: int|
                        0 <= l < g.kids[p as int].len() && g.kids[p as int][l] == x;
                    let q = forest::lemma_walk_kid_after(g, c, j, l);
                    assert(w1[q] == x);
                }
            }
        }
        at
    }
}

// ---- times and progress -----------------------------------------------------------------------

proof fn lemma_entry_place(b: BuilderView, e: WalkView)
    requires
        b.nodes.len() + 1 < usize::MAX,
        forall|key: Seq<char>| #[trigger]
            b.places.contains_key(key) ==> b.places[key] < b.nodes.len(),
    ensures
        ({
            let c = b.with_entry(e);
            &&& c.places.contains_key(path::norm(e.path))
            &&& c.place(e.path) < c.nodes.len()
        }),
{
    let b1 = b.with_path(e.path);
    let i = b1.place(e.path);
    assert(b1.places.contains_key(path::norm(e.path)) && i < b1.nodes.len());
    let b2 = b.with_entry_node(e);
    assert(b2.places == b1.places && b2.nodes.len() == b1.nodes.len());
    if b.has_parent(e.path) {
        let q = path::parent_of(e.path)->0;
        let c = b2.with_path(q);
        assert(c.place(e.path) == i);
        assert(b.with_entry(e).nodes.len() == c.nodes.len());
    }
}

/// The node of a directory has the time that the walk found, or where the directory is taken
/// over as a whole, the time that the index has.
pub proof fn law_nodes_have_the_times_of_their_directories(
    b: BuilderView,
    e: WalkView,
    prior: Option<IndexView>,
)
    requires
        e.is_dir,
        b.nodes.len() + 1 < usize::MAX,
        forall|key: Seq<char>| #[trigger]
            b.places.contains_key(key) ==> b.places[key] < b.nodes.len(),
        prior matches Some(v) ==> index::dir_links(v.dirs).wf() && (e.reused matches Some(rec)
            ==> rec < v.dirs.len()),
    ensures
        ({
            let n = b.after(e, prior).nodes[b.after(e, prior).place(e.path)];
            match (e.reused, prior) {
                (Some(rec), Some(v)) => n.mtime_ns == v.dirs[rec as int].mtime_ns,
                _ => e.info matches Some(info) ==> n.mtime_ns == info.mtime_ns,
            }
        }),
{
    lemma_entry_place(b, e);
    let c = b.with_entry(e);
    let i = c.place(e.path);
    let d = c.with_info(e, prior);
    assert(d.places == c.places && c.nodes.len() <= d.nodes.len() && (e.info matches Some(info)
        ==> d.nodes[i].mtime_ns == info.mtime_ns)) by {
        if let Some(info) = e.info {
            let m = c.with_mtime(i, info.mtime_ns);
            if let Some(v) = prior {
                let paths = index::paths_upto(v, v.dirs.len());
                builder::lemma_with_children(
                    m.nodes,
                    i,
                    index::file_nodes(i as usize, v.dirs[paths[path::norm(e.path)] as int]),
                );
            }
        }
    }
    if let (Some(rec), Some(v)) = (e.reused, prior) {
        let m = d.with_mtime(i, v.dirs[rec as int].mtime_ns);
        builder_laws::lemma_subtree_extends(m.nodes, i, v.dirs, rec as int);
    }
}

/// The figures of the nodes for the large files of a record, added up.
proof fn lemma_large_figures(parent: usize, d: DirView, k: nat)
    requires
        k <= d.large.len(),
    ensures
        util::sum(
            index::large_nodes(parent, d, k).map_values(|n: NodeView| n.size),
        ) == builder::large_bytes(d, k),
        util::sum(index::large_nodes(parent, d, k).map_values(|n: NodeView| n.file_count)) == k,
    decreases k,
{
    let size = |n: NodeView| n.size;
    let count = |n: NodeView| n.file_count;
    let nodes = index::large_nodes(parent, d, k);
    if k > 0 {
        lemma_large_figures(parent, d, (k - 1) as nat);
        let before = index::large_nodes(parent, d, (k - 1) as nat);
        assert(nodes.map_values(size).drop_last() =~= before.map_values(size));
        assert(nodes.map_values(count).drop_last() =~= before.map_values(count));
    }
}

proof fn lemma_wrapped(a: int, b: int)
    requires
        0 <= a + b <= u64::MAX,
    ensures
        builder::wrapped(a, b) == a + b,
{
    reveal(builder::wrapped);
    vstd::arithmetic::div_mod::lemma_small_mod((a + b) as nat, 0x1_0000_0000_0000_0000);
}

/// What is taken over of a directory counts as the nodes that it gives: as many files, and as
/// many bytes.
pub proof fn law_progress_counts_what_is_taken_over(p: ScanProgress, d: DirView, parent: usize)
    ensures
        ({
            let nodes = index::file_nodes(parent, d);
            let files = util::sum(nodes.map_values(|n: NodeView| n.file_count));
            let bytes = util::sum(nodes.map_values(|n: NodeView| n.size));
            let q = builder::counted_record(p, d);
            &&& p.files + files <= u64::MAX ==> q.files == p.files + files
            &&& p.bytes + bytes <= u64::MAX ==> q.bytes == p.bytes + bytes
            &&& q.done == p.done
        }),
{
    let size = |n: NodeView| n.size;
    let count = |n: NodeView| n.file_count;
    let large = index::large_nodes(parent, d, d.large.len());
    let nodes = index::file_nodes(parent, d);
    lemma_large_figures(parent, d, d.large.len());
    if d.own_files > 0 {
        assert(nodes.map_values(size).drop_last() =~= large.map_values(size));
        assert(nodes.map_values(count).drop_last() =~= large.map_values(count));
        assert(nodes.map_values(size).last() == d.own_bytes);
        assert(nodes.map_values(count).last() == d.own_files);
    }
    let files = util::sum(nodes.map_values(count));
    let bytes = util::sum(nodes.map_values(size));
    assert(files == d.large.len() + d.own_files);
    if p.files + files <= u64::MAX {
        lemma_wrapped(p.files as int, files as int);
    }
    if p.bytes + bytes <= u64::MAX {
        lemma_wrapped(p.bytes as int, bytes as int);
    }
}

/// A directory without subdirectories that is taken over as a whole counts as its files do,
/// and each file of a walk counts once, with its bytes.
pub proof fn law_progress_counts_alike(p: ScanProgress, ds: Seq<DirView>, rec: int, bytes: u64)
    requires
        index::dir_links(ds).wf(),
        0 <= rec < ds.len(),
    ensures
        index::dir_kids(ds, rec).len() == 0 ==> builder::counted_subtree(p, ds, rec)
            == builder::counted_record(p, ds[rec]),
        p.files < u64::MAX && p.bytes + bytes <= u64::MAX ==> p.counted(1, bytes) == (ScanProgress {
            files: (p.files + 1) as u64,
            bytes: (p.bytes + bytes) as u64,
            done: p.done,
        }),
{
    let g = index::dir_links(ds);
    assert(g.kids[rec] == index::dir_kids(ds, rec));
    if p.files < u64::MAX && p.bytes + bytes <= u64::MAX {
        lemma_wrapped(p.files as int, 1);
        lemma_wrapped(p.bytes as int, bytes as int);
    }
}

} // verus!
