//! What survives the way from an index to a tree and back.

use vstd::prelude::*;

use crate::forest;
use crate::index;
use crate::index::{DirView, Index, IndexView, Mode};
use crate::order;
use crate::scan;
use crate::scan::{NodeView, TreeView};
use crate::text;

verus! {

/// The record that the `j`-th of the files of the first `k` records belongs to.
proof fn lemma_owner(ds: Seq<DirView>, k: nat, j: int) -> (q: int)
    requires
        k <= ds.len() <= usize::MAX,
        0 <= j < index::files_upto(ds, k).len(),
    ensures
        0 <= q < k,
        index::files_upto(ds, q as nat).len() <= j,
        j - index::files_upto(ds, q as nat).len() < index::file_nodes(q as usize, ds[q]).len(),
        index::files_upto(ds, k)[j] == index::file_nodes(q as usize, ds[q])[j - index::files_upto(
            ds,
            q as nat,
        ).len()],
        index::files_upto(ds, k)[j].parent == Some(q as usize),
    decreases k,
{
    let before = index::files_upto(ds, (k - 1) as nat);
    if j < before.len() {
        lemma_owner(ds, (k - 1) as nat, j)
    } else {
        k - 1
    }
}

/// The node of the `m`-th file of the record `i`.
proof fn lemma_file_at(ds: Seq<DirView>, i: int, m: int)
    requires
        0 <= i < ds.len() <= usize::MAX,
        0 <= m < index::file_nodes(i as usize, ds[i]).len(),
    ensures
        ({
            let off = index::files_upto(ds, i as nat).len();
            &&& off + m < index::files_upto(ds, ds.len()).len()
            &&& index::nodes_of(ds)[ds.len() + off + m] == index::file_nodes(i as usize, ds[i])[m]
        }),
{
    let off = index::files_upto(ds, i as nat).len();
    index::lemma_files_upto_len(ds, (i + 1) as nat, ds.len());
    let upto = index::files_upto(ds, (i + 1) as nat);
    assert(upto[off + m] == index::file_nodes(i as usize, ds[i])[m]);
    assert(index::files_upto(ds, ds.len())[off + m] == upto[off + m]);
}

/// The nodes of an index hang together as its records do.
proof fn lemma_nodes_wf(v: IndexView)
    requires
        v.wf(),
        index::nodes_of(v.dirs).len() <= usize::MAX,
    ensures
        scan::links(index::nodes_of(v.dirs)).wf(),
{
    let ds = v.dirs;
    let n = ds.len();
    let ns = index::nodes_of(ds);
    let g = index::dir_links(ds);
    let f = scan::links(ns);
    let files = index::files_upto(ds, n);
    forest::lemma_rank(g);
    assert forall|x: int| n <= x < ns.len() implies {
        &&& #[trigger] f.kids[x] == Seq::<usize>::empty()
        &&& f.par[x] is Some
    } by {
        index::lemma_files_have_no_kids(ds, n, x - n);
        let q = lemma_owner(ds, n, x - n);
        assert(ns[x] == files[x - n]);
        assert(f.kids[x] =~= Seq::<usize>::empty());
    }
    assert forall|x: int| 0 <= x < n implies #[trigger] f.par[x] == g.par[x] by {
        assert(ns[x] == index::dir_node(ds, x));
    }
    assert forall|i: int, k: int| 0 <= i < f.len() && 0 <= k < f.kids[i].len() implies {
        let c = #[trigger] f.kids[i][k];
        c < f.len() && f.par[c as int] == Some(i as usize)
    } by {
        if i >= n {
            assert(f.kids[i] == Seq::<usize>::empty());
        } else {
            assert(ns[i] == index::dir_node(ds, i));
            let kids = index::dir_kids(ds, i);
            index::lemma_kids_upto(ds, i, n);
            let c = f.kids[i][k];
            if k < kids.len() {
                assert(c == kids[k]);
                assert(g.par[c as int] == Some(i as usize));
                assert(f.par[c as int] == g.par[c as int]);
            } else {
                let m = k - kids.len();
                lemma_file_at(ds, i, m);
                assert(c == (n + index::files_upto(ds, i as nat).len() + m) as usize);
                let y = n + index::files_upto(ds, i as nat).len() + m;
                assert(ns[y].parent == Some(i as usize));
            }
        }
    }
    assert forall|i: int| 0 <= i < f.len() implies (#[trigger] f.kids[i]).no_duplicates() by {
        if i >= n {
            assert(f.kids[i] == Seq::<usize>::empty());
        } else {
            assert(ns[i] == index::dir_node(ds, i));
            let kids = index::dir_kids(ds, i);
            index::lemma_kids_upto(ds, i, n);
            let s = f.kids[i];
            assert forall|a: int, b: int| 0 <= a < s.len() && 0 <= b < s.len() && a != b implies s[a]
                != s[b] by {
                if a >= kids.len() {
                    lemma_file_at(ds, i, a - kids.len());
                } else {
                    assert(s[a] == kids[a]);
                }
                if b >= kids.len() {
                    lemma_file_at(ds, i, b - kids.len());
                } else {
                    assert(s[b] == kids[b]);
                }
            }
        }
    }
    assert forall|x: int| 0 <= x < f.len() implies (#[trigger] f.par[x] matches Some(p) ==> p
        < f.len() && f.kids[p as int].contains(x as usize)) by {
        if x < n {
            assert(f.par[x] == g.par[x]);
            if let Some(p) = f.par[x] {
                assert(g.kids[p as int].contains(x as usize));
                let kids = index::dir_kids(ds, p as int);
                let k = choose|k: int| 0 <= k < kids.len() && kids[k] == x as usize;
                assert(ns[p as int] == index::dir_node(ds, p as int));
                assert(f.kids[p as int][k] == x as usize);
            }
        } else {
            let q = lemma_owner(ds, n, x - n);
            assert(ns[x] == files[x - n]);
            assert(ns[q] == index::dir_node(ds, q));
            let kids = index::dir_kids(ds, q);
            let m = x - n - index::files_upto(ds, q as nat).len();
            assert(f.kids[q][kids.len() + m] == x as usize);
        }
    }
    let r = forest::ranking(g).0;
    let top = forest::ranking(g).1;
    let r2 = Seq::new(
        f.len(),
        |x: int|
            if x < n {
                r[x]
            } else {
                r[f.par[x]->0 as int] + 1
            },
    );
    assert(forest::ranked(f, r2, top + 1)) by {
        assert forall|x: int| 0 <= x < r2.len() implies #[trigger] r2[x] <= top + 1 by {
            if x >= n {
                let q = lemma_owner(ds, n, x - n);
                assert(ns[x] == files[x - n]);
                assert(r[q] <= top);
            } else {
                assert(r[x] <= top);
            }
        }
        assert forall|x: int| 0 <= x < r2.len() implies (#[trigger] f.par[x] matches Some(p) ==> p
            < r2.len() && r2[p as int] < r2[x]) by {
            if x < n {
                assert(f.par[x] == g.par[x]);
            } else {
                let q = lemma_owner(ds, n, x - n);
                assert(ns[x] == files[x - n]);
            }
        }
    }
}

/// The tree of a well-formed index is well formed.
pub proof fn law_tree_of_index_is_wf(v: IndexView, t: TreeView)
    requires
        v.wf(),
        index::nodes_of(v.dirs).len() <= usize::MAX,
        index::is_tree_of(v, t),
    ensures
        t.wf(),
{
    lemma_nodes_wf(v);
    scan::lemma_sorted_links(index::nodes_of(v.dirs), t.nodes);
}

// ---- there and back -------------------------------------------------------------

/// Whether every record hangs below the root record.
pub open spec fn connected(v: IndexView) -> bool {
    forall|x: int|
        0 <= x < v.dirs.len() ==> (#[trigger] forest::lineage(index::dir_links(v.dirs), x))[0]
            == v.root_ix
}

/// Whether the files of each record are on the side of the threshold where they
/// belong, and no bytes are counted without files.
pub open spec fn split_by_threshold(v: IndexView) -> bool {
    forall|x: int|
        0 <= x < v.dirs.len() ==> {
            let d = #[trigger] v.dirs[x];
            &&& d.own_files == 0 ==> d.own_bytes == 0 && d.own_private == 0
            &&& forall|k: int| 0 <= k < d.large.len() ==> (#[trigger] d.large[k]).1 >= v.threshold
        }
}

/// Whether `b` holds the items of `a`, each as often, in another order.
pub open spec fn reordering<T>(a: Seq<T>, b: Seq<T>) -> bool {
    &&& a.len() == b.len()
    &&& exists|q: Seq<int>| #[trigger] picks(a, b, q)
}

/// Whether `q` tells for each item of `b` which item of `a` it is.
pub open spec fn picks<T>(a: Seq<T>, b: Seq<T>, q: Seq<int>) -> bool {
    &&& q.len() == b.len()
    &&& q.no_duplicates()
    &&& forall|j: int| 0 <= j < q.len() ==> 0 <= #[trigger] q[j] < a.len() && b[j] == a[q[j]]
}

/// Whether `e` says of its directory what `d` says, but for the place of its
/// parent and the order of its files.
pub open spec fn same_record(d: DirView, e: DirView) -> bool {
    &&& e.name == d.name
    &&& e.mtime_ns == d.mtime_ns
    &&& e.own_bytes == d.own_bytes
    &&& e.own_files == d.own_files
    &&& e.own_private == d.own_private
    &&& e.subtree_bytes == d.subtree_bytes
    &&& e.subtree_files == d.subtree_files
    &&& e.subtree_private == d.subtree_private
    &&& reordering(index::large_files(d), index::large_files(e))
}

/// Tells the large files of an arena.
spec fn large_in(ns: Seq<NodeView>, threshold: u64) -> spec_fn(usize) -> bool {
    |c: usize| index::is_large(ns[c as int], threshold)
}

spec fn named(ns: Seq<NodeView>) -> spec_fn(usize) -> (Seq<char>, u64) {
    |c: usize| (ns[c as int].name, ns[c as int].size)
}

spec fn unshared(ns: Seq<NodeView>) -> spec_fn(usize) -> u64 {
    |c: usize| ns[c as int].private
}

proof fn lemma_large_filter(ns: Seq<NodeView>, kids: Seq<usize>, threshold: u64, k: nat)
    requires
        k <= kids.len(),
    ensures
        index::large_of(ns, kids, threshold, k) == kids.take(k as int).filter(
            large_in(ns, threshold),
        ).map_values(named(ns)),
        index::large_privates(ns, kids, threshold, k) == kids.take(k as int).filter(
            large_in(ns, threshold),
        ).map_values(unshared(ns)),
    decreases k,
{
    reveal_with_fuel(Seq::filter, 1);
    let keep = large_in(ns, threshold);
    if k == 0 {
        assert(kids.take(0).filter(keep) =~= Seq::<usize>::empty());
        assert(kids.take(0).filter(keep).map_values(named(ns)) =~= Seq::<(Seq<char>, u64)>::empty());
        assert(kids.take(0).filter(keep).map_values(unshared(ns)) =~= Seq::<u64>::empty());
    } else {
        lemma_large_filter(ns, kids, threshold, (k - 1) as nat);
        let s = kids.take(k as int);
        text::lemma_filter_last(s, keep);
        assert(s.drop_last() =~= kids.take(k - 1));
        assert(s.last() == kids[k - 1]);
        let before = s.drop_last().filter(keep);
        if keep(s.last()) {
            assert(before.push(s.last()).map_values(named(ns)) =~= before.map_values(
                named(ns),
            ).push(named(ns)(s.last())));
            assert(before.push(s.last()).map_values(unshared(ns)) =~= before.map_values(
                unshared(ns),
            ).push(unshared(ns)(s.last())));
        }
    }
}

/// Where no child is small, nothing is collapsed.
proof fn lemma_small_none(ns: Seq<NodeView>, kids: Seq<usize>, threshold: u64, k: nat)
    requires
        k <= kids.len(),
        forall|j: int| 0 <= j < k ==> !index::is_small(ns[#[trigger] kids[j] as int], threshold),
    ensures
        index::small_bytes(ns, kids, threshold, k) == 0,
        index::small_private(ns, kids, threshold, k) == 0,
        index::small_files(ns, kids, threshold, k) == 0,
    decreases k,
{
    if k > 0 {
        lemma_small_none(ns, kids, threshold, (k - 1) as nat);
        assert(!index::is_small(ns[kids[k - 1] as int], threshold));
    }
}

/// Where one child is small, the collapsed totals are its own.
proof fn lemma_small_one(ns: Seq<NodeView>, kids: Seq<usize>, threshold: u64, k: nat, m: int)
    requires
        k <= kids.len(),
        0 <= m < k,
        index::is_small(ns[kids[m] as int], threshold),
        forall|j: int|
            0 <= j < k && j != m ==> !index::is_small(ns[#[trigger] kids[j] as int], threshold),
    ensures
        index::small_bytes(ns, kids, threshold, k) == ns[kids[m] as int].size,
        index::small_private(ns, kids, threshold, k) == ns[kids[m] as int].private,
        index::small_files(ns, kids, threshold, k) == ns[kids[m] as int].file_count,
    decreases k,
{
    if m == k - 1 {
        lemma_small_none(ns, kids, threshold, (k - 1) as nat);
    } else {
        lemma_small_one(ns, kids, threshold, (k - 1) as nat, m);
        assert(!index::is_small(ns[kids[k - 1] as int], threshold));
    }
}

/// The setting of the laws: an index that its tree keeps apart at the threshold.
spec fn setting(v: IndexView, t: TreeView) -> bool {
    &&& v.wf()
    &&& index::nodes_of(v.dirs).len() <= usize::MAX
    &&& index::is_tree_of(v, t)
    &&& split_by_threshold(v)
}

/// Which children a record's node has in the tree, and which nodes they are.
proof fn lemma_kid_kinds(v: IndexView, t: TreeView, x: int, c: usize)
    requires
        setting(v, t),
        0 <= x < v.dirs.len(),
        t.nodes[x].children.contains(c),
    ensures
        ({
            let ds = v.dirs;
            let d = ds[x];
            let off = ds.len() + index::files_upto(ds, x as nat).len();
            ||| c < ds.len() && t.nodes[c as int].is_dir
            ||| off <= c < off + d.large.len() && t.nodes[c as int] == index::file_node(
                x as usize,
                d.large[c - off].0,
                d.large[c - off].1,
                index::large_unshared(d, c - off),
            ) && index::is_large(t.nodes[c as int], v.threshold)
            ||| c == off + d.large.len() && d.own_files > 0 && t.nodes[c as int]
                == index::small_node(x as usize, d)
        }),
{
    let ds = v.dirs;
    let ns = index::nodes_of(ds);
    let d = ds[x];
    let off = ds.len() + index::files_upto(ds, x as nat).len();
    lemma_kids_same(v, t, x);
    let kids = index::dir_kids(ds, x);
    index::lemma_kids_upto(ds, x, ds.len());
    assert(ns[x] == index::dir_node(ds, x));
    let k = choose|k: int| 0 <= k < ns[x].children.len() && ns[x].children[k] == c;
    if k < kids.len() {
        assert(kids[k] == c);
        assert(scan::kids_sorted(ns, ns[c as int], t.nodes[c as int]));
    } else {
        let m = k - kids.len();
        lemma_file_at(ds, x, m);
        assert(c == off + m);
        assert(scan::kids_sorted(ns, ns[c as int], t.nodes[c as int]));
        index::lemma_files_have_no_kids(ds, ds.len(), c - ds.len());
        assert(t.nodes[c as int] =~= ns[c as int]);
        if m < d.large.len() {
            assert(d.large[m].1 >= v.threshold);
        }
    }
}

/// A record's node has the same children in the tree as before sorting.
proof fn lemma_kids_same(v: IndexView, t: TreeView, x: int)
    requires
        setting(v, t),
        0 <= x < v.dirs.len(),
    ensures
        forall|c: usize|
            t.nodes[x].children.contains(c) <==> index::nodes_of(
                v.dirs,
            )[x].children.contains(c),
        t.nodes[x].children.no_duplicates(),
        t.nodes[x] == (NodeView {
            children: t.nodes[x].children,
            ..index::dir_node(v.dirs, x)
        }),
{
    let ns = index::nodes_of(v.dirs);
    lemma_nodes_wf(v);
    let f = scan::links(ns);
    assert(ns[x] == index::dir_node(v.dirs, x));
    assert(scan::kids_sorted(ns, ns[x], t.nodes[x]));
    assert(f.kids[x] == ns[x].children);
    assert(f.kids[x].no_duplicates());
    scan::lemma_no_dup_len(f, x);
    order::lemma_sorted_keeps(
        ns[x].children,
        scan::kid_sizes(ns, ns[x].children),
        t.nodes[x].children,
    );
}

/// The collapsed totals of a record come back.
proof fn lemma_small_back(v: IndexView, t: TreeView, x: int)
    requires
        setting(v, t),
        0 <= x < v.dirs.len(),
    ensures
        ({
            let kids = t.nodes[x].children;
            &&& index::small_bytes(t.nodes, kids, v.threshold, kids.len()) == v.dirs[x].own_bytes
            &&& index::small_private(t.nodes, kids, v.threshold, kids.len())
                == v.dirs[x].own_private
            &&& index::small_files(t.nodes, kids, v.threshold, kids.len()) == v.dirs[x].own_files
        }),
{
    let ds = v.dirs;
    let d = ds[x];
    let kids = t.nodes[x].children;
    let off = ds.len() + index::files_upto(ds, x as nat).len();
    lemma_kids_same(v, t, x);
    assert forall|j: int|
        0 <= j < kids.len() && kids[j] != off + d.large.len() implies !index::is_small(
        t.nodes[#[trigger] kids[j] as int],
        v.threshold,
    ) by {
        assert(kids.contains(kids[j]));
        lemma_kid_kinds(v, t, x, kids[j]);
    }
    if d.own_files > 0 {
        let ns = index::nodes_of(ds);
        assert(ns[x] == index::dir_node(ds, x));
        lemma_file_at(ds, x, d.large.len() as int);
        let c = (off + d.large.len()) as usize;
        let dk = index::dir_kids(ds, x);
        assert(ns[x].children[(dk.len() + d.large.len()) as int] == c);
        assert(kids.contains(c));
        let m = choose|m: int| 0 <= m < kids.len() && kids[m] == c;
        lemma_kid_kinds(v, t, x, c);
        assert forall|j: int| 0 <= j < kids.len() && j != m implies !index::is_small(
            t.nodes[#[trigger] kids[j] as int],
            v.threshold,
        ) by {
            assert(kids[j] != kids[m]);
        }
        assert(index::is_small(t.nodes[kids[m] as int], v.threshold));
        lemma_small_one(t.nodes, kids, v.threshold, kids.len(), m);
    } else {
        assert forall|j: int| 0 <= j < kids.len() implies !index::is_small(
            t.nodes[#[trigger] kids[j] as int],
            v.threshold,
        ) by {
            assert(kids.contains(kids[j]));
            lemma_kid_kinds(v, t, x, kids[j]);
        }
        lemma_small_none(t.nodes, kids, v.threshold, kids.len());
        assert(ds[x].own_bytes == 0 && ds[x].own_private == 0);
    }
}

/// The large files of a record come back, in order of size.
proof fn lemma_large_back(v: IndexView, t: TreeView, x: int, e: DirView)
    requires
        setting(v, t),
        0 <= x < v.dirs.len(),
        ({
            let kids = t.nodes[x].children;
            &&& e.large == index::large_of(t.nodes, kids, v.threshold, kids.len())
            &&& e.large_private == index::large_privates(t.nodes, kids, v.threshold, kids.len())
        }),
    ensures
        reordering(index::large_files(v.dirs[x]), index::large_files(e)),
{
    let ds = v.dirs;
    let d = ds[x];
    let kids = t.nodes[x].children;
    let off = ds.len() + index::files_upto(ds, x as nat).len();
    let keep = large_in(t.nodes, v.threshold);
    let kept = kids.filter(keep);
    lemma_kids_same(v, t, x);
    lemma_large_filter(t.nodes, kids, v.threshold, kids.len());
    assert(kids.take(kids.len() as int) =~= kids);
    text::lemma_filter_distinct(kids, keep);
    let q = kept.map_values(|c: usize| c - off);
    let whole = index::large_files(d);
    let back = index::large_files(e);
    assert(e.large.len() == kept.len() && e.large_private.len() == kept.len());
    assert forall|j: int| 0 <= j < kept.len() implies off <= #[trigger] kept[j] < off
        + d.large.len() && back[j] == whole[kept[j] - off] by {
        text::lemma_filter_members(kids, keep, j);
        assert(kids.contains(kept[j]));
        lemma_kid_kinds(v, t, x, kept[j]);
    }
    assert(q.no_duplicates()) by {
        assert forall|a: int, b: int| 0 <= a < q.len() && 0 <= b < q.len() && a != b implies q[a]
            != q[b] by {
            assert(kept[a] != kept[b]);
        }
    }
    assert forall|j: int| 0 <= j < q.len() implies 0 <= #[trigger] q[j] < whole.len() && back[j]
        == whole[q[j]] by {
        assert(off <= kept[j] < off + d.large.len());
    }
    assert(picks(whole, back, q));
    // Every large file is kept, so the two are equally long.
    let all = vstd::set_lib::set_int_range(0, d.large.len() as int);
    vstd::set_lib::lemma_int_range(0, d.large.len() as int);
    q.unique_seq_to_set();
    assert(q.to_set() =~= all) by {
        assert forall|y: int| all.contains(y) implies q.to_set().contains(y) by {
            let ns = index::nodes_of(ds);
            assert(ns[x] == index::dir_node(ds, x));
            lemma_file_at(ds, x, y);
            let c = (off + y) as usize;
            let dk = index::dir_kids(ds, x);
            assert(ns[x].children[dk.len() + y] == c);
            assert(kids.contains(c));
            lemma_kid_kinds(v, t, x, c);
            let m = choose|m: int| 0 <= m < kids.len() && kids[m] == c;
            text::lemma_filter_keeps(kids, keep, m);
            let j = choose|j: int| 0 <= j < kept.len() && kept[j] == c;
            assert(q[j] == y);
        }
        assert forall|y: int| q.to_set().contains(y) implies all.contains(y) by {
            let j = choose|j: int| 0 <= j < q.len() && q[j] == y;
        }
    }
}

/// Every record of a connected index is recorded again.
proof fn lemma_all_recorded(v: IndexView, t: TreeView, x: int)
    requires
        setting(v, t),
        connected(v),
        0 <= x < v.dirs.len(),
    ensures
        index::recorded(t).contains(x as usize),
    decreases forest::rank(index::dir_links(v.dirs), x),
{
    let ds = v.dirs;
    let g = index::dir_links(ds);
    let l = index::live_links(t.nodes);
    law_tree_of_index_is_wf(v, t);
    index::lemma_live_wf(t.nodes);
    forest::lemma_rank(g);
    lemma_kids_same(v, t, v.root_ix as int);
    let w = index::recorded(t);
    assert(forest::lineage(g, x)[0] == v.root_ix);
    match g.par[x] {
        Some(p) => {
            let p = p as int;
            forest::lemma_lineage(g, p);
            assert(forest::lineage(g, x)[0] == forest::lineage(g, p)[0]);
            lemma_all_recorded(v, t, p);
            lemma_kids_same(v, t, x);
            assert(ds[x].parent == Some(p as u32));
            assert(t.nodes[x].parent == Some(p as usize));
            assert(l.par[x] == Some(p as usize));
            assert(l.kids[p].contains(x as usize));
            let k = choose|k: int| 0 <= k < l.kids[p].len() && l.kids[p][k] == x as usize;
            let j = choose|j: int| 0 <= j < w.len() && w[j] == p as usize;
            let m = forest::lemma_walk_kid_after(l, t.root as int, j, k);
            assert(w[m] == x as usize);
        },
        None => {
            assert(forest::lineage(g, x) == seq![x as usize]);
            assert(w[0] == x as usize);
        },
    }
}

/// Only records are recorded again.
proof fn lemma_only_records(v: IndexView, t: TreeView, j: int)
    requires
        setting(v, t),
        0 <= j < index::recorded(t).len(),
    ensures
        index::recorded(t)[j] < v.dirs.len(),
{
    let ds = v.dirs;
    let ns = index::nodes_of(ds);
    let l = index::live_links(t.nodes);
    law_tree_of_index_is_wf(v, t);
    index::lemma_live_wf(t.nodes);
    let w = index::recorded(t);
    if j > 0 {
        forest::lemma_walk_member(l, t.root as int, j);
        let x = w[j] as int;
        assert(l.par[x] is Some);
        assert(index::live_dir(t.nodes[x]));
        if x >= ds.len() {
            index::lemma_files_have_no_kids(ds, ds.len(), x - ds.len());
            assert(scan::kids_sorted(ns, ns[x], t.nodes[x]));
        }
    } else {
        assert(w[0] == t.root);
    }
}

/// An index survives the way into a tree and back: each directory keeps its
/// record, with the stand-in for its small files folded back into the collapsed
/// totals, and hangs below the same directory. The root totals are kept.
pub proof fn law_tree_index_roundtrip(
    v: IndexView,
    t: TreeView,
    mode: Mode,
    last_event_id: u64,
    device_id: u64,
    now: u64,
)
    requires
        v.wf(),
        connected(v),
        split_by_threshold(v),
        v.dirs.len() <= u32::MAX,
        index::nodes_of(v.dirs).len() <= usize::MAX,
        index::is_tree_of(v, t),
    ensures
        t.wf(),
        index::small_fit(t.nodes, v.threshold),
        ({
            let b = index::index_of_tree(t, mode, last_event_id, v.threshold, device_id, now);
            let at = index::recorded(t);
            &&& b.root == v.root
            &&& b.threshold == v.threshold
            &&& b.dirs.len() == v.dirs.len()
            &&& at.no_duplicates()
            &&& at[0] == v.root_ix
            &&& b.dirs[b.root_ix as int].subtree_bytes == v.dirs[v.root_ix as int].subtree_bytes
            &&& b.dirs[b.root_ix as int].subtree_files == v.dirs[v.root_ix as int].subtree_files
            &&& b.dirs[b.root_ix as int].subtree_private == v.dirs[v.root_ix as int].subtree_private
            &&& forall|k: int|
                0 <= k < b.dirs.len() ==> {
                    let e = #[trigger] b.dirs[k];
                    &&& at[k] < v.dirs.len()
                    &&& same_record(v.dirs[at[k] as int], e)
                    &&& match e.parent {
                        Some(p) => p < b.dirs.len() && v.dirs[at[k] as int].parent == Some(
                            at[p as int] as u32,
                        ),
                        None => k == 0,
                    }
                }
        }),
{
    let ds = v.dirs;
    let n = ds.len();
    let w = index::recorded(t);
    let l = index::live_links(t.nodes);
    let b = index::index_of_tree(t, mode, last_event_id, v.threshold, device_id, now);
    law_tree_of_index_is_wf(v, t);
    index::lemma_live_wf(t.nodes);
    lemma_kids_same(v, t, v.root_ix as int);
    forest::lemma_walk_distinct(l, t.root as int);
    assert(w[0] == t.root);
    assert forall|i: int| 0 <= i < t.nodes.len() implies index::kids_fit(
        t.nodes,
        (#[trigger] t.nodes[i]).children,
        v.threshold,
    ) by {
        if i < n {
            lemma_small_back(v, t, i);
        } else {
            let ns = index::nodes_of(ds);
            index::lemma_files_have_no_kids(ds, n, i - n);
            assert(scan::kids_sorted(ns, ns[i], t.nodes[i]));
        }
    }
    // As many records as before.
    let q = w.map_values(|c: usize| c as int);
    let all = vstd::set_lib::set_int_range(0, n as int);
    vstd::set_lib::lemma_int_range(0, n as int);
    assert(q.no_duplicates()) by {
        assert forall|a: int, c: int| 0 <= a < q.len() && 0 <= c < q.len() && a != c implies q[a]
            != q[c] by {
            assert(w[a] != w[c]);
        }
    }
    q.unique_seq_to_set();
    assert(q.to_set() =~= all) by {
        assert forall|y: int| all.contains(y) implies q.to_set().contains(y) by {
            lemma_all_recorded(v, t, y);
            let j = choose|j: int| 0 <= j < w.len() && w[j] == y as usize;
            assert(q[j] == y);
        }
        assert forall|y: int| q.to_set().contains(y) implies all.contains(y) by {
            let j = choose|j: int| 0 <= j < q.len() && q[j] == y;
            lemma_only_records(v, t, j);
        }
    }
    assert(b.dirs.len() == n);
    assert forall|k: int| 0 <= k < b.dirs.len() implies {
        let e = #[trigger] b.dirs[k];
        &&& w[k] < n
        &&& same_record(ds[w[k] as int], e)
        &&& match e.parent {
            Some(p) => p < n && ds[w[k] as int].parent == Some(w[p as int] as u32),
            None => k == 0,
        }
    } by {
        lemma_only_records(v, t, k);
        let x = w[k] as int;
        lemma_kids_same(v, t, x);
        lemma_small_back(v, t, x);
        assert(b.dirs[k] == index::record(t, v.threshold, k));
        lemma_large_back(v, t, x, b.dirs[k]);
        if k > 0 {
            forest::lemma_walk_member(l, t.root as int, k);
            let p = l.par[x]->0;
            assert(t.nodes[x].parent == Some(p));
            assert(w.contains(p));
            let j = w.index_of(p);
            assert(0 <= j < w.len() && w[j] == p);
            assert(index::place(j) == j);
            assert(ds[x].parent is Some);
            assert(ds[x].parent->0 as usize == p);
        }
    }
    assert(b.dirs[0] == index::record(t, v.threshold, 0));
}

// ---- what every index of a tree keeps -------------------------------------------

/// In the index of a tree the parent of a record has a lower place than the
/// record; only the first has none.
pub proof fn law_parents_come_first(
    t: TreeView,
    mode: Mode,
    last_event_id: u64,
    threshold: u64,
    device_id: u64,
    now: u64,
)
    requires
        t.wf(),
        index::recorded(t).len() <= u32::MAX,
    ensures
        ({
            let b = index::index_of_tree(t, mode, last_event_id, threshold, device_id, now);
            forall|k: int|
                0 <= k < b.dirs.len() ==> (match (#[trigger] b.dirs[k]).parent {
                    Some(p) => p < k,
                    None => k == 0,
                })
        }),
{
    let w = index::recorded(t);
    let l = index::live_links(t.nodes);
    let b = index::index_of_tree(t, mode, last_event_id, threshold, device_id, now);
    index::lemma_live_wf(t.nodes);
    assert forall|k: int| 0 <= k < b.dirs.len() implies (match (#[trigger] b.dirs[k]).parent {
        Some(p) => p < k,
        None => k == 0,
    }) by {
        assert(b.dirs[k] == index::record(t, threshold, k));
        if k > 0 {
            forest::lemma_walk_distinct(l, t.root as int);
            forest::lemma_walk_member(l, t.root as int, k);
            let x = w[k] as int;
            let p = l.par[x]->0;
            assert(t.nodes[x].parent == Some(p));
            let j = w.index_of(p);
            assert(0 <= j < w.len() && w[j] == p);
            assert(index::place(j) == j);
            assert(l.kids[p as int].contains(x as usize));
            let c = choose|c: int| 0 <= c < l.kids[p as int].len() && l.kids[p as int][c] == x as usize;
            let m = forest::lemma_walk_kid_after(l, t.root as int, j, c);
            assert(w[m] == w[k]);
        }
    }
}

/// An index whose parents come first hangs together as trees.
pub proof fn lemma_ordered_wf(v: IndexView)
    requires
        v.root_ix < v.dirs.len() <= usize::MAX,
        forall|k: int|
            0 <= k < v.dirs.len() ==> ((#[trigger] v.dirs[k]).parent matches Some(p) ==> p < k),
    ensures
        v.wf(),
{
    let r = Seq::new(v.dirs.len(), |k: int| k as nat);
    lemma_ranked_wf(v, r, v.dirs.len());
}

/// An index with a numbering in which parents come first hangs together as trees.
pub proof fn lemma_ranked_wf(v: IndexView, r: Seq<nat>, top: nat)
    requires
        v.root_ix < v.dirs.len() <= usize::MAX,
        index::parents_exist(v.dirs),
        forest::ranked(index::dir_links(v.dirs), r, top),
    ensures
        v.wf(),
{
    let ds = v.dirs;
    let g = index::dir_links(ds);
    assert forall|i: int, k: int| 0 <= i < g.len() && 0 <= k < g.kids[i].len() implies {
        let c = #[trigger] g.kids[i][k];
        c < g.len() && g.par[c as int] == Some(i as usize)
    } by {
        index::lemma_kids_upto(ds, i, ds.len());
        let c = index::kids_upto(ds, i, ds.len())[k];
        assert(ds[c as int].parent == Some(i as u32));
    }
    assert forall|i: int| 0 <= i < g.len() implies (#[trigger] g.kids[i]).no_duplicates() by {
        index::lemma_kids_upto(ds, i, ds.len());
        let s = index::kids_upto(ds, i, ds.len());
        assert forall|a: int, b: int| 0 <= a < s.len() && 0 <= b < s.len() && a != b implies s[a]
            != s[b] by {
            if a < b {
                assert(s[a] < s[b]);
            } else {
                assert(s[b] < s[a]);
            }
        }
    }
    assert forall|x: int| 0 <= x < g.len() implies (#[trigger] g.par[x] matches Some(p) ==> p
        < g.len() && g.kids[p as int].contains(x as usize)) by {
        if let Some(p) = ds[x].parent {
            index::lemma_kids_upto(ds, p as int, ds.len());
            assert(ds[x].parent == Some(p as int as u32));
            assert(p < ds.len());
        }
    }
    assert(forest::ranked(g, r, top));
}

/// The index of a tree whose root is still there is well formed.
pub proof fn law_index_of_tree_is_wf(
    t: TreeView,
    mode: Mode,
    last_event_id: u64,
    threshold: u64,
    device_id: u64,
    now: u64,
)
    requires
        t.wf(),
        !t.nodes[t.root as int].removed,
        index::recorded(t).len() <= u32::MAX,
    ensures
        index::index_of_tree(t, mode, last_event_id, threshold, device_id, now).wf(),
{
    let b = index::index_of_tree(t, mode, last_event_id, threshold, device_id, now);
    law_parents_come_first(t, mode, last_event_id, threshold, device_id, now);
    index::lemma_live_wf(t.nodes);
    assert(index::recorded(t)[0] == t.root);
    lemma_recorded_len(t);
    lemma_ordered_wf(b);
}

/// No more directories are recorded than the tree has nodes.
proof fn lemma_recorded_len(t: TreeView)
    requires
        t.wf(),
    ensures
        index::recorded(t).len() <= t.nodes.len(),
{
    let l = index::live_links(t.nodes);
    index::lemma_live_wf(t.nodes);
    if !t.nodes[t.root as int].removed {
        let w = index::recorded(t);
        forest::lemma_walk_distinct(l, t.root as int);
        let q = w.map_values(|c: usize| c as int);
        let all = vstd::set_lib::set_int_range(0, t.nodes.len() as int);
        vstd::set_lib::lemma_int_range(0, t.nodes.len() as int);
        assert(q.no_duplicates()) by {
            assert forall|a: int, c: int|
                0 <= a < q.len() && 0 <= c < q.len() && a != c implies q[a] != q[c] by {
                assert(w[a] != w[c]);
            }
        }
        q.unique_seq_to_set();
        assert(q.to_set().subset_of(all)) by {
            assert forall|y: int| q.to_set().contains(y) implies all.contains(y) by {
                let j = choose|j: int| 0 <= j < q.len() && q[j] == y;
                forest::lemma_walk_member(l, t.root as int, j);
            }
        }
        vstd::set_lib::lemma_len_subset(q.to_set(), all);
    }
}

// ---- checking an index ------------------------------------------------------------

/// Whether `k` steps up from the record `i` end at a record without a parent.
pub open spec fn tops_out(ds: Seq<DirView>, i: int, k: nat) -> bool
    decreases k,
{
    if k == 0 {
        ds[i].parent is None
    } else {
        ds[i].parent matches Some(p) && p < ds.len() && tops_out(ds, p as int, (k - 1) as nat)
    }
}

proof fn lemma_tops_out_once(ds: Seq<DirView>, i: int, a: nat, b: nat)
    requires
        tops_out(ds, i, a),
        tops_out(ds, i, b),
    ensures
        a == b,
    decreases a,
{
    if a > 0 && b > 0 {
        lemma_tops_out_once(ds, ds[i].parent->0 as int, (a - 1) as nat, (b - 1) as nat);
    }
}

/// Distinct numbers below `n` are at most `n`.
proof fn lemma_distinct_bound(s: Seq<int>, n: nat)
    requires
        s.no_duplicates(),
        forall|j: int| 0 <= j < s.len() ==> 0 <= #[trigger] s[j] < n,
    ensures
        s.len() <= n,
{
    s.unique_seq_to_set();
    let all = vstd::set_lib::set_int_range(0, n as int);
    vstd::set_lib::lemma_int_range(0, n as int);
    assert(s.to_set().subset_of(all)) by {
        assert forall|y: int| s.to_set().contains(y) implies all.contains(y) by {
            let j = choose|j: int| 0 <= j < s.len() && s[j] == y;
        }
    }
    vstd::set_lib::lemma_len_subset(s.to_set(), all);
}

impl Index {
    /// How many steps up from the record `i` there are, or `None` where they do
    /// not end or leave the index.
    fn steps_up(&self, i: usize) -> (r: Option<usize>)
        requires
            i < self.dirs@.len(),
        ensures
            r matches Some(k) ==> tops_out(self@.dirs, i as int, k as nat),
            r is None ==> !self@.wf(),
    {
        let ghost v = self@;
        let ghost ds = v.dirs;
        let ghost g = index::dir_links(ds);
        let n: usize = self.dirs.len();
        let mut cur: usize = i;
        let mut k: usize = 0;
        let ghost mut seen: Seq<int> = Seq::empty();
        loop
            invariant
                v == self@,
                ds == v.dirs,
                g == index::dir_links(ds),
                n == ds.len(),
                n == self.dirs@.len(),
                cur < n,
                i < n,
                k <= n,
                k == seen.len(),
                forall|m: nat|
                    #[trigger] tops_out(ds, cur as int, m) ==> tops_out(ds, i as int, m + k as nat),
                v.wf() ==> forest::ranked(g, forest::ranking(g).0, forest::ranking(g).1),
                v.wf() ==> seen.no_duplicates() && (forall|j: int|
                    0 <= j < seen.len() ==> 0 <= #[trigger] seen[j] < n && forest::rank(g, seen[j])
                        > forest::rank(g, cur as int)),
            decreases n - k,
        {
            assert(ds[cur as int] == self.dirs@[cur as int]@);
            match self.dirs[cur].parent {
                None => {
                    assert(tops_out(ds, cur as int, 0));
                    return Some(k);
                },
                Some(p) => {
                    assert(g.par[cur as int] == Some(p as usize));
                    if p as usize >= n {
                        return None;
                    }
                    let ghost seen0 = seen;
                    proof {
                        seen = seen0.push(cur as int);
                        if v.wf() {
                            assert(seen.no_duplicates()) by {
                                assert forall|a: int, b: int|
                                    0 <= a < seen.len() && 0 <= b < seen.len() && a
                                        != b implies seen[a] != seen[b] by {
                                    if a < seen0.len() && b < seen0.len() {
                                        assert(seen0[a] != seen0[b]);
                                    } else if a < seen0.len() {
                                        assert(forest::rank(g, seen0[a]) > forest::rank(
                                            g,
                                            cur as int,
                                        ));
                                    } else {
                                        assert(forest::rank(g, seen0[b]) > forest::rank(
                                            g,
                                            cur as int,
                                        ));
                                    }
                                }
                            }
                            assert forall|j: int| 0 <= j < seen.len() implies 0
                                <= #[trigger] seen[j] < n && forest::rank(g, seen[j])
                                > forest::rank(g, p as int) by {
                                if j < seen0.len() {
                                    assert(seen[j] == seen0[j]);
                                }
                            }
                            lemma_distinct_bound(seen, n as nat);
                        }
                    }
                    if k == n {
                        return None;
                    }
                    proof {
                        assert forall|m: nat| #[trigger] tops_out(ds, p as int, m) implies tops_out(
                            ds,
                            i as int,
                            m + (k + 1) as nat,
                        ) by {
                            assert(tops_out(ds, cur as int, m + 1));
                        }
                    }
                    cur = p as usize;
                    k += 1;
                },
            }
        }
    }

    /// Whether the root is a record and the records hang together as trees.
    pub fn is_sound(&self) -> (r: bool)
        ensures
            r == self@.wf(),
    {
        let ghost v = self@;
        let ghost ds = v.dirs;
        let ghost g = index::dir_links(ds);
        if self.root_ix as usize >= self.dirs.len() {
            return false;
        }
        let ghost mut r: Seq<nat> = Seq::empty();
        let n: usize = self.dirs.len();
        let mut i: usize = 0;
        while i < n
            invariant
                v == self@,
                ds == v.dirs,
                n == ds.len(),
                n == self.dirs@.len(),
                i <= n,
                r.len() == i,
                forall|x: int| 0 <= x < i ==> tops_out(ds, x, #[trigger] r[x]),
            decreases n - i,
        {
            match self.steps_up(i) {
                Some(k) => {
                    let ghost r0 = r;
                    proof {
                        r = r0.push(k as nat);
                        assert forall|x: int| 0 <= x < i + 1 implies tops_out(
                            ds,
                            x,
                            #[trigger] r[x],
                        ) by {
                            if x < i {
                                assert(r[x] == r0[x]);
                            }
                        }
                    }
                },
                None => {
                    return false;
                },
            }
            i += 1;
        }
        proof {
            let top = lemma_max(r);
            assert forall|x: int| 0 <= x < r.len() implies (#[trigger] g.par[x] matches Some(p)
                ==> p < r.len() && r[p as int] < r[x]) by {
                assert(tops_out(ds, x, r[x]));
                if let Some(p) = ds[x].parent {
                    assert(tops_out(ds, p as int, (r[x] - 1) as nat));
                    assert(tops_out(ds, p as int, r[p as int]));
                    lemma_tops_out_once(ds, p as int, (r[x] - 1) as nat, r[p as int]);
                }
            }
            assert forall|x: int| 0 <= x < ds.len() implies (#[trigger] ds[x].parent matches Some(p)
                ==> p < ds.len()) by {
                assert(tops_out(ds, x, r[x]));
            }
            assert(forest::ranked(g, r, top));
            lemma_ranked_wf(v, r, top);
        }
        true
    }
}

/// A bound of the numbers of `s`.
proof fn lemma_max(s: Seq<nat>) -> (top: nat)
    ensures
        forall|x: int| 0 <= x < s.len() ==> #[trigger] s[x] <= top,
    decreases s.len(),
{
    if s.len() == 0 {
        0
    } else {
        let m = lemma_max(s.drop_last());
        let top = if s.last() > m {
            s.last()
        } else {
            m
        };
        assert forall|x: int| 0 <= x < s.len() implies #[trigger] s[x] <= top by {
            if x < s.len() - 1 {
                assert(s.drop_last()[x] == s[x]);
            }
        }
        top
    }
}

/// Every record is found by its path, or another one with the same path is.
pub proof fn law_by_path_finds(v: IndexView, k: nat, i: int)
    requires
        v.wf(),
        0 <= i < k <= v.dirs.len() <= u32::MAX,
    ensures
        ({
            let m = index::paths_upto(v, k);
            let key = crate::path::norm(index::rec_path(v, i));
            &&& m.contains_key(key)
            &&& i <= m[key] < k
            &&& crate::path::same(index::rec_path(v, m[key] as int), index::rec_path(v, i))
        }),
    decreases k,
{
    let key = crate::path::norm(index::rec_path(v, i));
    crate::path::lemma_norm_same(index::rec_path(v, k - 1), index::rec_path(v, i));
    assert(index::place(k - 1) == k - 1);
    if i < k - 1 {
        law_by_path_finds(v, (k - 1) as nat, i);
    }
}

} // verus!
