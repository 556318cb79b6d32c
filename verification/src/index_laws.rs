//! What an index keeps of a tree, and what a tree is given back.

use vstd::prelude::*;

use crate::forest;
use crate::index;
use crate::index::{DirView, IndexView, Mode};
use crate::order;
use crate::path;
use crate::scan;
use crate::scan::{NodeView, TreeView};
use crate::text;
use crate::util;

verus! {

// ---- tree to index ----------------------------------------------------------------------

/// Every directory that hangs below the root by directories, none of them removed, has
/// one record, and nothing else has one; the root's comes first.
pub proof fn law_every_live_directory_is_recorded(t: TreeView)
    requires
        t.wf(),
        !t.nodes[t.root as int].removed,
    ensures
        index::recorded(t).no_duplicates(),
        index::recorded(t).len() > 0 && index::recorded(t)[0] == t.root,
        forall|c: usize| #[trigger]
            index::recorded(t).contains(c) && c != t.root ==> c < t.nodes.len()
                && t.nodes[c as int].is_dir && !t.nodes[c as int].removed && (
            t.nodes[c as int].parent matches Some(p) && index::recorded(t).contains(p)),
        forall|c: usize|
            c < t.nodes.len() && t.nodes[c as int].is_dir && !t.nodes[c as int].removed && (
            t.nodes[c as int].parent matches Some(p) && index::recorded(t).contains(p))
                ==> #[trigger] index::recorded(t).contains(c),
{
    let ns = t.nodes;
    let f = scan::links(ns);
    let l = index::live_links(ns);
    let w = index::recorded(t);
    let root = t.root as int;
    index::lemma_live_wf(ns);
    forest::lemma_walk_distinct(l, root);
    assert(w[0] == t.root);
    assert forall|c: usize| #[trigger] w.contains(c) && c != t.root implies c < ns.len()
        && ns[c as int].is_dir && !ns[c as int].removed && (ns[c as int].parent matches Some(p)
        && w.contains(p)) by {
        let j = choose|j: int| 0 <= j < w.len() && w[j] == c;
        forest::lemma_walk_member(l, root, j);
    }
    assert forall|c: usize|
        c < ns.len() && ns[c as int].is_dir && !ns[c as int].removed && (
        ns[c as int].parent matches Some(p) && w.contains(p)) implies #[trigger] w.contains(c) by {
        let p = ns[c as int].parent->0;
        let j = choose|j: int| 0 <= j < w.len() && w[j] == p;
        forest::lemma_walk_member(l, root, j);
        assert(f.par[c as int] == Some(p));
        assert(f.kids[p as int].contains(c));
        let kids = ns[p as int].children;
        let live = index::live_in(ns);
        index::lemma_live_kids(ns, p as int);
        assert(f.kids[p as int] == kids);
        let i = choose|i: int| 0 <= i < kids.len() && kids[i] == c;
        text::lemma_filter_keeps(kids, live, i);
        let k = choose|k: int| 0 <= k < kids.filter(live).len() && kids.filter(live)[k] == c;
        let m = forest::lemma_walk_kid_after(l, root, j, k);
        assert(w[m] == c);
    }
}

/// Whether the node is a file that is still there.
pub open spec fn live_file(n: NodeView) -> bool {
    !n.is_dir && !n.removed
}

/// What `f` gives for the files among the first `k` of `kids`, added up.
pub open spec fn file_sum(
    ns: Seq<NodeView>,
    kids: Seq<usize>,
    f: spec_fn(NodeView) -> u64,
    k: nat,
) -> nat
    decreases k,
{
    if k == 0 {
        0
    } else {
        file_sum(ns, kids, f, (k - 1) as nat) + if live_file(ns[kids[k - 1] as int]) {
            f(ns[kids[k - 1] as int]) as nat
        } else {
            0
        }
    }
}

/// Whether the node is a file of the threshold's size or more, and no stand-in.
pub open spec fn stands_alone(n: NodeView, threshold: u64) -> bool {
    live_file(n) && n.size >= threshold && !n.synthetic
}

/// Whether the file `n` is among the large ones.
pub open spec fn listed(large: Seq<(Seq<char>, u64)>, private: Seq<u64>, n: NodeView) -> bool {
    exists|j: int|
        0 <= j < large.len() && (#[trigger] large[j]).0 == n.name && large[j].1 == n.size
            && private[j] == n.private
}

/// Whether one of the first `k` of `kids` is the large file of the name, the size and the
/// unshared bytes.
pub open spec fn is_child(
    ns: Seq<NodeView>,
    kids: Seq<usize>,
    threshold: u64,
    k: nat,
    name: Seq<char>,
    size: u64,
    private: u64,
) -> bool {
    exists|i: int|
        0 <= i < k && stands_alone(ns[(#[trigger] kids[i]) as int], threshold)
            && ns[kids[i] as int].name == name && ns[kids[i] as int].size == size
            && ns[kids[i] as int].private == private
}

#[verifier::spinoff_prover]
proof fn lemma_listed(ns: Seq<NodeView>, kids: Seq<usize>, threshold: u64, k: nat)
    requires
        k <= kids.len(),
    ensures
        ({
            let large = index::large_of(ns, kids, threshold, k);
            let private = index::large_privates(ns, kids, threshold, k);
            &&& large.len() == private.len()
            &&& forall|i: int|
                0 <= i < k && stands_alone(ns[(#[trigger] kids[i]) as int], threshold) ==> listed(
                    large,
                    private,
                    ns[kids[i] as int],
                )
            &&& forall|j: int|
                0 <= j < large.len() ==> is_child(
                    ns,
                    kids,
                    threshold,
                    k,
                    (#[trigger] large[j]).0,
                    large[j].1,
                    private[j],
                )
        }),
    decreases k,
{
    if k > 0 {
        let large = index::large_of(ns, kids, threshold, k);
        let private = index::large_privates(ns, kids, threshold, k);
        let large0 = index::large_of(ns, kids, threshold, (k - 1) as nat);
        let private0 = index::large_privates(ns, kids, threshold, (k - 1) as nat);
        lemma_listed(ns, kids, threshold, (k - 1) as nat);
        let n = ns[kids[k - 1] as int];
        assert(index::is_large(n, threshold) <==> stands_alone(n, threshold));
        assert forall|i: int|
            0 <= i < k && stands_alone(ns[(#[trigger] kids[i]) as int], threshold) implies listed(
            large,
            private,
            ns[kids[i] as int],
        ) by {
            let m = ns[kids[i] as int];
            if i < k - 1 {
                assert(listed(large0, private0, m));
                let j = choose|j: int|
                    0 <= j < large0.len() && (#[trigger] large0[j]).0 == m.name && large0[j].1
                        == m.size && private0[j] == m.private;
                assert(large[j] == large0[j] && private[j] == private0[j]);
            } else {
                assert(large[large0.len() as int].0 == n.name);
            }
        }
        assert forall|j: int| 0 <= j < large.len() implies is_child(
            ns,
            kids,
            threshold,
            k,
            (#[trigger] large[j]).0,
            large[j].1,
            private[j],
        ) by {
            if j < large0.len() {
                assert(large[j] == large0[j] && private[j] == private0[j]);
                assert(is_child(
                    ns,
                    kids,
                    threshold,
                    (k - 1) as nat,
                    large0[j].0,
                    large0[j].1,
                    private0[j],
                ));
                let i = choose|i: int|
                    0 <= i < k - 1 && stands_alone(ns[(#[trigger] kids[i]) as int], threshold)
                        && ns[kids[i] as int].name == large0[j].0 && ns[kids[i] as int].size
                        == large0[j].1 && ns[kids[i] as int].private == private0[j];
                assert(stands_alone(ns[kids[i] as int], threshold));
            } else {
                assert(stands_alone(ns[kids[k - 1] as int], threshold));
            }
        }
    }
}

#[verifier::spinoff_prover]
proof fn lemma_nothing_lost(ns: Seq<NodeView>, kids: Seq<usize>, threshold: u64, k: nat)
    requires
        k <= kids.len(),
    ensures
        index::small_bytes(ns, kids, threshold, k) + util::sum(
            index::large_of(ns, kids, threshold, k).map_values(|e: (Seq<char>, u64)| e.1),
        ) == file_sum(ns, kids, |n: NodeView| n.size, k),
        index::small_private(ns, kids, threshold, k) + util::sum(
            index::large_privates(ns, kids, threshold, k),
        ) == file_sum(ns, kids, |n: NodeView| n.private, k),
    decreases k,
{
    let large = index::large_of(ns, kids, threshold, k);
    let private = index::large_privates(ns, kids, threshold, k);
    let second = |e: (Seq<char>, u64)| e.1;
    if k == 0 {
        assert(large.map_values(second) =~= Seq::<u64>::empty());
    } else {
        let large0 = index::large_of(ns, kids, threshold, (k - 1) as nat);
        let private0 = index::large_privates(ns, kids, threshold, (k - 1) as nat);
        lemma_nothing_lost(ns, kids, threshold, (k - 1) as nat);
        let n = ns[kids[k - 1] as int];
        if index::is_large(n, threshold) {
            assert(large.map_values(second).drop_last() =~= large0.map_values(second));
            assert(large.map_values(second).last() == n.size);
            assert(private.drop_last() =~= private0);
        }
    }
}

#[verifier::spinoff_prover]
proof fn lemma_no_file_lost(ns: Seq<NodeView>, kids: Seq<usize>, threshold: u64, k: nat)
    requires
        k <= kids.len(),
        forall|i: int|
            0 <= i < kids.len() && stands_alone(ns[(#[trigger] kids[i]) as int], threshold)
                ==> ns[kids[i] as int].file_count == 1,
    ensures
        index::small_files(ns, kids, threshold, k) + index::large_of(ns, kids, threshold, k).len()
            == file_sum(ns, kids, |n: NodeView| n.file_count, k),
    decreases k,
{
    if k > 0 {
        lemma_no_file_lost(ns, kids, threshold, (k - 1) as nat);
        let n = ns[kids[k - 1] as int];
        assert(stands_alone(n, threshold) ==> n.file_count == 1);
    }
}

/// A record keeps of its directory the name, the time and the totals.
pub proof fn law_record_keeps_its_directory(t: TreeView, threshold: u64, k: int)
    requires
        0 <= k < index::recorded(t).len(),
    ensures
        ({
            let d = index::record(t, threshold, k);
            let n = t.nodes[index::recorded(t)[k] as int];
            &&& d.name == n.name
            &&& d.mtime_ns == n.mtime_ns
            &&& d.subtree_bytes == n.size
            &&& d.subtree_files == n.file_count
            &&& d.subtree_private == n.private
        }),
{
}

/// A record lists the files of its directory that are of the threshold's size or more,
/// each with its name, its size and its unshared bytes, and no others.
pub proof fn law_record_lists_large_files(t: TreeView, threshold: u64, k: int)
    requires
        0 <= k < index::recorded(t).len(),
    ensures
        ({
            let d = index::record(t, threshold, k);
            let kids = t.nodes[index::recorded(t)[k] as int].children;
            &&& d.large.len() == d.large_private.len()
            &&& forall|i: int|
                0 <= i < kids.len() && stands_alone(t.nodes[(#[trigger] kids[i]) as int], threshold)
                    ==> listed(d.large, d.large_private, t.nodes[kids[i] as int])
            &&& forall|j: int|
                0 <= j < d.large.len() ==> is_child(
                    t.nodes,
                    kids,
                    threshold,
                    kids.len(),
                    (#[trigger] d.large[j]).0,
                    d.large[j].1,
                    d.large_private[j],
                )
        }),
{
    let kids = t.nodes[index::recorded(t)[k] as int].children;
    lemma_listed(t.nodes, kids, threshold, kids.len());
}

/// What a record lists of the files of its directory and what it sums up are together all
/// their bytes and all their unshared bytes, and all the files: nothing is lost or counted
/// twice.
pub proof fn law_record_loses_nothing(t: TreeView, threshold: u64, k: int)
    requires
        t.wf(),
        !t.nodes[t.root as int].removed,
        index::small_fit(t.nodes, threshold),
        0 <= k < index::recorded(t).len(),
    ensures
        ({
            let d = index::record(t, threshold, k);
            let kids = t.nodes[index::recorded(t)[k] as int].children;
            &&& d.own_bytes + util::sum(d.large.map_values(|e: (Seq<char>, u64)| e.1)) == file_sum(
                t.nodes,
                kids,
                |n: NodeView| n.size,
                kids.len(),
            )
            &&& d.own_private + util::sum(d.large_private) == file_sum(
                t.nodes,
                kids,
                |n: NodeView| n.private,
                kids.len(),
            )
            &&& (forall|i: int|
                0 <= i < kids.len() && stands_alone(t.nodes[(#[trigger] kids[i]) as int], threshold)
                    ==> t.nodes[kids[i] as int].file_count == 1) ==> d.own_files + d.large.len()
                == file_sum(t.nodes, kids, |n: NodeView| n.file_count, kids.len())
        }),
{
    let x = index::recorded(t)[k] as int;
    let kids = t.nodes[x].children;
    index::lemma_live_wf(t.nodes);
    forest::lemma_walk_member(index::live_links(t.nodes), t.root as int, k);
    assert(index::kids_fit(t.nodes, t.nodes[x].children, threshold));
    lemma_nothing_lost(t.nodes, kids, threshold, kids.len());
    if forall|i: int|
        0 <= i < kids.len() && stands_alone(t.nodes[(#[trigger] kids[i]) as int], threshold)
            ==> t.nodes[kids[i] as int].file_count == 1 {
        lemma_no_file_lost(t.nodes, kids, threshold, kids.len());
    }
}

/// A record hangs below the record of the directory that its own directory hangs in.
pub proof fn law_record_hangs_in_its_parent(t: TreeView, threshold: u64, k: int)
    requires
        t.wf(),
        !t.nodes[t.root as int].removed,
        index::recorded(t).len() <= u32::MAX,
        0 <= k < index::recorded(t).len(),
    ensures
        ({
            let w = index::recorded(t);
            match index::record(t, threshold, k).parent {
                None => k == 0 && w[k] == t.root,
                Some(p) => k > 0 && p < w.len() && t.nodes[w[k] as int].parent == Some(w[p as int]),
            }
        }),
{
    let w = index::recorded(t);
    law_every_live_directory_is_recorded(t);
    if k > 0 {
        assert(w.contains(w[k]));
        assert(w[k] != w[0]);
        let p = t.nodes[w[k] as int].parent->0;
        assert(w.contains(p));
        let j = w.index_of(p);
        assert(0 <= j < w.len() && w[j] == p);
        assert(index::place(j) == j);
    }
}

/// The index of a tree says where and when it was made and up to which event it is good.
pub proof fn law_index_says_where_it_is_from(
    t: TreeView,
    mode: Mode,
    last_event_id: u64,
    threshold: u64,
    device_id: u64,
    now: u64,
)
    ensures
        ({
            let v = index::index_of_tree(t, mode, last_event_id, threshold, device_id, now);
            &&& v.root == t.root_path
            &&& v.scanned_at == now
            &&& v.mode == mode
            &&& v.device_id == device_id
            &&& v.last_event_id == last_event_id
            &&& v.threshold == threshold
            &&& v.root_ix == 0
            &&& v.dirs.len() == index::recorded(t).len()
        }),
{
}

// ---- index to tree ----------------------------------------------------------------------

/// Where the files of a record stand among the nodes.
proof fn lemma_file_place(ds: Seq<DirView>, i: int, n: nat, j: int)
    requires
        0 <= i < n <= ds.len(),
        0 <= j < index::file_nodes(i as usize, ds[i]).len(),
    ensures
        index::files_upto(ds, i as nat).len() + j < index::files_upto(ds, n).len(),
        index::files_upto(ds, n)[index::files_upto(ds, i as nat).len() + j] == index::file_nodes(
            i as usize,
            ds[i],
        )[j],
    decreases n,
{
    if i < n - 1 {
        lemma_file_place(ds, i, (n - 1) as nat, j);
    }
}

/// Whether the directory node `i` has a child with these values.
pub open spec fn holds_file(
    t: TreeView,
    i: int,
    name: Seq<char>,
    size: u64,
    private: u64,
    files: u64,
    synthetic: bool,
) -> bool {
    exists|k: int|
        0 <= k < t.nodes[i].children.len() && {
            let n = t.nodes[(#[trigger] t.nodes[i].children[k]) as int];
            &&& n.name == name
            &&& n.size == size
            &&& n.private == private
            &&& n.file_count == files
            &&& n.synthetic == synthetic
            &&& !n.is_dir && !n.removed && n.children.len() == 0
            &&& n.parent == Some(i as usize)
        }
}

/// Each record comes back as a directory with its name, its time and its totals, with its
/// large files one by one, and with one stand-in for the small ones where there are any;
/// it hangs in the directory of the record that its own hangs in. The largest child comes
/// first.
pub proof fn law_tree_gives_records_back(v: IndexView, t: TreeView, i: int)
    requires
        v.wf(),
        index::nodes_of(v.dirs).len() <= usize::MAX,
        index::is_tree_of(v, t),
        0 <= i < v.dirs.len(),
    ensures
        t.root_path == v.root,
        t.root == v.root_ix,
        ({
            let d = v.dirs[i];
            let n = t.nodes[i];
            &&& n.name == d.name
            &&& n.mtime_ns == d.mtime_ns
            &&& n.size == d.subtree_bytes
            &&& n.private == d.subtree_private
            &&& n.file_count == d.subtree_files
            &&& n.is_dir && !n.removed && !n.synthetic
            &&& n.parent is Some <==> d.parent is Some
            &&& n.parent matches Some(p) ==> d.parent == Some(p as u32) && p <= u32::MAX
            &&& forall|j: int|
                0 <= j < d.large.len() ==> holds_file(
                    t,
                    i,
                    (#[trigger] d.large[j]).0,
                    d.large[j].1,
                    if j < d.large_private.len() {
                        d.large_private[j]
                    } else {
                        d.large[j].1
                    },
                    1,
                    false,
                )
            &&& d.own_files > 0 ==> holds_file(
                t,
                i,
                index::small_name(d.own_files),
                d.own_bytes,
                d.own_private,
                d.own_files,
                true,
            )
            &&& n.children.len() == index::dir_kids(v.dirs, i).len() + d.large.len() + if d.own_files
                > 0 {
                1int
            } else {
                0
            }
            &&& forall|a: int, b: int|
                0 <= a < b < n.children.len() ==> t.nodes[(
                #[trigger] n.children[a]) as int].size >= t.nodes[(
                #[trigger] n.children[b]) as int].size
        }),
        forall|c: int|
            0 <= c < v.dirs.len() && v.dirs[c].parent == Some(i as u32) && i <= u32::MAX
                ==> #[trigger] t.nodes[i].children.contains(c as usize),
{
    let ds = v.dirs;
    let d = ds[i];
    let ns = index::nodes_of(ds);
    let n = t.nodes[i];
    assert(ns[i] == index::dir_node(ds, i));
    assert(scan::kids_sorted(ns, ns[i], t.nodes[i]));
    let kids = ns[i].children;
    let keys = scan::kid_sizes(ns, kids);
    lemma_kids_bounded(ds, i);
    order::lemma_sorted_keeps(kids, keys, n.children);
    let own = index::dir_kids(ds, i);
    let files = index::file_nodes(i as usize, d);
    let from = ds.len() + index::files_upto(ds, i as nat).len();
    assert forall|j: int| 0 <= j < files.len() implies {
        let c = (from + j) as usize;
        &&& n.children.contains(c)
        &&& #[trigger] files[j] == ns[c as int]
        &&& scan::kids_sorted(ns, ns[c as int], t.nodes[c as int])
    } by {
        lemma_file_place(ds, i, ds.len(), j);
        let c = (from + j) as usize;
        assert(kids[own.len() + j] == c);
        assert(kids.contains(c));
        assert(scan::kids_sorted(ns, ns[c as int], t.nodes[c as int]));
    }
    assert forall|j: int| 0 <= j < files.len() implies holds_file(
        t,
        i,
        (#[trigger] files[j]).name,
        files[j].size,
        files[j].private,
        files[j].file_count,
        files[j].synthetic,
    ) by {
        let c = (from + j) as usize;
        let k = choose|k: int| 0 <= k < n.children.len() && n.children[k] == c;
        assert(files[j] == ns[c as int]);
        assert(scan::kids_sorted(ns, ns[c as int], t.nodes[c as int]));
        assert(files[j].children.len() == 0);
        assert(t.nodes[t.nodes[i].children[k] as int].name == files[j].name);
    }
    assert forall|j: int| 0 <= j < d.large.len() implies holds_file(
        t,
        i,
        (#[trigger] d.large[j]).0,
        d.large[j].1,
        if j < d.large_private.len() {
            d.large_private[j]
        } else {
            d.large[j].1
        },
        1,
        false,
    ) by {
        assert(files[j].name == d.large[j].0);
    }
    if d.own_files > 0 {
        assert(files[d.large.len() as int].name == index::small_name(d.own_files));
    }
    order::law_sorted_is_descending(kids, keys, n.children, |c: usize| ns[c as int].size);
    let key = |c: usize| ns[c as int].size;
    assert forall|a: int, b: int| 0 <= a < b < n.children.len() implies t.nodes[(
    #[trigger] n.children[a]) as int].size >= t.nodes[(#[trigger] n.children[b]) as int].size by {
        assert(key(n.children[a]) >= key(n.children[b]));
        assert(n.children.contains(n.children[a]) && n.children.contains(n.children[b]));
        lemma_kid_in_range(ds, i, n.children[a]);
        lemma_kid_in_range(ds, i, n.children[b]);
        let x = n.children[a] as int;
        let y = n.children[b] as int;
        assert(scan::kids_sorted(ns, ns[x], t.nodes[x]));
        assert(scan::kids_sorted(ns, ns[y], t.nodes[y]));
    }
    assert forall|c: int|
        0 <= c < ds.len() && ds[c].parent == Some(i as u32)
            && i <= u32::MAX implies #[trigger] t.nodes[i].children.contains(
    c as usize) by {
        index::lemma_kids_upto(ds, i, ds.len());
        assert(ds[c].parent == Some(i as u32));
        assert(own.contains(c as usize));
        let m = choose|m: int| 0 <= m < own.len() && own[m] == c as usize;
        assert(kids[m] == c as usize);
        assert(kids.contains(c as usize));
    }
}

proof fn lemma_kids_bounded(ds: Seq<DirView>, i: int)
    requires
        0 <= i < ds.len(),
        index::nodes_of(ds).len() <= usize::MAX,
    ensures
        index::dir_node(ds, i).children.len() <= usize::MAX,
{
    index::lemma_files_upto_len(ds, i as nat + 1, ds.len());
    index::lemma_kids_upto(ds, i, ds.len());
}

proof fn lemma_kid_in_range(ds: Seq<DirView>, i: int, c: usize)
    requires
        0 <= i < ds.len(),
        index::nodes_of(ds).len() <= usize::MAX,
        index::dir_node(ds, i).children.contains(c),
    ensures
        c < index::nodes_of(ds).len(),
{
    let kids = index::dir_node(ds, i).children;
    let m = choose|m: int| 0 <= m < kids.len() && kids[m] == c;
    index::lemma_kids_upto(ds, i, ds.len());
    index::lemma_files_upto_len(ds, i as nat + 1, ds.len());
}

// ---- places ---------------------------------------------------------------------------------

/// The value of the hexadecimal digits, the last one counting once.
pub open spec fn hex_value(s: Seq<char>) -> nat
    decreases s.len(),
{
    if s.len() == 0 {
        0
    } else {
        let c = s.last();
        let d: int = if '0' <= c <= '9' {
            c as int - '0' as int
        } else {
            c as int - 'a' as int + 10
        };
        (16 * hex_value(s.drop_last()) + d) as nat
    }
}

/// As many hexadecimal digits are written as are asked for, and they give the number back
/// where it fits.
pub proof fn law_hexadecimal_is_read_back(v: nat, n: nat)
    ensures
        index::hex(v, n).len() == n,
        v < vstd::arithmetic::power::pow(16, n) ==> hex_value(index::hex(v, n)) == v,
        forall|i: int|
            0 <= i < n ==> '0' <= #[trigger] index::hex(v, n)[i] <= '9'
                || 'a' <= index::hex(v, n)[i]
                <= 'f',
    decreases n,
{
    reveal_strlit("0123456789abcdef");
    if n == 0 {
        vstd::arithmetic::power::lemma_pow0(16);
    } else {
        law_hexadecimal_is_read_back(v / 16, (n - 1) as nat);
        let front = index::hex(v / 16, (n - 1) as nat);
        let s = index::hex(v, n);
        assert(s.drop_last() =~= front);
        assert(s.last() == index::hex_digit(v % 16));
        reveal(vstd::arithmetic::power::pow);
        let p = vstd::arithmetic::power::pow(16, (n - 1) as nat);
        assert(vstd::arithmetic::power::pow(16, n) == 16 * p);
        if v < 16 * p {
            assert(v / 16 < p);
        }
    }
}

/// What is chosen is where indexes are kept; otherwise they are kept below the home directory.
pub proof fn law_indexes_are_kept_below_home(home: Seq<char>, chosen: Seq<char>)
    requires
        path::absolute(home),
    ensures
        index::cache_dir_of(Some(chosen), Some(home)) == Some(chosen),
        index::cache_dir_of(Some(chosen), None) == Some(chosen),
        index::cache_dir_of(None, None) is None,
        index::cache_dir_of(None, Some(home)) matches Some(d) && path::absolute(d)
            && home.is_prefix_of(d) && home.len() < d.len(),
{
    reveal_strlit("Library/Caches/com.pathors.diskscour");
    reveal_strlit("roots");
    let d = index::cache_dir_of(None, Some(home))->0;
    assert(d.take(home.len() as int) =~= home);
}

/// What is as old as the clock has gone on since; where it has gone back, it is new.
pub proof fn law_age_is_what_has_passed(made: u64, passed: u64)
    requires
        made + passed <= u64::MAX,
    ensures
        index::age(made, (made + passed) as u64) == passed,
        index::age((made + passed) as u64, made) == 0,
{
}

/// The key of a root is the 64-bit FNV-1a hash: it starts from the offset basis and takes in
/// each byte by a xor and a product with the prime.
pub proof fn law_keys_are_hashed_byte_by_byte(b: Seq<u8>, x: u8)
    ensures
        index::fnv(Seq::<u8>::empty()) == 14695981039346656037,
        index::fnv(b.push(x)) == ((index::fnv(b) ^ (x as u64)) * 1099511628211)
            % 18446744073709551616,
{
    assert(b.push(x).drop_last() =~= b);
    assert(b.push(x).last() == x);
}

/// The three ways in which an index comes about are told apart by name, and the small files of
/// a directory stand together under how many they are.
pub proof fn law_modes_and_small_files_are_named(n: u64)
    ensures
        index::mode_str(Mode::Full) == "full"@,
        index::mode_str(Mode::Mtime) == "mtime"@,
        index::mode_str(Mode::Events) == "events"@,
        ("("@ + text::decimal(n as nat)).is_prefix_of(index::small_name(n)),
        " small files)"@.is_suffix_of(index::small_name(n)),
{
    let head = "("@ + text::decimal(n as nat);
    let t = index::small_name(n);
    assert(t.take(head.len() as int) =~= head);
    assert(t.subrange(t.len() - " small files)"@.len(), t.len() as int) =~= " small files)"@);
}

} // verus!
