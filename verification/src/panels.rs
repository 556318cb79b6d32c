//! What the panels of the window show: the rows of the tree, the tiles of the
//! treemap, the groups of caches, and the words with them.

use std::collections::HashSet;

use vstd::prelude::*;

use crate::caches;
use crate::caches::{CacheHit, Category, HitView};
use crate::forest;
use crate::order;
use crate::order::sort_desc;
use crate::path;
use crate::path::strip_prefix;
use crate::rules;
use crate::scan;
use crate::scan::{Node, NodeView, Tree, TreeView};
use crate::text;
use crate::text::{chars_of, decimal_string};
use crate::util;
use crate::util::{human, total};
use crate::window;
use crate::window::Doomed;

verus! {

broadcast use vstd::std_specs::hash::group_hash_axioms;

// ---- the tree -------------------------------------------------------------------------

/// How many children of a folder are shown.
pub const CHILDREN_SHOWN: usize = 300;

/// A row of the tree view.
#[derive(Clone, Copy, PartialEq, Eq, Debug, Structural)]
pub enum Row {
    /// A node, and how deep it lies.
    Node(usize, usize),
    /// So many more children are not shown, and how deep they lie.
    More(usize, usize),
}

/// The rows for a node at a depth: itself, and below it its children where it is an
/// expanded folder. What was removed has none.
pub open spec fn rows(t: TreeView, expanded: Set<usize>, x: int, depth: nat) -> Seq<Row>
    decreases forest::height(scan::links(t.nodes), x), t.nodes[x].children.len() + 1,
    when t.wf() && 0 <= x < t.nodes.len()
    via rows_decreases
{
    let n = t.nodes[x];
    if n.removed {
        Seq::empty()
    } else if n.is_dir && expanded.contains(x as usize) {
        let shown = if n.children.len() < CHILDREN_SHOWN {
            n.children.len()
        } else {
            CHILDREN_SHOWN as nat
        };
        let kids = kid_rows(t, expanded, x, depth, shown);
        seq![Row::Node(x as usize, depth as usize)] + if n.children.len() > CHILDREN_SHOWN {
            kids.push(Row::More((n.children.len() - CHILDREN_SHOWN) as usize, (depth + 1) as usize))
        } else {
            kids
        }
    } else {
        seq![Row::Node(x as usize, depth as usize)]
    }
}

/// The rows for the first `k` children of a node at a depth.
pub open spec fn kid_rows(t: TreeView, expanded: Set<usize>, x: int, depth: nat, k: nat) -> Seq<Row>
    decreases forest::height(scan::links(t.nodes), x), k,
    when t.wf() && 0 <= x < t.nodes.len() && k <= t.nodes[x].children.len()
    via kid_rows_decreases
{
    if k == 0 {
        Seq::empty()
    } else {
        kid_rows(t, expanded, x, depth, (k - 1) as nat) + rows(
            t,
            expanded,
            t.nodes[x].children[k - 1] as int,
            depth + 1,
        )
    }
}

#[via_fn]
proof fn rows_decreases(t: TreeView, expanded: Set<usize>, x: int, depth: nat) {
}

#[via_fn]
proof fn kid_rows_decreases(t: TreeView, expanded: Set<usize>, x: int, depth: nat, k: nat) {
    if k > 0 {
        let f = scan::links(t.nodes);
        assert(f.kids[x] == t.nodes[x].children);
        forest::lemma_kid(f, x, k - 1);
    }
}

/// How deep a node lies is less than the number of nodes.
proof fn lemma_depth(t: TreeView, x: int)
    requires
        t.wf(),
        0 <= x < t.nodes.len(),
    ensures
        0 < forest::lineage(scan::links(t.nodes), x).len() <= t.nodes.len(),
{
    let f = scan::links(t.nodes);
    let l = forest::lineage(f, x);
    forest::lemma_lineage(f, x);
    vstd::set_lib::lemma_int_range(0, t.nodes.len() as int);
    l.unique_seq_to_set();
    let s = l.to_set().map(|i: usize| i as int);
    let r = vstd::set_lib::set_int_range(0, t.nodes.len() as int);
    assert(s.subset_of(r)) by {
        assert forall|i: int| s.contains(i) implies r.contains(i) by {
            let u = choose|u: usize| l.to_set().contains(u) && u as int == i;
            assert(l.contains(u));
            let j = choose|j: int| 0 <= j < l.len() && l[j] == u;
            assert(l[j] < f.len());
        }
    }
    vstd::set_lib::lemma_len_subset(s, r);
    vstd::set_lib::lemma_map_size(l.to_set(), s, |i: usize| i as int);
}

fn add_rows(
    tree: &Tree,
    expanded: &HashSet<usize>,
    x: usize,
    depth: usize,
    out: &mut Vec<Row>,
)
    requires
        tree@.wf(),
        x < tree.nodes@.len(),
        depth < forest::lineage(scan::links(tree@.nodes), x as int).len(),
    ensures
        final(out)@ == old(out)@ + rows(tree@, expanded@, x as int, depth as nat),
    decreases forest::height(scan::links(tree@.nodes), x as int),
{
    let ghost t = tree@;
    let ghost f = scan::links(t.nodes);
    let ghost out0 = out@;
    let n = &tree.nodes[x];
    assert(t.nodes[x as int] == n@);
    if n.removed {
        assert(out@ =~= out0 + rows(t, expanded@, x as int, depth as nat));
        return;
    }
    out.push(Row::Node(x, depth));
    if n.is_dir && expanded.contains(&x) {
        proof {
            lemma_depth(t, x as int);
            assert(t.nodes.len() == tree.nodes.len());
        }
        let len: usize = n.children.len();
        let shown: usize = if len < CHILDREN_SHOWN {
            len
        } else {
            CHILDREN_SHOWN
        };
        let ghost kids = t.nodes[x as int].children;
        let ghost head = out@;
        let mut k: usize = 0;
        assert(out@ =~= head + kid_rows(t, expanded@, x as int, depth as nat, 0));
        while k < shown
            invariant
                t == tree@,
                t.wf(),
                f == scan::links(t.nodes),
                x < t.nodes.len(),
                depth < forest::lineage(f, x as int).len() <= t.nodes.len(),
                t.nodes.len() <= usize::MAX,
                kids == t.nodes[x as int].children,
                kids == n.children@,
                k <= shown <= kids.len(),
                out@ == head + kid_rows(t, expanded@, x as int, depth as nat, k as nat),
            decreases shown - k,
        {
            let c: usize = n.children[k];
            proof {
                assert(f.kids[x as int] == kids);
                forest::lemma_kid(f, x as int, k as int);
                assert(forest::lineage(f, c as int) == forest::lineage(f, x as int).push(c));
            }
            add_rows(tree, expanded, c, depth + 1, out);
            k += 1;
            assert(out@ =~= head + kid_rows(t, expanded@, x as int, depth as nat, k as nat));
        }
        if len > CHILDREN_SHOWN {
            out.push(Row::More(len - CHILDREN_SHOWN, depth + 1));
        }
    }
    assert(out@ =~= out0 + rows(t, expanded@, x as int, depth as nat));
}

/// The rows of the tree view.
pub fn tree_rows(tree: &Tree, expanded: &HashSet<usize>) -> (r: Vec<Row>)
    requires
        tree@.wf(),
    ensures
        r@ == rows(tree@, expanded@, tree.root as int, 0),
{
    let mut out: Vec<Row> = Vec::new();
    proof {
        lemma_depth(tree@, tree.root as int);
    }
    add_rows(tree, expanded, tree.root, 0, &mut out);
    out
}

/// What a node is labelled with.
pub open spec fn label(n: NodeView) -> Seq<char> {
    (if n.is_dir {
        "[D]"@
    } else {
        "   "@
    }) + " "@ + n.name
}

/// What a node is labelled with.
pub fn row_label(n: &Node) -> (r: String)
    ensures
        r@ == label(n@),
{
    let mut s = (if n.is_dir {
        "[D]"
    } else {
        "   "
    }).to_owned();
    s.append(" ");
    s.append(n.name.as_str());
    s
}

/// The size that a node's bar is measured against: that of its parent, or its own,
/// and at least 1.
pub open spec fn bar_size(t: TreeView, x: int) -> u64 {
    let s = match t.nodes[x].parent {
        Some(p) => t.nodes[p as int].size,
        None => t.nodes[x].size,
    };
    if s < 1 {
        1
    } else {
        s
    }
}

/// The size that a node's bar is measured against.
pub fn bar_of(tree: &Tree, x: usize) -> (r: u64)
    requires
        tree@.wf(),
        x < tree.nodes@.len(),
    ensures
        r == bar_size(tree@, x as int),
        r >= 1,
{
    let ghost t = tree@;
    let ghost f = scan::links(t.nodes);
    assert(t.nodes[x as int] == tree.nodes@[x as int]@);
    assert(f.par[x as int] == t.nodes[x as int].parent);
    let s: u64 = match tree.nodes[x].parent {
        Some(p) => {
            assert(t.nodes[p as int] == tree.nodes@[p as int]@);
            tree.nodes[p].size
        },
        None => tree.nodes[x].size,
    };
    if s < 1 {
        1
    } else {
        s
    }
}

// ---- the treemap ----------------------------------------------------------------------

/// The folder that the treemap shows: the root where none is set or it was removed.
pub open spec fn map_shown(t: TreeView, map_root: Option<usize>) -> usize {
    match map_root {
        Some(i) => if t.nodes[i as int].removed {
            t.root
        } else {
            i
        },
        None => t.root,
    }
}

/// The folder that the treemap shows.
pub fn map_root_of(tree: &Tree, map_root: Option<usize>) -> (r: usize)
    requires
        tree@.wf(),
        window::in_tree(tree@, map_root),
    ensures
        r == map_shown(tree@, map_root),
        r < tree.nodes@.len(),
{
    match map_root {
        Some(i) => {
            assert(tree@.nodes[i as int] == tree.nodes@[i as int]@);
            if tree.nodes[i].removed {
                tree.root
            } else {
                i
            }
        },
        None => tree.root,
    }
}

/// Tells the children that get a tile: those that are there and not empty.
pub open spec fn tiled(ns: Seq<NodeView>) -> spec_fn(usize) -> bool {
    |c: usize| !ns[c as int].removed && ns[c as int].size > 0
}

/// The children of a folder that get a tile, each with its weight.
pub open spec fn tiles(ns: Seq<NodeView>, x: int) -> Seq<(usize, u64)> {
    ns[x].children.filter(tiled(ns)).map_values(|c: usize| (c, ns[c as int].size))
}

/// The children of a folder that get a tile, each with its weight.
pub fn map_tiles(tree: &Tree, x: usize) -> (r: Vec<(usize, u64)>)
    requires
        tree@.wf(),
        x < tree.nodes@.len(),
    ensures
        r@ == tiles(tree@.nodes, x as int),
{
    let ghost ns = tree@.nodes;
    let ghost f = scan::links(ns);
    let ghost keep = tiled(ns);
    let ghost weigh = |c: usize| (c, ns[c as int].size);
    let n = &tree.nodes[x];
    let ghost kids = ns[x as int].children;
    assert(ns[x as int] == n@);
    assert(f.kids[x as int] == kids);
    let mut out: Vec<(usize, u64)> = Vec::new();
    let mut k: usize = 0;
    proof {
        reveal_with_fuel(Seq::filter, 1);
        assert(kids.take(0).filter(keep) =~= Seq::<usize>::empty());
        assert(out@ =~= kids.take(0).filter(keep).map_values(weigh));
    }
    while k < n.children.len()
        invariant
            ns == tree@.nodes,
            f == scan::links(ns),
            f.wf(),
            x < ns.len(),
            f.kids[x as int] == kids,
            kids == n.children@,
            keep == tiled(ns),
            weigh == (|c: usize| (c, ns[c as int].size)),
            k <= kids.len(),
            out@ == kids.take(k as int).filter(keep).map_values(weigh),
        decreases kids.len() - k,
    {
        let c: usize = n.children[k];
        proof {
            assert(f.kids[x as int][k as int] < f.len());
            assert(ns[c as int] == tree.nodes@[c as int]@);
            let s = kids.take(k + 1);
            assert(s.drop_last() =~= kids.take(k as int));
            assert(s.last() == c);
            text::lemma_filter_last(s, keep);
        }
        let ghost before = kids.take(k as int).filter(keep);
        let ch = &tree.nodes[c];
        if !ch.removed && ch.size > 0 {
            out.push((c, ch.size));
            assert(out@ =~= before.push(c).map_values(weigh));
        }
        k += 1;
    }
    assert(kids.take(k as int) =~= kids);
    out
}

/// What a tile says.
pub fn tile_text(n: &Node) -> (r: String)
    ensures
        r@ == n.name@ + "  "@ + util::human_size(n.size),
{
    let mut s = n.name.clone();
    s.append("  ");
    s.append(human(n.size).as_str());
    s
}

/// What is said of a tile under the pointer.
pub fn hover_text(n: &Node) -> (r: String)
    ensures
        r@ == n.name@ + "\n"@ + util::human_size(n.size) + " · "@ + text::decimal(
            n.file_count as nat,
        ) + " files"@,
{
    let mut s = n.name.clone();
    s.append("\n");
    s.append(human(n.size).as_str());
    s.append(" · ");
    s.append(decimal_string(n.file_count).as_str());
    s.append(" files");
    s
}

/// A node on the way down from the root, as it is shown there.
pub fn crumb(n: &Node) -> (r: String)
    ensures
        r@ == (if n.name@.len() == 0 {
            "/"@
        } else {
            n.name@
        }),
{
    if chars_of(n.name.as_str()).len() == 0 {
        "/".to_owned()
    } else {
        n.name.clone()
    }
}

// ---- the caches -----------------------------------------------------------------------

/// The caches of one category.
pub struct Group {
    pub category: Category,
    /// Their places among the hits.
    pub members: Vec<usize>,
    pub bytes: u64,
}

/// The caches of one category, for specifications.
#[verifier::ext_equal]
pub struct GroupView {
    pub category: Category,
    pub members: Seq<usize>,
    pub bytes: u64,
}

impl View for Group {
    type V = GroupView;

    open spec fn view(&self) -> GroupView {
        GroupView { category: self.category, members: self.members@, bytes: self.bytes }
    }
}

/// The groups, each as what it says.
pub open spec fn groups_view(v: Seq<Group>) -> Seq<GroupView> {
    v.map_values(|g: Group| g@)
}

/// The places among the first `k` hits that are of a category.
pub open spec fn members_upto(hs: Seq<HitView>, c: Category, k: nat) -> Seq<usize>
    decreases k,
{
    if k == 0 {
        Seq::empty()
    } else if hs[k - 1].category == c {
        members_upto(hs, c, (k - 1) as nat).push((k - 1) as usize)
    } else {
        members_upto(hs, c, (k - 1) as nat)
    }
}

/// The categories of the first `k` hits, in the order in which they first come.
pub open spec fn categories_upto(hs: Seq<HitView>, k: nat) -> Seq<Category>
    decreases k,
{
    if k == 0 {
        Seq::empty()
    } else {
        let before = categories_upto(hs, (k - 1) as nat);
        if before.contains(hs[k - 1].category) {
            before
        } else {
            before.push(hs[k - 1].category)
        }
    }
}

/// The group of a category.
pub open spec fn group_of(hs: Seq<HitView>, c: Category, k: nat) -> GroupView {
    let members = members_upto(hs, c, k);
    GroupView {
        category: c,
        members,
        bytes: util::sum64(members.map_values(|i: usize| hs[i as int].size)),
    }
}

/// The groups of the first `k` hits, in the order in which their categories first
/// come.
pub open spec fn grouped(hs: Seq<HitView>, k: nat) -> Seq<GroupView> {
    categories_upto(hs, k).map_values(|c: Category| group_of(hs, c, k))
}

/// The bytes of groups.
pub open spec fn group_bytes(gs: Seq<GroupView>) -> Seq<u64> {
    gs.map_values(|g: GroupView| g.bytes)
}

/// The categories of the hits, in the order in which they first come.
fn categories(hits: &Vec<CacheHit>) -> (r: Vec<Category>)
    ensures
        r@ == categories_upto(caches::hits_view(hits@), hits@.len()),
{
    let ghost hs = caches::hits_view(hits@);
    let mut out: Vec<Category> = Vec::new();
    let mut i: usize = 0;
    while i < hits.len()
        invariant
            hs == caches::hits_view(hits@),
            i <= hits@.len(),
            out@ == categories_upto(hs, i as nat),
        decreases hits@.len() - i,
    {
        assert(hs[i as int] == hits@[i as int]@);
        let c = hits[i].category;
        let mut known = false;
        let mut k: usize = 0;
        while k < out.len()
            invariant
                k <= out@.len(),
                known == (exists|j: int| 0 <= j < k && out@[j] == c),
            decreases out@.len() - k,
        {
            if out[k] == c {
                assert(out@[k as int] == c);
                known = true;
            }
            k += 1;
        }
        assert(known == out@.contains(c));
        if !known {
            out.push(c);
        }
        i += 1;
    }
    out
}

fn group(hits: &Vec<CacheHit>, c: Category) -> (r: Group)
    ensures
        r@ == group_of(caches::hits_view(hits@), c, hits@.len()),
{
    let ghost hs = caches::hits_view(hits@);
    let ghost size = |i: usize| hs[i as int].size;
    let mut members: Vec<usize> = Vec::new();
    let mut sizes: Vec<u64> = Vec::new();
    let mut i: usize = 0;
    assert(sizes@ =~= members@.map_values(size));
    while i < hits.len()
        invariant
            hs == caches::hits_view(hits@),
            size == (|i: usize| hs[i as int].size),
            i <= hits@.len(),
            members@ == members_upto(hs, c, i as nat),
            sizes@ == members@.map_values(size),
        decreases hits@.len() - i,
    {
        assert(hs[i as int] == hits@[i as int]@);
        if hits[i].category == c {
            let ghost before = members@;
            members.push(i);
            sizes.push(hits[i].size);
            assert(sizes@ =~= members@.map_values(size));
        }
        i += 1;
    }
    Group { category: c, members, bytes: total(&sizes) }
}

/// The hits grouped by category, the largest group first.
pub fn groups(hits: &Vec<CacheHit>) -> (r: Vec<Group>)
    ensures
        ({
            let hs = caches::hits_view(hits@);
            let gs = grouped(hs, hs.len());
            order::sorted_desc(gs, group_bytes(gs), groups_view(r@))
        }),
{
    let ghost hs = caches::hits_view(hits@);
    let ghost want = grouped(hs, hs.len());
    let cs = categories(hits);
    let mut out: Vec<Group> = Vec::new();
    let mut keys: Vec<u64> = Vec::new();
    let mut i: usize = 0;
    assert(hs.len() == hits@.len());
    while i < cs.len()
        invariant
            hs == caches::hits_view(hits@),
            hs.len() == hits@.len(),
            want == grouped(hs, hs.len()),
            cs@ == categories_upto(hs, hs.len()),
            i <= cs@.len(),
            groups_view(out@) == want.take(i as int),
            keys@ == group_bytes(want).take(i as int),
        decreases cs@.len() - i,
    {
        let g = group(hits, cs[i]);
        assert(g@ == want[i as int]);
        keys.push(g.bytes);
        let ghost before = out@;
        out.push(g);
        assert(groups_view(out@) =~= groups_view(before).push(g@));
        i += 1;
        assert(groups_view(out@) =~= want.take(i as int));
        assert(keys@ =~= group_bytes(want).take(i as int));
    }
    assert(want.take(i as int) =~= want);
    assert(keys@ =~= group_bytes(want));
    let ghost all = out@;
    let r = sort_desc(out, &keys);
    proof {
        let p = choose|p: Seq<usize>| #[trigger]
            order::is_order(keys@, p) && r@ == order::arranged(all, p);
        assert forall|k: int| 0 <= k < p.len() implies #[trigger] groups_view(r@)[k]
            == order::arranged(want, p)[k] by {
            assert(p[k] < keys@.len());
            assert(r@[k] == all[p[k] as int]);
            assert(groups_view(all)[p[k] as int] == all[p[k] as int]@);
        }
        assert(groups_view(r@) =~= order::arranged(want, p));
    }
    r
}

proof fn lemma_members(hs: Seq<HitView>, c: Category, k: nat, i: usize)
    requires
        k <= hs.len() <= usize::MAX,
    ensures
        members_upto(hs, c, k).contains(i) <==> i < k && hs[i as int].category == c,
    decreases k,
{
    if k > 0 {
        lemma_members(hs, c, (k - 1) as nat, i);
        let before = members_upto(hs, c, (k - 1) as nat);
        if hs[k - 1].category == c {
            let after = before.push((k - 1) as usize);
            assert(after.last() == (k - 1) as usize);
            if before.contains(i) {
                let j = choose|j: int| 0 <= j < before.len() && before[j] == i;
                assert(after[j] == i);
            }
            if after.contains(i) && i != (k - 1) as usize {
                let j = choose|j: int| 0 <= j < after.len() && after[j] == i;
                assert(before[j] == i);
            }
        }
    }
}

proof fn lemma_categories(hs: Seq<HitView>, k: nat, i: int)
    requires
        k <= hs.len(),
        0 <= i < k,
    ensures
        categories_upto(hs, k).contains(hs[i].category),
    decreases k,
{
    let before = categories_upto(hs, (k - 1) as nat);
    let c = hs[k - 1].category;
    if i < k - 1 {
        lemma_categories(hs, (k - 1) as nat, i);
        let j = choose|j: int| 0 <= j < before.len() && before[j] == hs[i].category;
        assert(before.push(c)[j] == hs[i].category);
    } else {
        assert(before.push(c).last() == c);
    }
}

/// Every hit is a member of the group of its category.
pub proof fn law_every_hit_is_grouped(hs: Seq<HitView>, i: usize)
    requires
        i < hs.len() <= usize::MAX,
    ensures
        exists|g: int|
            0 <= g < grouped(hs, hs.len()).len() && (#[trigger] grouped(hs, hs.len())[g]).category
                == hs[i as int].category && grouped(hs, hs.len())[g].members.contains(i),
{
    let c = hs[i as int].category;
    lemma_categories(hs, hs.len(), i as int);
    let cs = categories_upto(hs, hs.len());
    let g = choose|g: int| 0 <= g < cs.len() && cs[g] == c;
    lemma_members(hs, c, hs.len(), i);
    assert(grouped(hs, hs.len())[g] == group_of(hs, c, hs.len()));
}

/// What stands over a group.
pub fn group_header(g: &Group) -> (r: String)
    ensures
        r@ == rules::category_label(g.category) + "  —  "@ + util::human_size(g.bytes) + " ("@
            + text::decimal(g.members@.len()) + ")"@,
{
    let mut s = g.category.label().to_owned();
    s.append("  —  ");
    s.append(human(g.bytes).as_str());
    s.append(" (");
    s.append(decimal_string(g.members.len() as u64).as_str());
    s.append(")");
    s
}

/// How a cache is shown below the root: by the way from there, or `.`.
pub open spec fn place_text(p: Seq<char>, root: Seq<char>) -> Seq<char> {
    let rel = if path::within(p, root) {
        path::joined(path::comps(p).skip(path::comps(root).len() as int))
    } else {
        p
    };
    if rel.len() == 0 {
        "."@
    } else {
        rel
    }
}

/// How a cache is shown below the root.
pub fn place(h: &CacheHit, root: &str) -> (r: String)
    ensures
        r@ == place_text(h.path@, root@),
{
    let rel = match strip_prefix(h.path.as_str(), root) {
        Some(p) => p,
        None => h.path.clone(),
    };
    if chars_of(rel.as_str()).len() == 0 {
        ".".to_owned()
    } else {
        rel
    }
}

/// What the caches that are chosen hold.
pub fn chosen_total(hits: &Vec<CacheHit>, chosen: &HashSet<usize>) -> (r: u64)
    ensures
        r == util::sum64(
            window::doomed_sizes(
                window::chosen_upto(caches::hits_view(hits@), chosen@, hits@.len()),
            ),
        ),
{
    let ghost hs = caches::hits_view(hits@);
    let mut v: Vec<u64> = Vec::new();
    let mut i: usize = 0;
    assert(v@ =~= window::doomed_sizes(window::chosen_upto(hs, chosen@, 0)));
    while i < hits.len()
        invariant
            hs == caches::hits_view(hits@),
            i <= hits@.len(),
            v@ == window::doomed_sizes(window::chosen_upto(hs, chosen@, i as nat)),
        decreases hits@.len() - i,
    {
        let h = &hits[i];
        assert(hs[i as int] == h@);
        let ghost before = window::chosen_upto(hs, chosen@, i as nat);
        if chosen.contains(&i) {
            v.push(h.size);
            assert(v@ =~= window::doomed_sizes(before.push((h.node_idx, h.path@, h.size))));
        }
        i += 1;
    }
    total(&v)
}

// ---- the question -----------------------------------------------------------------------

/// The question before something is trashed.
pub fn confirm_text(items: &Vec<Doomed>) -> (r: String)
    ensures
        r@ == "Move "@ + text::decimal(items@.len()) + " item(s) totaling "@ + util::human_size(
            util::sum64(window::doomed_sizes(window::doomed_view(items@))),
        ) + " to the Trash?"@,
{
    let ghost want = window::doomed_sizes(window::doomed_view(items@));
    let mut v: Vec<u64> = Vec::new();
    let mut i: usize = 0;
    while i < items.len()
        invariant
            want == window::doomed_sizes(window::doomed_view(items@)),
            i <= items@.len(),
            v@ == want.take(i as int),
        decreases items@.len() - i,
    {
        v.push(items[i].size);
        i += 1;
        assert(v@ =~= want.take(i as int));
    }
    assert(want.take(i as int) =~= want);
    let mut s = "Move ".to_owned();
    s.append(decimal_string(items.len() as u64).as_str());
    s.append(" item(s) totaling ");
    s.append(human(total(&v)).as_str());
    s.append(" to the Trash?");
    s
}

} // verus!
