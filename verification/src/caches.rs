//! Detection of regenerable developer and build caches.
//!
//! Nested matches are collapsed to the top-most hit so reclaimable totals don't
//! double-count.

use vstd::prelude::*;

use crate::forest;
use crate::index;
use crate::index::{Index, IndexView};
use crate::order;
use crate::order::order_desc;
use crate::removal;
use crate::rules;
use crate::rules::{first_match, may_match, Rule, RuleView};
use crate::scan;
use crate::scan::{NodeView, Tree, TreeView};
use crate::text;

pub use crate::rules::Category;

verus! {

/// A detected cache directory.
pub struct CacheHit {
    pub node_idx: usize,
    pub path: String,
    pub size: u64,
    pub category: Category,
    pub note: &'static str,
}

/// What a hit says.
#[verifier::ext_equal]
pub struct HitView {
    pub node_idx: usize,
    pub path: Seq<char>,
    pub size: u64,
    pub category: Category,
    pub note: Seq<char>,
}

impl View for CacheHit {
    type V = HitView;

    open spec fn view(&self) -> HitView {
        HitView {
            node_idx: self.node_idx,
            path: self.path@,
            size: self.size,
            category: self.category,
            note: self.note@,
        }
    }
}

/// The hits, each as what it says.
pub open spec fn hits_view(v: Seq<CacheHit>) -> Seq<HitView> {
    v.map_values(|h: CacheHit| h@)
}

// ---- in a tree ------------------------------------------------------------------

/// The names of the nodes that `kids` lists.
pub open spec fn names(ns: Seq<NodeView>, kids: Seq<usize>) -> Seq<Seq<char>> {
    kids.map_values(|c: usize| ns[c as int].name)
}

/// The rule by which a node is a cache. The scan root never is one: that would
/// offer to delete the folder being analyzed.
pub open spec fn node_rule(t: TreeView, i: int) -> Option<RuleView> {
    let n = t.nodes[i];
    if i == t.root || n.removed || !n.is_dir {
        None
    } else {
        rules::classified(
            n.name,
            match n.parent {
                Some(p) => Some(names(t.nodes, t.nodes[p as int].children)),
                None => None,
            },
            names(t.nodes, n.children),
        )
    }
}

/// Whether a node above `i` is a cache.
pub open spec fn nested(t: TreeView, i: int) -> bool
    decreases forest::rank(scan::links(t.nodes), i),
    when scan::links(t.nodes).acyclic() && 0 <= i < t.nodes.len()
    via nested_decreases
{
    match t.nodes[i].parent {
        Some(p) => node_rule(t, p as int) is Some || nested(t, p as int),
        None => false,
    }
}

#[via_fn]
proof fn nested_decreases(t: TreeView, i: int) {
    let f = scan::links(t.nodes);
    forest::lemma_rank(f);
    assert(f.par[i] == t.nodes[i].parent);
}

/// Whether a node is a hit: a cache that is not empty and lies in no other one.
pub open spec fn is_hit(t: TreeView, i: int) -> bool {
    node_rule(t, i) is Some && !nested(t, i) && t.nodes[i].size > 0
}

/// The hit for a node.
pub open spec fn hit_of(t: TreeView, i: int) -> HitView {
    let r = node_rule(t, i)->0;
    HitView {
        node_idx: i as usize,
        path: scan::node_path(t, i),
        size: t.nodes[i].size,
        category: r.category,
        note: r.note,
    }
}

/// The hits among the first `k` nodes, in the order of the nodes.
pub open spec fn hits_upto(t: TreeView, k: nat) -> Seq<HitView>
    decreases k,
{
    if k == 0 {
        Seq::empty()
    } else {
        let before = hits_upto(t, (k - 1) as nat);
        if is_hit(t, k - 1) {
            before.push(hit_of(t, k - 1))
        } else {
            before
        }
    }
}

/// The sizes of hits.
pub open spec fn hit_sizes(hs: Seq<HitView>) -> Seq<u64> {
    hs.map_values(|h: HitView| h.size)
}

fn names_of<'a>(tree: &'a Tree, kids: &Vec<usize>) -> (r: Vec<&'a str>)
    requires
        forall|k: int| 0 <= k < kids@.len() ==> #[trigger] kids@[k] < tree.nodes@.len(),
    ensures
        text::slices(r@) == names(tree@.nodes, kids@),
{
    let mut out: Vec<&'a str> = Vec::new();
    let mut i: usize = 0;
    while i < kids.len()
        invariant
            i <= kids@.len(),
            forall|k: int| 0 <= k < kids@.len() ==> #[trigger] kids@[k] < tree.nodes@.len(),
            text::slices(out@) == names(tree@.nodes, kids@).take(i as int),
        decreases kids@.len() - i,
    {
        assert(kids@[i as int] < tree.nodes@.len());
        let ghost before = text::slices(out@);
        let s = tree.nodes[kids[i]].name.as_str();
        out.push(s);
        assert(text::slices(out@) =~= before.push(s@));
        i += 1;
        assert(text::slices(out@) =~= names(tree@.nodes, kids@).take(i as int));
    }
    assert(text::slices(out@) =~= names(tree@.nodes, kids@));
    out
}

/// What the rules say of one node.
fn judge(tree: &Tree, rs: &Vec<Rule>, i: usize) -> (r: Option<(Category, &'static str)>)
    requires
        tree@.traceable(),
        i < tree.nodes@.len(),
        rules::rules_view(rs@) == rules::all_rules(),
    ensures
        rules::found(r) == rules::verdict(node_rule(tree@, i as int)),
{
    let ghost t = tree@;
    let ghost f = scan::links(t.nodes);
    let n = &tree.nodes[i];
    assert(t.nodes[i as int] == n@);
    if i == tree.root || n.removed || !n.is_dir {
        return None;
    }
    if !may_match(rs, n.name.as_str()) {
        proof {
            let all = rules::all_rules();
            assert forall|k: int| 0 <= k < all.len() implies !rules::name_fits(
                #[trigger] all[k],
                n.name@,
            ) by {}
            rules::lemma_unlisted(
                all,
                n.name@,
                match t.nodes[i as int].parent {
                    Some(p) => Some(names(t.nodes, t.nodes[p as int].children)),
                    None => None,
                },
                names(t.nodes, t.nodes[i as int].children),
            );
        }
        return None;
    }
    assert forall|x: int, k: int|
        0 <= x < t.nodes.len() && 0 <= k < t.nodes[x].children.len() implies #[trigger] t.nodes[x].children[k]
        < t.nodes.len() by {}
    proof {
        forest::lemma_rank(f);
    }
    let kids = names_of(tree, &n.children);
    match n.parent {
        Some(p) => {
            assert(f.par[i as int] == Some(p));
            assert(t.nodes[p as int] == tree.nodes@[p as int]@);
            let sibs = names_of(tree, &tree.nodes[p].children);
            first_match(rs, n.name.as_str(), Some(&sibs), &kids)
        },
        None => first_match(rs, n.name.as_str(), None, &kids),
    }
}

/// Scan the tree for cache directories, returning top-most hits sorted by size.
pub fn detect(tree: &Tree) -> (r: Vec<CacheHit>)
    requires
        tree@.traceable(),
    ensures
        order::sorted_desc(
            hits_upto(tree@, tree@.nodes.len()),
            hit_sizes(hits_upto(tree@, tree@.nodes.len())),
            hits_view(r@),
        ),
{
    let ghost t = tree@;
    let ghost f = scan::links(t.nodes);
    let rs = rules::rules();
    let n: usize = tree.nodes.len();
    let mut matched: Vec<Option<(Category, &'static str)>> = Vec::new();
    let mut i: usize = 0;
    while i < n
        invariant
            t == tree@,
            t.traceable(),
            n == tree.nodes@.len(),
            rules::rules_view(rs@) == rules::all_rules(),
            i <= n,
            matched@.len() == i,
            forall|x: int|
                0 <= x < i ==> rules::found(#[trigger] matched@[x]) == rules::verdict(
                    node_rule(t, x),
                ),
        decreases n - i,
    {
        matched.push(judge(tree, &rs, i));
        i += 1;
    }
    let mut hits: Vec<CacheHit> = Vec::new();
    let mut keys: Vec<u64> = Vec::new();
    let mut i: usize = 0;
    assert(hits_view(hits@) =~= Seq::<HitView>::empty());
    assert(hit_sizes(Seq::<HitView>::empty()) =~= Seq::<u64>::empty());
    while i < n
        invariant
            t == tree@,
            t.traceable(),
            f == scan::links(t.nodes),
            n == tree.nodes@.len(),
            i <= n,
            matched@.len() == n,
            forall|x: int|
                0 <= x < n ==> rules::found(#[trigger] matched@[x]) == rules::verdict(
                    node_rule(t, x),
                ),
            hits_view(hits@) == hits_upto(t, i as nat),
            keys@ == hit_sizes(hits_upto(t, i as nat)),
        decreases n - i,
    {
        assert(t.nodes[i as int] == tree.nodes@[i as int]@);
        assert(rules::found(matched@[i as int]) == rules::verdict(node_rule(t, i as int)));
        if let Some((category, note)) = matched[i] {
            // Skip if an ancestor is also a cache hit.
            let mut anc: Option<usize> = tree.nodes[i].parent;
            let mut inside = false;
            proof {
                forest::lemma_rank(f);
                assert(f.par[i as int] == t.nodes[i as int].parent);
            }
            while !inside && anc.is_some()
                invariant
                    t == tree@,
                    t.traceable(),
                    f == scan::links(t.nodes),
                    forest::ranked(f, forest::ranking(f).0, forest::ranking(f).1),
                    n == tree.nodes@.len(),
                    i < n,
                    matched@.len() == n,
                    forall|x: int|
                        0 <= x < n ==> rules::found(#[trigger] matched@[x]) == rules::verdict(
                            node_rule(t, x),
                        ),
                    anc matches Some(a) ==> a < n,
                    inside ==> nested(t, i as int),
                    !inside ==> nested(t, i as int) == (match anc {
                        Some(a) => node_rule(t, a as int) is Some || nested(t, a as int),
                        None => false,
                    }),
                decreases
                    (match anc {
                        Some(a) => forest::rank(f, a as int) + 1,
                        None => 0,
                    }) + (if inside {
                        0int
                    } else {
                        1int
                    }),
            {
                if let Some(a) = anc {
                    assert(f.par[a as int] == t.nodes[a as int].parent);
                    assert(t.nodes[a as int] == tree.nodes@[a as int]@);
                    assert(rules::found(matched@[a as int]) == rules::verdict(
                        node_rule(t, a as int),
                    ));
                    if matched[a].is_some() {
                        inside = true;
                    } else {
                        anc = tree.nodes[a].parent;
                    }
                }
            }
            if !inside && tree.nodes[i].size > 0 {
                let ghost before = hits_view(hits@);
                let h = CacheHit {
                    node_idx: i,
                    path: tree.path(i),
                    size: tree.nodes[i].size,
                    category,
                    note,
                };
                let ghost v = h@;
                assert(v == hit_of(t, i as int));
                keys.push(h.size);
                hits.push(h);
                assert(hits_view(hits@) =~= before.push(v));
                assert(keys@ =~= hit_sizes(before.push(v)));
            }
        }
        i += 1;
    }
    let p = order_desc(&keys);
    let ghost all = hits_view(hits@);
    let mut out: Vec<CacheHit> = Vec::new();
    let mut k: usize = 0;
    while k < p.len()
        invariant
            k <= p@.len(),
            all == hits_view(hits@),
            keys@.len() == hits@.len(),
            order::is_order(keys@, p@),
            hits_view(out@) == order::arranged(all, p@).take(k as int),
        decreases p@.len() - k,
    {
        assert(p@[k as int] < keys@.len());
        let h = &hits[p[k]];
        let ghost before = hits_view(out@);
        out.push(
            CacheHit {
                node_idx: h.node_idx,
                path: h.path.clone(),
                size: h.size,
                category: h.category,
                note: h.note,
            },
        );
        assert(hits_view(out@) =~= before.push(h@));
        k += 1;
        assert(hits_view(out@) =~= order::arranged(all, p@).take(k as int));
    }
    assert(hits_view(out@) =~= order::arranged(all, p@));
    out
}

/// Only directories that no other hit contains are hits: no node is below two
/// hits, so sizes of hits can be added up.
pub proof fn law_hits_do_not_nest(t: TreeView, a: int, b: int)
    requires
        t.traceable(),
        t.nodes.len() <= usize::MAX,
        0 <= a < t.nodes.len(),
        0 <= b < t.nodes.len(),
        is_hit(t, a),
        is_hit(t, b),
    ensures
        !removal::above(t.nodes, a, b),
{
    lemma_above_nested(t, a, b);
}

/// What is below a cache is nested.
proof fn lemma_above_nested(t: TreeView, a: int, b: int)
    requires
        t.traceable(),
        t.nodes.len() <= usize::MAX,
        0 <= a < t.nodes.len(),
        0 <= b < t.nodes.len(),
        node_rule(t, a) is Some,
    ensures
        removal::above(t.nodes, a, b) ==> nested(t, b),
    decreases forest::rank(scan::links(t.nodes), b),
{
    let f = scan::links(t.nodes);
    forest::lemma_rank(f);
    assert(f.par[b] == t.nodes[b].parent);
    if removal::above(t.nodes, a, b) {
        match f.par[b] {
            Some(p) => {
                let up = forest::lineage(f, p as int);
                forest::lemma_lineage(f, p as int);
                assert(forest::lineage(f, b).drop_last() =~= up);
                let j = choose|j: int| 0 <= j < up.len() && up[j] == a as usize;
                if j < up.len() - 1 {
                    assert(up.drop_last()[j] == a as usize);
                    lemma_above_nested(t, a, p as int);
                }
            },
            None => {
                assert(forest::lineage(f, b).drop_last() =~= Seq::<usize>::empty());
            },
        }
    }
}

/// The scan root is never a hit, and neither is a file or what has been removed.
pub proof fn law_root_is_no_hit(t: TreeView, i: int)
    requires
        i == t.root || !t.nodes[i].is_dir || t.nodes[i].removed,
    ensures
        !is_hit(t, i),
{
}

// ---- by the names around a directory ----------------------------------------------

/// The names around a directory: those of its parent's entries, and its own.
pub struct Context {
    pub siblings: Option<Vec<String>>,
    pub children: Vec<String>,
}

/// What is around a directory.
#[verifier::ext_equal]
pub struct ContextView {
    pub siblings: Option<Seq<Seq<char>>>,
    pub children: Seq<Seq<char>>,
}

impl View for Context {
    type V = ContextView;

    open spec fn view(&self) -> ContextView {
        ContextView {
            siblings: match self.siblings {
                Some(s) => Some(text::strs(s@)),
                None => None,
            },
            children: text::strs(self.children@),
        }
    }
}

fn as_slices(v: &Vec<String>) -> (r: Vec<&str>)
    ensures
        text::slices(r@) == text::strs(v@),
{
    let mut out: Vec<&str> = Vec::new();
    let mut i: usize = 0;
    while i < v.len()
        invariant
            i <= v@.len(),
            text::slices(out@) == text::strs(v@).take(i as int),
        decreases v@.len() - i,
    {
        let ghost before = text::slices(out@);
        let s = v[i].as_str();
        out.push(s);
        assert(text::slices(out@) =~= before.push(s@));
        i += 1;
        assert(text::slices(out@) =~= text::strs(v@).take(i as int));
    }
    assert(text::slices(out@) =~= text::strs(v@));
    out
}

fn classify_with(rs: &Vec<Rule>, name: &str, context: &Context) -> (r: Option<
    (Category, &'static str),
>)
    requires
        rules::rules_view(rs@) == rules::all_rules(),
    ensures
        rules::found(r) == rules::verdict(
            rules::classified(name@, context@.siblings, context@.children),
        ),
{
    let kids = as_slices(&context.children);
    match &context.siblings {
        Some(s) => {
            let sibs = as_slices(s);
            first_match(rs, name, Some(&sibs), &kids)
        },
        None => first_match(rs, name, None, &kids),
    }
}

/// The category and the note of the directory called `name`, where it is a cache.
pub fn classify(name: &str, context: &Context) -> (r: Option<(Category, &'static str)>)
    ensures
        rules::found(r) == rules::verdict(
            rules::classified(name@, context@.siblings, context@.children),
        ),
{
    let rs = rules::rules();
    classify_with(&rs, name, context)
}

// ---- in an index ------------------------------------------------------------------

/// A cache directory found in an index.
pub struct IndexHit {
    pub path: String,
    /// Bytes that deleting it frees: those that no other file shares.
    pub private: u64,
    pub size: u64,
    pub files: u64,
    pub category: Category,
    pub note: &'static str,
}

/// What a hit in an index says.
#[verifier::ext_equal]
pub struct IndexHitView {
    pub path: Seq<char>,
    pub private: u64,
    pub size: u64,
    pub files: u64,
    pub category: Category,
    pub note: Seq<char>,
}

impl View for IndexHit {
    type V = IndexHitView;

    open spec fn view(&self) -> IndexHitView {
        IndexHitView {
            path: self.path@,
            private: self.private,
            size: self.size,
            files: self.files,
            category: self.category,
            note: self.note@,
        }
    }
}

/// The hits, each as what it says.
pub open spec fn index_hits_view(v: Seq<IndexHit>) -> Seq<IndexHitView> {
    v.map_values(|h: IndexHit| h@)
}

/// The contexts of the records; none where nothing is known.
pub open spec fn contexts_view(v: Seq<Option<Context>>) -> Seq<Option<ContextView>> {
    v.map_values(
        |c: Option<Context>|
            match c {
                Some(c) => Some(c@),
                None => None,
            },
    )
}

/// Whether the record may be a cache by its name. The root never is one.
pub open spec fn is_candidate(v: IndexView, i: int) -> bool {
    i != v.root_ix && rules::name_listed(v.dirs[i].name)
}

/// The rule by which a record is a cache, going by the names around it. A record
/// of which nothing is known is none.
pub open spec fn rec_rule(v: IndexView, ctx: Seq<Option<ContextView>>, i: int) -> Option<RuleView> {
    if i == v.root_ix {
        None
    } else {
        match ctx[i] {
            Some(c) => rules::classified(v.dirs[i].name, c.siblings, c.children),
            None => None,
        }
    }
}

/// Whether a record above `i` is a cache.
pub open spec fn rec_nested(v: IndexView, ctx: Seq<Option<ContextView>>, i: int) -> bool
    decreases forest::rank(index::dir_links(v.dirs), i),
    when v.wf() && 0 <= i < v.dirs.len()
    via rec_nested_decreases
{
    match v.dirs[i].parent {
        Some(p) => rec_rule(v, ctx, p as int) is Some || rec_nested(v, ctx, p as int),
        None => false,
    }
}

#[via_fn]
proof fn rec_nested_decreases(v: IndexView, ctx: Seq<Option<ContextView>>, i: int) {
    let f = index::dir_links(v.dirs);
    forest::lemma_rank(f);
    if let Some(p) = v.dirs[i].parent {
        assert(f.par[i] == Some(p as usize));
    }
}

/// Whether a record is a hit: a cache that is not empty and lies in no other one.
pub open spec fn rec_hit(v: IndexView, ctx: Seq<Option<ContextView>>, i: int) -> bool {
    rec_rule(v, ctx, i) is Some && !rec_nested(v, ctx, i) && v.dirs[i].subtree_bytes > 0
}

/// The hit for a record.
pub open spec fn rec_hit_of(v: IndexView, ctx: Seq<Option<ContextView>>, i: int) -> IndexHitView {
    let r = rec_rule(v, ctx, i)->0;
    let d = v.dirs[i];
    IndexHitView {
        path: index::rec_path(v, i),
        private: d.subtree_private,
        size: d.subtree_bytes,
        files: d.subtree_files,
        category: r.category,
        note: r.note,
    }
}

/// The hits among the first `k` records, in the order of the records.
pub open spec fn rec_hits_upto(v: IndexView, ctx: Seq<Option<ContextView>>, k: nat) -> Seq<
    IndexHitView,
>
    decreases k,
{
    if k == 0 {
        Seq::empty()
    } else {
        let before = rec_hits_upto(v, ctx, (k - 1) as nat);
        if rec_hit(v, ctx, k - 1) {
            before.push(rec_hit_of(v, ctx, k - 1))
        } else {
            before
        }
    }
}

/// The sizes of hits in an index.
pub open spec fn index_hit_sizes(hs: Seq<IndexHitView>) -> Seq<u64> {
    hs.map_values(|h: IndexHitView| h.size)
}

/// The records whose context decides whether they are caches, in order.
pub open spec fn candidates_upto(v: IndexView, k: nat) -> Seq<u32>
    decreases k,
{
    if k == 0 {
        Seq::empty()
    } else {
        let before = candidates_upto(v, (k - 1) as nat);
        if is_candidate(v, k - 1) {
            before.push((k - 1) as u32)
        } else {
            before
        }
    }
}

/// The records whose context decides whether they are caches.
pub fn candidates(idx: &Index) -> (r: Vec<u32>)
    requires
        idx.dirs@.len() <= u32::MAX,
    ensures
        r@ == candidates_upto(idx@, idx@.dirs.len()),
{
    let ghost v = idx@;
    let rs = rules::rules();
    let mut out: Vec<u32> = Vec::new();
    let mut i: usize = 0;
    while i < idx.dirs.len()
        invariant
            v == idx@,
            idx.dirs@.len() <= u32::MAX,
            rules::rules_view(rs@) == rules::all_rules(),
            i <= idx.dirs@.len(),
            out@ == candidates_upto(v, i as nat),
        decreases idx.dirs@.len() - i,
    {
        assert(v.dirs[i as int] == idx.dirs@[i as int]@);
        let here: u32 = i as u32;
        if here != idx.root_ix && may_match(&rs, idx.dirs[i].name.as_str()) {
            out.push(here);
        }
        i += 1;
    }
    out
}

/// What is around a record that is no candidate does not matter.
pub proof fn law_only_candidates_count(v: IndexView, ctx: Seq<Option<ContextView>>, i: int)
    requires
        0 <= i < v.dirs.len(),
        !is_candidate(v, i),
    ensures
        rec_rule(v, ctx, i) is None,
{
    if i != v.root_ix && ctx[i] is Some {
        let c = ctx[i]->0;
        assert forall|k: int| 0 <= k < rules::all_rules().len() implies !rules::name_fits(
            #[trigger] rules::all_rules()[k],
            v.dirs[i].name,
        ) by {}
        rules::lemma_unlisted(rules::all_rules(), v.dirs[i].name, c.siblings, c.children);
    }
}

/// The caches of an index, top-most hits sorted by size, going by the names around
/// each record.
pub fn detect_in_index(idx: &Index, contexts: &Vec<Option<Context>>) -> (r: Vec<IndexHit>)
    requires
        idx@.wf(),
        idx.dirs@.len() <= u32::MAX,
        contexts@.len() == idx.dirs@.len(),
    ensures
        ({
            let hs = rec_hits_upto(idx@, contexts_view(contexts@), idx@.dirs.len());
            order::sorted_desc(hs, index_hit_sizes(hs), index_hits_view(r@))
        }),
{
    let ghost v = idx@;
    let ghost ctx = contexts_view(contexts@);
    let ghost f = index::dir_links(v.dirs);
    let rs = rules::rules();
    let n: usize = idx.dirs.len();
    let mut matched: Vec<Option<(Category, &'static str)>> = Vec::new();
    let mut i: usize = 0;
    while i < n
        invariant
            v == idx@,
            ctx == contexts_view(contexts@),
            n == idx.dirs@.len(),
            n == contexts@.len(),
            n <= u32::MAX,
            rules::rules_view(rs@) == rules::all_rules(),
            i <= n,
            matched@.len() == i,
            forall|x: int|
                0 <= x < i ==> rules::found(#[trigger] matched@[x]) == rules::verdict(
                    rec_rule(v, ctx, x),
                ),
        decreases n - i,
    {
        assert(v.dirs[i as int] == idx.dirs@[i as int]@);
        let m = if i as u32 == idx.root_ix {
            None
        } else {
            match &contexts[i] {
                Some(c) => classify_with(&rs, idx.dirs[i].name.as_str(), c),
                None => None,
            }
        };
        matched.push(m);
        i += 1;
    }
    let mut hits: Vec<IndexHit> = Vec::new();
    let mut keys: Vec<u64> = Vec::new();
    let mut i: usize = 0;
    assert(index_hits_view(hits@) =~= Seq::<IndexHitView>::empty());
    assert(index_hit_sizes(Seq::<IndexHitView>::empty()) =~= Seq::<u64>::empty());
    while i < n
        invariant
            v == idx@,
            v.wf(),
            ctx == contexts_view(contexts@),
            f == index::dir_links(v.dirs),
            n == idx.dirs@.len(),
            n <= u32::MAX,
            i <= n,
            matched@.len() == n,
            forall|x: int|
                0 <= x < n ==> rules::found(#[trigger] matched@[x]) == rules::verdict(
                    rec_rule(v, ctx, x),
                ),
            index_hits_view(hits@) == rec_hits_upto(v, ctx, i as nat),
            keys@ == index_hit_sizes(rec_hits_upto(v, ctx, i as nat)),
        decreases n - i,
    {
        assert(v.dirs[i as int] == idx.dirs@[i as int]@);
        assert(rules::found(matched@[i as int]) == rules::verdict(rec_rule(v, ctx, i as int)));
        if let Some((category, note)) = matched[i] {
            let mut anc: Option<u32> = idx.dirs[i].parent;
            let mut inside = false;
            proof {
                forest::lemma_rank(f);
                if let Some(a) = anc {
                    assert(f.par[i as int] == Some(a as usize));
                }
            }
            while !inside && anc.is_some()
                invariant
                    v == idx@,
                    v.wf(),
                    f == index::dir_links(v.dirs),
                    forest::ranked(f, forest::ranking(f).0, forest::ranking(f).1),
                    n == idx.dirs@.len(),
                    i < n,
                    matched@.len() == n,
                    forall|x: int|
                        0 <= x < n ==> rules::found(#[trigger] matched@[x]) == rules::verdict(
                            rec_rule(v, ctx, x),
                        ),
                    anc matches Some(a) ==> a < n,
                    inside ==> rec_nested(v, ctx, i as int),
                    !inside ==> rec_nested(v, ctx, i as int) == (match anc {
                        Some(a) => rec_rule(v, ctx, a as int) is Some || rec_nested(
                            v,
                            ctx,
                            a as int,
                        ),
                        None => false,
                    }),
                decreases
                    (match anc {
                        Some(a) => forest::rank(f, a as int) + 1,
                        None => 0,
                    }) + (if inside {
                        0int
                    } else {
                        1int
                    }),
            {
                if let Some(a) = anc {
                    assert(v.dirs[a as int] == idx.dirs@[a as int]@);
                    assert(rules::found(matched@[a as int]) == rules::verdict(
                        rec_rule(v, ctx, a as int),
                    ));
                    if matched[a as usize].is_some() {
                        inside = true;
                    } else {
                        anc = idx.dirs[a as usize].parent;
                        proof {
                            if let Some(b) = anc {
                                assert(f.par[a as int] == Some(b as usize));
                            }
                        }
                    }
                }
            }
            if !inside && idx.dirs[i].subtree_bytes > 0 {
                let ghost before = index_hits_view(hits@);
                let h = IndexHit {
                    path: idx.path_of(i as u32),
                    private: idx.dirs[i].subtree_private,
                    size: idx.dirs[i].subtree_bytes,
                    files: idx.dirs[i].subtree_files,
                    category,
                    note,
                };
                let ghost hv = h@;
                assert(hv == rec_hit_of(v, ctx, i as int));
                keys.push(h.size);
                hits.push(h);
                assert(index_hits_view(hits@) =~= before.push(hv));
                assert(keys@ =~= index_hit_sizes(before.push(hv)));
            }
        }
        i += 1;
    }
    let p = order_desc(&keys);
    let ghost all = index_hits_view(hits@);
    let mut out: Vec<IndexHit> = Vec::new();
    let mut k: usize = 0;
    while k < p.len()
        invariant
            k <= p@.len(),
            all == index_hits_view(hits@),
            keys@.len() == hits@.len(),
            order::is_order(keys@, p@),
            index_hits_view(out@) == order::arranged(all, p@).take(k as int),
        decreases p@.len() - k,
    {
        assert(p@[k as int] < keys@.len());
        let h = &hits[p[k]];
        let ghost before = index_hits_view(out@);
        out.push(copy_hit(h));
        assert(index_hits_view(out@) =~= before.push(h@));
        k += 1;
        assert(index_hits_view(out@) =~= order::arranged(all, p@).take(k as int));
    }
    assert(index_hits_view(out@) =~= order::arranged(all, p@));
    out
}

pub(crate) fn copy_hit(h: &IndexHit) -> (r: IndexHit)
    ensures
        r@ == h@,
{
    IndexHit {
        path: h.path.clone(),
        private: h.private,
        size: h.size,
        files: h.files,
        category: h.category,
        note: h.note,
    }
}

} // verus!
