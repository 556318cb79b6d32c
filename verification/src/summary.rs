//! A scanned tree in short, for a terminal: totals, the largest entries, and the dev
//! caches.

use vstd::prelude::*;

use crate::caches;
use crate::caches::{CacheHit, HitView};
use crate::cli;
use crate::path::strip_prefix;
use crate::rules;
use crate::scan;
use crate::scan::{Tree, TreeView};
use crate::text;
use crate::text::{align_right, decimal_string};
use crate::util;
use crate::util::human;
use crate::window::hits_total;

verus! {

/// How many of the largest entries are listed.
pub const ENTRIES_SHOWN: usize = 20;

/// How many of the caches are listed.
pub const CACHES_SHOWN: usize = 25;

/// The row of a node: its size and its name, with a slash behind that of a directory.
pub open spec fn entry_row(t: TreeView, x: int) -> Seq<char> {
    let n = t.nodes[x];
    "  "@ + text::right_aligned(util::human_size(n.size), 10) + "  "@ + n.name + (if n.is_dir {
        "/"@
    } else {
        ""@
    }) + "\n"@
}

/// The rows of the first `k` children of the root.
pub open spec fn entry_rows(t: TreeView, k: nat) -> Seq<char>
    decreases k,
{
    if k == 0 {
        Seq::empty()
    } else {
        entry_rows(t, (k - 1) as nat) + entry_row(
            t,
            t.nodes[t.root as int].children[k - 1] as int,
        )
    }
}

/// The row of a cache: its size, its kind, and where it is below the root.
pub open spec fn cache_row(h: HitView, root: Seq<char>) -> Seq<char> {
    "  "@ + text::right_aligned(util::human_size(h.size), 10) + "  ["@ + rules::category_label(
        h.category,
    ) + "] "@ + cli::relative(h.path, root) + "\n"@
}

/// The rows of the first `k` caches.
pub open spec fn cache_rows(hs: Seq<HitView>, root: Seq<char>, k: nat) -> Seq<char>
    decreases k,
{
    if k == 0 {
        Seq::empty()
    } else {
        cache_rows(hs, root, (k - 1) as nat) + cache_row(hs[k - 1], root)
    }
}

/// The lines over the rows of the entries.
pub open spec fn entries_head(t: TreeView, secs: Seq<char>) -> Seq<char> {
    let n = t.nodes[t.root as int];
    "\n"@ + t.root_path + "\n  "@ + util::human_size(n.size) + " across "@ + text::decimal(
        n.file_count as nat,
    ) + " files in "@ + secs + "s\n\nLargest entries:\n"@
}

/// The line over the rows of the caches.
pub open spec fn caches_head(hs: Seq<HitView>) -> Seq<char> {
    "\nDev caches: "@ + util::human_size(util::sum64(caches::hit_sizes(hs)))
        + " reclaimable across "@ + text::decimal(hs.len()) + " dirs\n"@
}

/// A scanned tree in short.
pub open spec fn summary(t: TreeView, secs: Seq<char>, hs: Seq<HitView>) -> Seq<char> {
    let kids = t.nodes[t.root as int].children;
    entries_head(t, secs) + entry_rows(t, cli::at_most(kids.len(), ENTRIES_SHOWN as nat))
        + caches_head(hs) + cache_rows(
        hs,
        t.root_path,
        cli::at_most(hs.len(), CACHES_SHOWN as nat),
    )
}

fn entries_text(tree: &Tree) -> (r: String)
    requires
        tree@.wf(),
    ensures
        r@ == entry_rows(
            tree@,
            cli::at_most(tree@.nodes[tree.root as int].children.len(), ENTRIES_SHOWN as nat),
        ),
{
    let ghost t = tree@;
    let ghost f = scan::links(t.nodes);
    assert(t.nodes[tree.root as int] == tree.nodes@[tree.root as int]@);
    let kids = &tree.nodes[tree.root].children;
    let n: usize = if kids.len() < ENTRIES_SHOWN {
        kids.len()
    } else {
        ENTRIES_SHOWN
    };
    let mut s = String::new();
    assert(s@ =~= entry_rows(t, 0));
    let mut i: usize = 0;
    while i < n
        invariant
            t == tree@,
            t.wf(),
            f == scan::links(t.nodes),
            kids@ == t.nodes[tree.root as int].children,
            n <= kids@.len(),
            i <= n,
            s@ == entry_rows(t, i as nat),
        decreases n - i,
    {
        assert(f.kids[tree.root as int] == kids@);
        assert(f.kids[tree.root as int][i as int] < f.len());
        let c: usize = kids[i];
        let x = &tree.nodes[c];
        assert(t.nodes[c as int] == x@);
        let mut row = "  ".to_owned();
        row.append(align_right(human(x.size).as_str(), 10).as_str());
        row.append("  ");
        row.append(x.name.as_str());
        row.append(
            if x.is_dir {
                "/"
            } else {
                ""
            },
        );
        row.append("\n");
        s.append(row.as_str());
        i += 1;
    }
    s
}

fn caches_text(hits: &Vec<CacheHit>, root: &str) -> (r: String)
    ensures
        r@ == cache_rows(
            caches::hits_view(hits@),
            root@,
            cli::at_most(hits@.len(), CACHES_SHOWN as nat),
        ),
{
    let ghost hs = caches::hits_view(hits@);
    let n: usize = if hits.len() < CACHES_SHOWN {
        hits.len()
    } else {
        CACHES_SHOWN
    };
    let mut s = String::new();
    assert(s@ =~= cache_rows(hs, root@, 0));
    let mut i: usize = 0;
    while i < n
        invariant
            hs == caches::hits_view(hits@),
            n <= hits@.len(),
            i <= n,
            s@ == cache_rows(hs, root@, i as nat),
        decreases n - i,
    {
        let h = &hits[i];
        assert(hs[i as int] == h@);
        let shown = match strip_prefix(h.path.as_str(), root) {
            Some(rest) => rest,
            None => h.path.clone(),
        };
        let mut row = "  ".to_owned();
        row.append(align_right(human(h.size).as_str(), 10).as_str());
        row.append("  [");
        row.append(h.category.label());
        row.append("] ");
        row.append(shown.as_str());
        row.append("\n");
        s.append(row.as_str());
        i += 1;
    }
    s
}

/// A scanned tree in short. `secs` is how long the scan took, in seconds, and `hits`
/// are the caches of the tree.
pub fn run_cli(tree: &Tree, secs: &str, hits: &Vec<CacheHit>) -> (r: String)
    requires
        tree@.wf(),
    ensures
        r@ == summary(tree@, secs@, caches::hits_view(hits@)),
{
    assert(tree@.nodes[tree.root as int] == tree.nodes@[tree.root as int]@);
    let root = &tree.nodes[tree.root];
    let mut s = "\n".to_owned();
    s.append(tree.root_path.as_str());
    s.append("\n  ");
    s.append(human(root.size).as_str());
    s.append(" across ");
    s.append(decimal_string(root.file_count).as_str());
    s.append(" files in ");
    s.append(secs);
    s.append("s\n\nLargest entries:\n");
    s.append(entries_text(tree).as_str());
    let mut head = "\nDev caches: ".to_owned();
    head.append(human(hits_total(hits)).as_str());
    head.append(" reclaimable across ");
    head.append(decimal_string(hits.len() as u64).as_str());
    head.append(" dirs\n");
    s.append(head.as_str());
    s.append(caches_text(hits, tree.root_path.as_str()).as_str());
    s
}

} // verus!
