//! What the texts for people tell, and what the panels show.

use vstd::prelude::*;

use crate::caches::{Category, HitView};
use crate::cleanup::{ItemView, OutcomeView};
use crate::cli;
use crate::forest;
use crate::index::{IndexView, Mode};
use crate::order;
use crate::panels;
use crate::panels::Row;
use crate::path;
use crate::report;
use crate::report::ListedView;
use crate::rules;
use crate::scan;
use crate::scan::{NodeView, TreeView};
use crate::summary;
use crate::text;
use crate::text_laws;
use crate::util;

verus! {

// ---- parts of texts -------------------------------------------------------------------------

/// A part occurs in the whole, and so does all that occurs in the part.
proof fn lemma_part(a: Seq<char>, b: Seq<char>, c: Seq<char>, x: Seq<char>)
    ensures
        text::occurs_in(a + b + c, b),
        text::occurs_in(b, x) ==> text::occurs_in(a + b + c, x),
        text::occurs_in(b, x) ==> text::occurs_in(a + b, x) && text::occurs_in(b + c, x),
        text::occurs_in(b, b),
{
    let t = a + b + c;
    assert(t.subrange(a.len() as int, (a.len() + b.len()) as int) =~= b);
    assert(text::occurs_at(t, b, a.len() as int));
    assert(b.subrange(0, b.len() as int) =~= b);
    assert(text::occurs_at(b, b, 0));
    if text::occurs_in(b, x) {
        let i = choose|i: int| #[trigger] text::occurs_at(b, x, i);
        assert(t.subrange(a.len() + i, a.len() + i + x.len()) =~= b.subrange(i, i + x.len()));
        assert(text::occurs_at(t, x, a.len() + i));
        assert((a + b).subrange(a.len() + i, a.len() + i + x.len()) =~= b.subrange(i, i + x.len()));
        assert(text::occurs_at(a + b, x, a.len() + i));
        assert((b + c).subrange(i, i + x.len()) =~= b.subrange(i, i + x.len()));
        assert(text::occurs_at(b + c, x, i));
    }
}

/// Texts can be put together in any grouping.
pub proof fn lemma_add(a: Seq<char>, x: Seq<char>, y: Seq<char>)
    ensures
        a + (x + y) == (a + x) + y,
{
    assert(a + (x + y) =~= (a + x) + y);
}

/// What occurs in a text occurs in it with more behind it.
pub proof fn lemma_more(a: Seq<char>, b: Seq<char>, x: Seq<char>)
    requires
        text::occurs_in(a, x),
    ensures
        text::occurs_in(a + b, x),
{
    lemma_part(Seq::empty(), a, b, x);
}

/// What stands at the end of a text occurs in it.
pub proof fn lemma_end(a: Seq<char>, x: Seq<char>)
    ensures
        text::occurs_in(a + x, x),
{
    let e = Seq::<char>::empty();
    lemma_part(a, x, e, x);
}

/// What occurs in a text occurs in it with more before it.
pub proof fn lemma_behind(a: Seq<char>, b: Seq<char>, x: Seq<char>)
    requires
        text::occurs_in(b, x),
    ensures
        text::occurs_in(a + b, x),
{
    lemma_part(a, b, Seq::empty(), x);
}

/// What a row for a cache tells: what deleting it frees, its kind, where it is, and what is
/// to be remarked.
pub open spec fn cache_words(l: ListedView, shown: Seq<char>) -> Seq<char> {
    text::right_aligned(util::human_size(l.hit.private), 10) + "  ["@ + rules::category_label(
        l.hit.category,
    ) + "] "@ + shown + report::remark(l) + "\n"@
}

proof fn lemma_row(l: ListedView, shown: Seq<char>)
    ensures
        text::occurs_in(cli::row_text(l, shown), cache_words(l, shown)),
{
    let a = "  "@;
    let x1 = text::right_aligned(util::human_size(l.hit.private), 10);
    let x2 = x1 + "  ["@;
    let x3 = x2 + rules::category_label(l.hit.category);
    let x4 = x3 + "] "@;
    let x5 = x4 + shown;
    let x6 = x5 + report::remark(l);
    lemma_add(a, x6, "\n"@);
    lemma_add(a, x5, report::remark(l));
    lemma_add(a, x4, shown);
    lemma_add(a, x3, "] "@);
    lemma_add(a, x2, rules::category_label(l.hit.category));
    lemma_add(a, x1, "  ["@);
    lemma_end(a, cache_words(l, shown));
}

proof fn lemma_rows(ls: Seq<ListedView>, k: nat, i: int)
    requires
        0 <= i < k <= ls.len(),
    ensures
        text::occurs_in(cli::rows_upto(ls, k), cache_words(ls[i], ls[i].hit.path)),
    decreases k,
{
    let e = Seq::<char>::empty();
    let before = cli::rows_upto(ls, (k - 1) as nat);
    let row = cli::row_text(ls[k - 1], ls[k - 1].hit.path);
    let x = cache_words(ls[i], ls[i].hit.path);
    if i < k - 1 {
        lemma_rows(ls, (k - 1) as nat, i);
        lemma_part(e, before, row, x);
    } else {
        lemma_row(ls[i], ls[i].hit.path);
        lemma_part(before, row, e, x);
    }
}

/// The caches are told with what they free altogether and how many they are, and then each
/// in its row, with what deleting it frees.
pub proof fn law_caches_are_told_with_what_they_free(p: Seq<char>, ls: Seq<ListedView>, i: int)
    requires
        0 <= i < ls.len(),
    ensures
        (util::human_size(report::free_bytes(ls)) + " reclaimable across "@ + text::decimal(
            ls.len(),
        ) + " dirs under "@ + p).is_prefix_of(cli::caches_told(p, ls)),
        text::occurs_in(
            cli::caches_told(p, ls),
            util::human_size(report::apparent_bytes(ls)) + " apparent)"@,
        ),
        text::occurs_in(cli::caches_told(p, ls), cache_words(ls[i], ls[i].hit.path)),
{
    let head = util::human_size(report::free_bytes(ls)) + " reclaimable across "@ + text::decimal(
        ls.len(),
    ) + " dirs under "@ + p;
    let rows = cli::rows_upto(ls, ls.len());
    let seeming = util::human_size(report::apparent_bytes(ls));
    let a = head + "  ("@;
    let b = a + seeming;
    let c = b + " apparent)\n"@;
    assert(cli::caches_told(p, ls) == c + rows);
    text_laws::lemma_front(head, "  ("@);
    text_laws::lemma_longer(head, a, seeming);
    text_laws::lemma_longer(head, b, " apparent)\n"@);
    text_laws::lemma_longer(head, c, rows);
    assert(" apparent)\n"@ =~= " apparent)"@ + "\n"@) by {
        reveal_strlit(" apparent)\n");
        reveal_strlit(" apparent)");
        reveal_strlit("\n");
    }
    lemma_add(b, " apparent)"@, "\n"@);
    lemma_add(a, seeming, " apparent)"@);
    lemma_end(a, seeming + " apparent)"@);
    lemma_more(b + " apparent)"@, "\n"@, seeming + " apparent)"@);
    lemma_more(c, rows, seeming + " apparent)"@);
    lemma_rows(ls, ls.len(), i);
    lemma_behind(c, rows, cache_words(ls[i], ls[i].hit.path));
}

proof fn lemma_rows_below(ls: Seq<ListedView>, root: Seq<char>, k: nat, i: int)
    requires
        0 <= i < k <= ls.len(),
    ensures
        text::occurs_in(
            cli::rows_below(ls, root, k),
            cache_words(ls[i], cli::relative(ls[i].hit.path, root)),
        ),
    decreases k,
{
    let e = Seq::<char>::empty();
    let before = cli::rows_below(ls, root, (k - 1) as nat);
    let row = cli::row_text(ls[k - 1], cli::relative(ls[k - 1].hit.path, root));
    let x = cache_words(ls[i], cli::relative(ls[i].hit.path, root));
    if i < k - 1 {
        lemma_rows_below(ls, root, (k - 1) as nat, i);
        lemma_part(e, before, row, x);
    } else {
        lemma_row(ls[i], cli::relative(ls[i].hit.path, root));
        lemma_part(before, row, e, x);
    }
}

/// A scan tells what lies below its root, what the caches free, and then the caches that
/// free most, at most 25: what frees more than one that is told is told.
pub proof fn law_scans_tell_the_caches_that_free_most(
    root: Seq<char>,
    v: IndexView,
    mode: Mode,
    why: Seq<char>,
    secs: Seq<char>,
    ls: Seq<ListedView>,
    t: Seq<char>,
    l: ListedView,
)
    requires
        cli::scan_told(root, v, mode, why, secs, ls, t),
        ls.len() <= usize::MAX,
        ls.contains(l),
    ensures
        text::occurs_in(
            t,
            util::human_size(v.dirs[v.root_ix as int].subtree_bytes) + " across "@ + text::decimal(
                v.dirs[v.root_ix as int].subtree_files as nat,
            ) + " files in "@ + secs,
        ),
        text::occurs_in(
            t,
            "Dev caches: "@ + util::human_size(report::free_bytes(ls)) + " reclaimable across "@
                + text::decimal(ls.len()) + " dirs"@,
        ),
        ls.len() <= 25 ==> text::occurs_in(t, cache_words(l, cli::relative(l.hit.path, root))),
        (forall|x: ListedView| #[trigger] ls.contains(x) && x != l
            ==> x.hit.private < l.hit.private)
            ==> text::occurs_in(t, cache_words(l, cli::relative(l.hit.path, root))),
{
    let e = Seq::<char>::empty();
    let keys = cli::private_sizes(ls);
    let s = choose|s: Seq<ListedView>| #[trigger]
        order::sorted_desc(ls, keys, s) && t == cli::scan_head(root, v, mode, why, secs, ls)
            + cli::rows_below(s, root, cli::at_most(ls.len(), cli::SHOWN as nat));
    order::lemma_sorted_keeps(ls, keys, s);
    order::law_sorted_is_descending(ls, keys, s, |x: ListedView| x.hit.private);
    let key = |x: ListedView| x.hit.private;
    let n = cli::at_most(ls.len(), cli::SHOWN as nat);
    let head = cli::scan_head(root, v, mode, why, secs, ls);
    let rows = cli::rows_below(s, root, n);
    assert(s.contains(l));
    let i = choose|i: int| 0 <= i < s.len() && s[i] == l;
    if ls.len() <= 25 {
        lemma_rows_below(s, root, n, i);
        lemma_part(head, rows, e, cache_words(l, cli::relative(l.hit.path, root)));
        assert(head + rows =~= t);
    }
    if forall|x: ListedView| #[trigger] ls.contains(x) && x != l ==> x.hit.private < l.hit.private {
        assert(s.contains(s[0]));
        assert(key(s[0]) >= key(s[i]));
        assert(s[0] == l);
        lemma_rows_below(s, root, n, 0);
        lemma_part(head, rows, e, cache_words(l, cli::relative(l.hit.path, root)));
        assert(head + rows =~= t);
    }
    lemma_scan_head(root, v, mode, why, secs, ls, rows);
}

proof fn lemma_scan_head(
    root: Seq<char>,
    v: IndexView,
    mode: Mode,
    why: Seq<char>,
    secs: Seq<char>,
    ls: Seq<ListedView>,
    rows: Seq<char>,
)
    ensures
        ({
            let t = cli::scan_head(root, v, mode, why, secs, ls) + rows;
            &&& text::occurs_in(
                t,
                util::human_size(v.dirs[v.root_ix as int].subtree_bytes) + " across "@
                    + text::decimal(v.dirs[v.root_ix as int].subtree_files as nat)
                    + " files in "@ + secs,
            )
            &&& text::occurs_in(
                t,
                "Dev caches: "@ + util::human_size(report::free_bytes(ls))
                    + " reclaimable across "@ + text::decimal(ls.len()) + " dirs"@,
            )
        }),
{
    let size = util::human_size(v.dirs[v.root_ix as int].subtree_bytes);
    let files = text::decimal(v.dirs[v.root_ix as int].subtree_files as nat);
    let a = "\n"@ + root + "\n  "@;
    // the first line
    let x2 = size + " across "@;
    let x3 = x2 + files;
    let x4 = x3 + " files in "@;
    let x = x4 + secs;
    lemma_add(a, x4, secs);
    lemma_add(a, x3, " files in "@);
    lemma_add(a, x2, files);
    lemma_add(a, size, " across "@);
    lemma_end(a, x);
    let b1 = a + x + "s  ["@;
    let b2 = b1 + crate::index::mode_str(mode);
    let b3 = b2 + ": "@;
    let b4 = b3 + why;
    let b = b4 + "]\n\n"@;
    lemma_more(a + x, "s  ["@, x);
    lemma_more(b1, crate::index::mode_str(mode), x);
    lemma_more(b2, ": "@, x);
    lemma_more(b3, why, x);
    lemma_more(b4, "]\n\n"@, x);
    // the second line
    let free = util::human_size(report::free_bytes(ls));
    let n = text::decimal(ls.len());
    let y2 = "Dev caches: "@ + free;
    let y3 = y2 + " reclaimable across "@;
    let y4 = y3 + n;
    let y = y4 + " dirs"@;
    reveal_strlit(" dirs  (");
    reveal_strlit(" dirs");
    reveal_strlit("  (");
    assert(" dirs  ("@ =~= " dirs"@ + "  ("@);
    lemma_add(b + y4, " dirs"@, "  ("@);
    lemma_add(b, y4, " dirs"@);
    lemma_add(b, y3, n);
    lemma_add(b, y2, " reclaimable across "@);
    lemma_add(b, "Dev caches: "@, free);
    lemma_end(b, y);
    lemma_more(b, y, x);
    let c0 = b + y;
    let seeming = util::human_size(report::apparent_bytes(ls));
    let held = cli::in_use_part(report::held_bytes(ls));
    let c1 = c0 + "  ("@;
    let c2 = c1 + seeming;
    let c3 = c2 + " apparent"@;
    let c4 = c3 + held;
    let c5 = c4 + ")\n"@;
    lemma_more(c0, "  ("@, x);
    lemma_more(c1, seeming, x);
    lemma_more(c2, " apparent"@, x);
    lemma_more(c3, held, x);
    lemma_more(c4, ")\n"@, x);
    lemma_more(c5, rows, x);
    lemma_more(c0, "  ("@, y);
    lemma_more(c1, seeming, y);
    lemma_more(c2, " apparent"@, y);
    lemma_more(c3, held, y);
    lemma_more(c4, ")\n"@, y);
    lemma_more(c5, rows, y);
}

/// An indexed root is told with what lies below it and what its caches free.
pub proof fn law_roots_are_told_with_their_totals(v: IndexView, ls: Seq<ListedView>)
    ensures
        text::right_aligned(
            util::human_size(v.dirs[v.root_ix as int].subtree_bytes),
            10,
        ).is_prefix_of(cli::root_text(v, ls)),
        text::occurs_in(
            cli::root_text(v, ls),
            util::human_size(report::free_bytes(ls)) + " reclaimable"@,
        ),
        text::occurs_in(cli::root_text(v, ls), v.root + "\n"@),
{
    let t = cli::root_text(v, ls);
    let a = text::right_aligned(util::human_size(v.dirs[v.root_ix as int].subtree_bytes), 10);
    let free = util::human_size(report::free_bytes(ls));
    let b = text::right_aligned(free, 10);
    let mode = text::right_aligned(crate::index::mode_str(v.mode), 6);
    text_laws::law_aligned_to_the_right(free, 10);
    let pad = b.take(b.len() - free.len());
    assert(b =~= pad + free);
    reveal_strlit(" reclaimable  ");
    reveal_strlit(" reclaimable");
    reveal_strlit("  ");
    assert(" reclaimable  "@ =~= " reclaimable"@ + "  "@);
    let x = free + " reclaimable"@;
    let c0 = a + "  "@;
    lemma_add(c0, pad, free);
    lemma_add(c0 + pad, free, " reclaimable"@);
    lemma_add(c0 + b, " reclaimable"@, "  "@);
    lemma_end(c0 + pad, x);
    let c1 = c0 + b + " reclaimable"@;
    let c2 = c1 + "  "@;
    let c3 = c2 + mode;
    let c4 = c3 + "  "@;
    let c5 = c4 + v.root;
    lemma_more(c1, "  "@, x);
    lemma_more(c2, mode, x);
    lemma_more(c3, "  "@, x);
    lemma_more(c4, v.root, x);
    lemma_more(c5, "\n"@, x);
    lemma_add(c4, v.root, "\n"@);
    lemma_end(c4, v.root + "\n"@);
    lemma_front(a, "  "@);
    lemma_front_more(a, c0, b);
    lemma_front_more(a, c0 + b, " reclaimable"@);
    lemma_front_more(a, c1, "  "@);
    lemma_front_more(a, c2, mode);
    lemma_front_more(a, c3, "  "@);
    lemma_front_more(a, c4, v.root);
    lemma_front_more(a, c5, "\n"@);
    assert(t == c5 + "\n"@);
}

proof fn lemma_front(a: Seq<char>, b: Seq<char>)
    ensures
        a.is_prefix_of(a + b),
{
    assert((a + b).take(a.len() as int) =~= a);
}

proof fn lemma_front_more(a: Seq<char>, t: Seq<char>, b: Seq<char>)
    requires
        a.is_prefix_of(t),
    ensures
        a.is_prefix_of(t + b),
{
    assert((t + b).take(a.len() as int) =~= t.take(a.len() as int));
}

// ---- plans ------------------------------------------------------------------------------------

/// What the line of an item tells.
pub open spec fn item_words(i: ItemView) -> Seq<char> {
    text::right_aligned(util::human_size(i.bytes), 10) + "  "@ + i.path + "\n"@
}

proof fn lemma_planned(items: Seq<ItemView>, k: nat, i: int)
    requires
        0 <= i < k <= items.len(),
    ensures
        text::occurs_in(cli::planned_upto(items, k), item_words(items[i])),
    decreases k,
{
    let e = Seq::<char>::empty();
    let before = cli::planned_upto(items, (k - 1) as nat);
    let words = item_words(items[k - 1]);
    let x = item_words(items[i]);
    assert(cli::planned_upto(items, k) =~= before + ("  "@ + words));
    if i < k - 1 {
        lemma_planned(items, (k - 1) as nat, i);
        lemma_part(e, before, "  "@ + words, x);
    } else {
        lemma_part("  "@, words, e, words);
        lemma_part(before, "  "@ + words, e, words);
    }
}

/// A plan that is only shown tells what it would move and how much that is, and then each
/// item with its size.
pub proof fn law_previews_tell_each_item(items: Seq<ItemView>, i: int)
    requires
        0 <= i < items.len(),
    ensures
        ("Would move "@ + util::human_size(
            util::sum64(crate::cleanup::item_bytes(items)),
        ) + " to the Trash ("@ + text::decimal(items.len()) + " items)"@).is_prefix_of(
            cli::preview_told(items),
        ),
        text::occurs_in(cli::preview_told(items), item_words(items[i])),
{
    let e = Seq::<char>::empty();
    let t = cli::preview_told(items);
    let head = "Would move "@ + util::human_size(util::sum64(crate::cleanup::item_bytes(items)))
        + " to the Trash ("@ + text::decimal(items.len());
    reveal_strlit(" items):\n");
    reveal_strlit(" items)");
    reveal_strlit(":\n");
    assert(" items):\n"@ =~= " items)"@ + ":\n"@);
    assert(t.take((head + " items)"@).len() as int) =~= head + " items)"@);
    lemma_planned(items, items.len(), i);
    let rows = cli::planned_upto(items, items.len());
    lemma_part(head + " items):\n"@, rows, "\nRe-run with --yes to do it.\n"@, item_words(items[i]));
    assert(head + " items):\n"@ + rows + "\nRe-run with --yes to do it.\n"@ =~= t);
}

proof fn lemma_outcome_lines(os: Seq<OutcomeView>, k: nat, i: int)
    requires
        0 <= i < k <= os.len(),
    ensures
        text::occurs_in(cli::outcome_lines(os, k), cli::outcome_line(os[i])),
    decreases k,
{
    let e = Seq::<char>::empty();
    let before = cli::outcome_lines(os, (k - 1) as nat);
    let line = cli::outcome_line(os[k - 1]);
    if i < k - 1 {
        lemma_outcome_lines(os, (k - 1) as nat, i);
        lemma_part(e, before, line, cli::outcome_line(os[i]));
    } else {
        lemma_part(before, line, e, line);
    }
}

/// What became of each item is told in its own line: what was trashed with its size, and
/// what was not with the reason.
pub proof fn law_outcomes_are_told_each(os: Seq<OutcomeView>, i: int)
    requires
        0 <= i < os.len(),
    ensures
        text::occurs_in(cli::outcome_lines(os, os.len()), cli::outcome_line(os[i])),
        text::occurs_in(cli::outcome_line(os[i]), os[i].path),
        os[i].error matches Some(why) ==> text::occurs_in(cli::outcome_line(os[i]), why),
        os[i].error is None ==> text::occurs_in(
            cli::outcome_line(os[i]),
            util::human_size(os[i].bytes),
        ),
{
    let e = Seq::<char>::empty();
    let o = os[i];
    let t = cli::outcome_line(o);
    lemma_outcome_lines(os, os.len(), i);
    match o.error {
        None => {
            let size = util::human_size(o.bytes);
            let col = text::right_aligned(size, 10);
            text_laws::law_aligned_to_the_right(size, 10);
            let pad = col.take(col.len() - size.len());
            assert(col =~= pad + size);
            lemma_part("  trashed  "@ + pad, size, "  "@ + o.path + "\n"@, e);
            assert("  trashed  "@ + pad + size + ("  "@ + o.path + "\n"@) =~= t);
            lemma_part("  trashed  "@ + col + "  "@, o.path, "\n"@, e);
        },
        Some(why) => {
            lemma_part("  FAILED   "@, o.path, "  ("@ + why + ")\n"@, e);
            assert("  FAILED   "@ + o.path + ("  ("@ + why + ")\n"@) =~= t);
            lemma_part("  FAILED   "@ + o.path + "  ("@, why, ")\n"@, e);
        },
    }
}

/// What is skipped is told with the reason.
pub proof fn law_skipped_is_told_with_the_reason(rs: Seq<(Seq<char>, Seq<char>)>, k: nat, i: int)
    requires
        0 <= i < k <= rs.len(),
    ensures
        text::occurs_in(cli::skipped_upto(rs, k), rs[i].0 + "  ("@ + rs[i].1 + ")\n"@),
    decreases k,
{
    let e = Seq::<char>::empty();
    let before = cli::skipped_upto(rs, (k - 1) as nat);
    let words = rs[k - 1].0 + "  ("@ + rs[k - 1].1 + ")\n"@;
    let line = "  skipped  "@ + rs[k - 1].0 + "  ("@ + rs[k - 1].1 + ")\n"@;
    assert(line =~= "  skipped  "@ + words);
    if i < k - 1 {
        law_skipped_is_told_with_the_reason(rs, (k - 1) as nat, i);
        lemma_part(e, before, line, rs[i].0 + "  ("@ + rs[i].1 + ")\n"@);
    } else {
        lemma_part("  skipped  "@, words, e, words);
        lemma_part(before, line, e, words);
    }
}

// ---- a tree in short ----------------------------------------------------------------------------

/// What the line of an entry tells: its size and its name, with a slash behind that of a
/// directory.
pub open spec fn entry_words(n: NodeView) -> Seq<char> {
    text::right_aligned(util::human_size(n.size), 10) + "  "@ + n.name + (if n.is_dir {
        "/"@
    } else {
        ""@
    }) + "\n"@
}

proof fn lemma_entry_rows(t: TreeView, k: nat, i: int)
    requires
        0 <= i < k <= t.nodes[t.root as int].children.len(),
    ensures
        text::occurs_in(
            summary::entry_rows(t, k),
            entry_words(t.nodes[t.nodes[t.root as int].children[i] as int]),
        ),
    decreases k,
{
    let e = Seq::<char>::empty();
    let kids = t.nodes[t.root as int].children;
    let before = summary::entry_rows(t, (k - 1) as nat);
    let row = summary::entry_row(t, kids[k - 1] as int);
    let words = entry_words(t.nodes[kids[k - 1] as int]);
    assert(row =~= "  "@ + words);
    let x = entry_words(t.nodes[kids[i] as int]);
    if i < k - 1 {
        lemma_entry_rows(t, (k - 1) as nat, i);
        lemma_part(e, before, row, x);
    } else {
        lemma_part("  "@, words, e, words);
        lemma_part(before, row, e, words);
    }
}

/// What the line of a cache of a tree tells.
pub open spec fn hit_words(h: HitView, root: Seq<char>) -> Seq<char> {
    text::right_aligned(util::human_size(h.size), 10) + "  ["@ + rules::category_label(
        h.category,
    ) + "] "@ + cli::relative(h.path, root) + "\n"@
}

proof fn lemma_hit_rows(hs: Seq<HitView>, root: Seq<char>, k: nat, i: int)
    requires
        0 <= i < k <= hs.len(),
    ensures
        text::occurs_in(summary::cache_rows(hs, root, k), hit_words(hs[i], root)),
    decreases k,
{
    let e = Seq::<char>::empty();
    let before = summary::cache_rows(hs, root, (k - 1) as nat);
    let row = summary::cache_row(hs[k - 1], root);
    let words = hit_words(hs[k - 1], root);
    assert(row =~= "  "@ + words);
    if i < k - 1 {
        lemma_hit_rows(hs, root, (k - 1) as nat, i);
        lemma_part(e, before, row, hit_words(hs[i], root));
    } else {
        lemma_part("  "@, words, e, words);
        lemma_part(before, row, e, words);
    }
}

/// A tree in short tells its root with all that lies below it, its first twenty entries, and
/// its first twenty-five caches, each with its size.
pub proof fn law_summaries_tell_the_first_entries(
    t: TreeView,
    secs: Seq<char>,
    hs: Seq<HitView>,
    i: int,
)
    ensures
        text::occurs_in(
            summary::summary(t, secs, hs),
            t.root_path + "\n  "@ + util::human_size(t.nodes[t.root as int].size) + " across "@
                + text::decimal(t.nodes[t.root as int].file_count as nat) + " files in "@ + secs,
        ),
        0 <= i < 20 && i < t.nodes[t.root as int].children.len() ==> text::occurs_in(
            summary::summary(t, secs, hs),
            entry_words(t.nodes[t.nodes[t.root as int].children[i] as int]),
        ),
        0 <= i < 25 && i < hs.len() ==> text::occurs_in(
            summary::summary(t, secs, hs),
            hit_words(hs[i], t.root_path),
        ),
{
    let n = t.nodes[t.root as int];
    let kids = n.children;
    let head = summary::entries_head(t, secs);
    let rows = summary::entry_rows(t, cli::at_most(kids.len(), 20));
    let mid = summary::caches_head(hs);
    let tail = summary::cache_rows(hs, t.root_path, cli::at_most(hs.len(), 25));
    let a = head + rows;
    let b = a + mid;
    assert(summary::summary(t, secs, hs) == b + tail);
    lemma_entries_head(t, secs);
    let x = t.root_path + "\n  "@ + util::human_size(n.size) + " across "@ + text::decimal(
        n.file_count as nat,
    ) + " files in "@ + secs;
    lemma_more(head, rows, x);
    lemma_more(a, mid, x);
    lemma_more(b, tail, x);
    if 0 <= i < 20 && i < kids.len() {
        let y = entry_words(t.nodes[kids[i] as int]);
        lemma_entry_rows(t, cli::at_most(kids.len(), 20), i);
        lemma_behind(head, rows, y);
        lemma_more(a, mid, y);
        lemma_more(b, tail, y);
    }
    if 0 <= i < 25 && i < hs.len() {
        lemma_hit_rows(hs, t.root_path, cli::at_most(hs.len(), 25), i);
        lemma_behind(b, tail, hit_words(hs[i], t.root_path));
    }
}

proof fn lemma_entries_head(t: TreeView, secs: Seq<char>)
    ensures
        text::occurs_in(
            summary::entries_head(t, secs),
            t.root_path + "\n  "@ + util::human_size(t.nodes[t.root as int].size) + " across "@
                + text::decimal(t.nodes[t.root as int].file_count as nat) + " files in "@ + secs,
        ),
{
    let n = t.nodes[t.root as int];
    let a = "\n"@;
    let x1 = t.root_path;
    let x2 = x1 + "\n  "@;
    let x3 = x2 + util::human_size(n.size);
    let x4 = x3 + " across "@;
    let x5 = x4 + text::decimal(n.file_count as nat);
    let x6 = x5 + " files in "@;
    lemma_add(a, x6, secs);
    lemma_add(a, x5, " files in "@);
    lemma_add(a, x4, text::decimal(n.file_count as nat));
    lemma_add(a, x3, " across "@);
    lemma_add(a, x2, util::human_size(n.size));
    lemma_add(a, x1, "\n  "@);
    lemma_end(a, x6 + secs);
    lemma_more(a + (x6 + secs), "s\n\nLargest entries:\n"@, x6 + secs);
}

// ---- panels -------------------------------------------------------------------------------------

/// A node that is there has its row first, at its depth; where it is no opened folder that
/// is all, and one that was removed has none.
pub proof fn law_rows_begin_with_the_node(
    t: TreeView,
    expanded: Set<usize>,
    x: int,
    depth: nat,
)
    requires
        t.wf(),
        0 <= x < t.nodes.len(),
    ensures
        t.nodes[x].removed ==> panels::rows(t, expanded, x, depth).len() == 0,
        !t.nodes[x].removed ==> panels::rows(t, expanded, x, depth).len() > 0 && panels::rows(
            t,
            expanded,
            x,
            depth,
        )[0] == Row::Node(x as usize, depth as usize),
        !t.nodes[x].removed && !(t.nodes[x].is_dir && expanded.contains(x as usize))
            ==> panels::rows(t, expanded, x, depth).len() == 1,
{
}

proof fn lemma_kid_rows(t: TreeView, expanded: Set<usize>, x: int, depth: nat, k: nat, j: int)
    requires
        t.wf(),
        0 <= x < t.nodes.len(),
        0 <= j < k <= t.nodes[x].children.len(),
        !t.nodes[t.nodes[x].children[j] as int].removed,
    ensures
        panels::kid_rows(t, expanded, x, depth, k).contains(
            Row::Node(t.nodes[x].children[j], (depth + 1) as usize),
        ),
    decreases k,
{
    let f = scan::links(t.nodes);
    assert(f.kids[x] == t.nodes[x].children);
    let before = panels::kid_rows(t, expanded, x, depth, (k - 1) as nat);
    let c = t.nodes[x].children[k - 1] as int;
    forest::lemma_kid(f, x, k - 1);
    let more = panels::rows(t, expanded, c, depth + 1);
    let row = Row::Node(t.nodes[x].children[j], (depth + 1) as usize);
    let all = before + more;
    if j < k - 1 {
        lemma_kid_rows(t, expanded, x, depth, (k - 1) as nat, j);
        let i = choose|i: int| 0 <= i < before.len() && before[i] == row;
        assert(all[i] == row);
    } else {
        law_rows_begin_with_the_node(t, expanded, c, depth + 1);
        assert(all[before.len() as int] == row);
    }
}

/// An opened folder shows its first 300 children that are there, one step deeper, and how
/// many more there are, if there are more.
pub proof fn law_opened_folders_show_their_children(
    t: TreeView,
    expanded: Set<usize>,
    x: int,
    depth: nat,
    j: int,
)
    requires
        t.wf(),
        0 <= x < t.nodes.len(),
        t.nodes[x].is_dir,
        !t.nodes[x].removed,
        expanded.contains(x as usize),
        0 <= j < 300,
        j < t.nodes[x].children.len(),
    ensures
        !t.nodes[t.nodes[x].children[j] as int].removed ==> panels::rows(
            t,
            expanded,
            x,
            depth,
        ).contains(Row::Node(t.nodes[x].children[j], (depth + 1) as usize)),
        t.nodes[x].children.len() > 300 ==> panels::rows(t, expanded, x, depth).last() == Row::More(
            (t.nodes[x].children.len() - 300) as usize,
            (depth + 1) as usize,
        ),
{
    let n = t.nodes[x];
    let shown = if n.children.len() < 300 {
        n.children.len()
    } else {
        300
    };
    let kids = panels::kid_rows(t, expanded, x, depth, shown);
    let all = panels::rows(t, expanded, x, depth);
    if !t.nodes[n.children[j] as int].removed {
        lemma_kid_rows(t, expanded, x, depth, shown, j);
        let row = Row::Node(n.children[j], (depth + 1) as usize);
        let i = choose|i: int| 0 <= i < kids.len() && kids[i] == row;
        assert(all[i + 1] == row);
    }
}

/// The tiles of a folder are its children that are there and hold something, each with its
/// size.
pub proof fn law_tiles_are_what_holds_something(ns: Seq<NodeView>, x: int, c: usize, w: u64)
    ensures
        panels::tiles(ns, x).contains((c, w)) <==> ns[x].children.contains(c)
            && !ns[c as int].removed
            && ns[c as int].size > 0 && w == ns[c as int].size,
{
    let kids = ns[x].children;
    let keep = panels::tiled(ns);
    let some = kids.filter(keep);
    let all = panels::tiles(ns, x);
    if all.contains((c, w)) {
        let i = choose|i: int| 0 <= i < all.len() && all[i] == (c, w);
        assert(all[i] == (some[i], ns[some[i] as int].size));
        text::lemma_filter_members(kids, keep, i);
    }
    if kids.contains(c) && !ns[c as int].removed && ns[c as int].size > 0 && w
        == ns[c as int].size {
        let k = choose|k: int| 0 <= k < kids.len() && kids[k] == c;
        assert(keep(kids[k]));
        text::lemma_filter_keeps(kids, keep, k);
        let i = choose|i: int| 0 <= i < some.len() && some[i] == c;
        assert(all[i] == (c, w));
    }
}

/// The bytes of the hits of a category among the first `k`.
pub open spec fn category_bytes(hs: Seq<HitView>, c: Category, k: nat) -> nat
    decreases k,
{
    if k == 0 {
        0
    } else {
        category_bytes(hs, c, (k - 1) as nat) + if hs[k - 1].category == c {
            hs[k - 1].size as nat
        } else {
            0
        }
    }
}

proof fn lemma_members_sum(hs: Seq<HitView>, c: Category, k: nat)
    requires
        k <= hs.len() <= usize::MAX,
    ensures
        util::sum(
            panels::members_upto(hs, c, k).map_values(|i: usize| hs[i as int].size),
        ) == category_bytes(hs, c, k),
        forall|j: int|
            0 <= j < panels::members_upto(hs, c, k).len() ==> {
                let i = #[trigger] panels::members_upto(hs, c, k)[j];
                i < k && hs[i as int].category == c
            },
    decreases k,
{
    let f = |i: usize| hs[i as int].size;
    let now = panels::members_upto(hs, c, k);
    if k == 0 {
        assert(now.map_values(f) =~= Seq::<u64>::empty());
    } else {
        lemma_members_sum(hs, c, (k - 1) as nat);
        let before = panels::members_upto(hs, c, (k - 1) as nat);
        if hs[k - 1].category == c {
            assert(now.map_values(f).drop_last() =~= before.map_values(f));
            assert(now.map_values(f).last() == hs[k - 1].size);
        }
        assert forall|j: int| 0 <= j < now.len() implies {
            let i = #[trigger] now[j];
            i < k && hs[i as int].category == c
        } by {
            if j < before.len() {
                assert(now[j] == before[j]);
            }
        }
    }
}

/// A group holds only hits of its category, and as many bytes as these hold.
pub proof fn law_groups_hold_what_their_members_hold(hs: Seq<HitView>, c: Category)
    requires
        hs.len() <= usize::MAX,
        category_bytes(hs, c, hs.len()) <= u64::MAX,
    ensures
        ({
            let g = panels::group_of(hs, c, hs.len());
            &&& g.category == c
            &&& g.bytes == category_bytes(hs, c, hs.len())
            &&& forall|j: int|
                0 <= j < g.members.len() ==> {
                    let i = #[trigger] g.members[j];
                    i < hs.len() && hs[i as int].category == c
                }
        }),
{
    lemma_members_sum(hs, c, hs.len());
    util::law_sum_is_exact(
        panels::members_upto(hs, c, hs.len()).map_values(|i: usize| hs[i as int].size),
    );
}

/// What lies below the root is shown by the way from there, which leads back to it; what
/// does not is shown as it is, and the root itself as a dot.
pub proof fn law_places_lead_back(p: Seq<char>, root: Seq<char>)
    requires
        root.len() > 0,
        path::comps(root).len() > 0,
    ensures
        path::within(p, root) ==> path::same(path::join_text(root, cli::relative(p, root)), p),
        !path::within(p, root) ==> cli::relative(p, root) == p,
        path::within(p, root) && !path::same(p, root) && panels::place_text(p, root) != "."@
            ==> panels::place_text(p, root) == cli::relative(p, root),
        path::same(p, root) ==> panels::place_text(p, root) == "."@,
{
    if path::within(p, root) {
        crate::path_laws::law_stripping_is_undone_by_joining(p, root);
        if path::same(p, root) {
            assert(path::comps(p).skip(path::comps(root).len() as int) =~= Seq::<Seq<char>>::empty());
        }
    }
}

// ---- panels -----------------------------------------------------------------------------------

/// The bar of a node stands for its share of what the node above it holds, and is never
/// without length; the topmost one fills its own.
pub proof fn law_bars_are_shares_of_the_parent(t: TreeView, x: int, p: usize)
    ensures
        panels::bar_size(t, x) >= 1,
        t.nodes[x].parent == Some(p) && t.nodes[p as int].size > 0 ==> panels::bar_size(t, x)
            == t.nodes[p as int].size,
        t.nodes[x].parent is None && t.nodes[x].size > 0 ==> panels::bar_size(t, x)
            == t.nodes[x].size,
{
}

/// The map shows what was chosen for it as long as that is there, and the root otherwise.
pub proof fn law_map_shows_what_is_there(t: TreeView, chosen: Option<usize>)
    ensures
        t.nodes[t.root as int].removed || !t.nodes[panels::map_shown(t, chosen) as int].removed,
        chosen matches Some(i) ==> (!t.nodes[i as int].removed ==> panels::map_shown(t, chosen)
            == i),
        chosen is None ==> panels::map_shown(t, chosen) == t.root,
{
}

/// A label ends in the name, behind a mark that tells directories from files and is as wide
/// for both.
pub proof fn law_labels_mark_directories(n: NodeView)
    ensures
        panels::label(n).len() == 4 + n.name.len(),
        n.name.is_suffix_of(panels::label(n)),
        n.is_dir ==> "[D] "@.is_prefix_of(panels::label(n)),
        !n.is_dir ==> "    "@.is_prefix_of(panels::label(n)),
{
    reveal_strlit("[D]");
    reveal_strlit("[D] ");
    reveal_strlit("   ");
    reveal_strlit("    ");
    reveal_strlit(" ");
    let l = panels::label(n);
    assert(l.subrange(4, l.len() as int) =~= n.name);
    if n.is_dir {
        assert(l.take(4) =~= "[D] "@);
    } else {
        assert(l.take(4) =~= "    "@);
    }
}

/// What is in use is told where there is any, with its size.
pub proof fn law_use_is_told_where_there_is_any(used: u64)
    ensures
        used == 0 ==> cli::in_use_part(used).len() == 0,
        used > 0 ==> (util::human_size(used) + " in use"@).is_suffix_of(cli::in_use_part(used)),
{
    if used > 0 {
        let t = cli::in_use_part(used);
        let x = util::human_size(used) + " in use"@;
        lemma_add(", "@, util::human_size(used), " in use"@);
        assert(t == ", "@ + x);
        assert(t.subrange(t.len() - x.len(), t.len() as int) =~= x);
    }
}

/// A tree in short tells what its caches hold together, and how many they are.
pub proof fn law_summaries_count_the_caches(t: TreeView, secs: Seq<char>, hs: Seq<HitView>)
    ensures
        text::occurs_in(
            summary::summary(t, secs, hs),
            "\nDev caches: "@ + util::human_size(util::sum64(hs.map_values(|h: HitView| h.size)))
                + " reclaimable across "@ + text::decimal(hs.len()) + " dirs\n"@,
        ),
{
    let kids = t.nodes[t.root as int].children;
    let a = summary::entries_head(t, secs) + summary::entry_rows(t, cli::at_most(kids.len(), 20));
    let mid = summary::caches_head(hs);
    let tail = summary::cache_rows(hs, t.root_path, cli::at_most(hs.len(), 25));
    assert(crate::caches::hit_sizes(hs) =~= hs.map_values(|h: HitView| h.size));
    lemma_end(a, mid);
    lemma_more(a + mid, tail, mid);
}

} // verus!
