//! Cache directories as they are reported: with what is using them, and with what
//! deleting them would free.

use serde_json::Value;
use vstd::prelude::*;

use crate::caches;
use crate::caches::{copy_hit, Category, IndexHit, IndexHitView};
use crate::cleanup;
use crate::cleanup::{Item, ItemView, Outcome, OutcomeView};
use crate::index;
use crate::json;
use crate::json::{null, Fields, Json, Values};
use crate::live;
use crate::live::{Reason, Refs};
use crate::path;
use crate::path::{path_starts_with, same_path};
use crate::rules;
use crate::text;
use crate::text::{contains, str_eq, to_lower};
use crate::util;
use crate::util::{human, total};

verus! {

// ---- choosing -----------------------------------------------------------------------

/// The categories that have another common name than their label.
pub open spec fn shorthand(f: Seq<char>, c: Category) -> bool {
    match c {
        Category::JsTs => f == "js"@ || f == "ts"@ || f == "node"@,
        Category::Jvm => f == "java"@,
        Category::Apple => f == "xcode"@ || f == "swift"@ || f == "ios"@,
        _ => false,
    }
}

/// Whether an ecosystem filter names a category: it occurs in the label, whatever
/// the case, or is another common name.
pub open spec fn category_named(filter: Seq<char>, c: Category) -> bool {
    text::occurs_in(text::lowered(rules::category_label(c)), text::lowered(filter)) || shorthand(
        text::lowered(filter),
        c,
    )
}

/// Match a user-supplied ecosystem filter against a category label.
pub fn category_matches(filter: &str, c: Category) -> (r: bool)
    ensures
        r == category_named(filter@, c),
{
    let f = to_lower(filter);
    let label = to_lower(c.label());
    contains(label.as_str(), f.as_str()) || match c {
        Category::JsTs => str_eq(f.as_str(), "js") || str_eq(f.as_str(), "ts") || str_eq(
            f.as_str(),
            "node",
        ),
        Category::Jvm => str_eq(f.as_str(), "java"),
        Category::Apple => str_eq(f.as_str(), "xcode") || str_eq(f.as_str(), "swift") || str_eq(
            f.as_str(),
            "ios",
        ),
        _ => false,
    }
}

/// Whether a hit is asked for: it lies at, below or above the path, frees enough
/// and is of the category.
pub open spec fn asked_for(
    h: IndexHitView,
    p: Seq<char>,
    min: u64,
    category: Option<Seq<char>>,
) -> bool {
    &&& path::within(h.path, p) || path::within(p, h.path)
    &&& h.private >= min
    &&& category matches Some(c) ==> category_named(c, h.category)
}

/// The hits among the first `k` that are asked for.
pub open spec fn asked_upto(
    hs: Seq<IndexHitView>,
    p: Seq<char>,
    min: u64,
    category: Option<Seq<char>>,
    k: nat,
) -> Seq<IndexHitView>
    decreases k,
{
    if k == 0 {
        Seq::empty()
    } else {
        let before = asked_upto(hs, p, min, category, (k - 1) as nat);
        if asked_for(hs[k - 1], p, min, category) {
            before.push(hs[k - 1])
        } else {
            before
        }
    }
}

/// The hits that are asked for: at, below or above a path, freeing at least `min`
/// bytes, and of a category, if one is named.
pub fn matching(hits: &Vec<IndexHit>, p: &str, min: u64, category: Option<&str>) -> (r: Vec<IndexHit>)
    ensures
        caches::index_hits_view(r@) == asked_upto(
            caches::index_hits_view(hits@),
            p@,
            min,
            index::opt_str(category),
            hits@.len(),
        ),
{
    let ghost hs = caches::index_hits_view(hits@);
    let ghost cat = index::opt_str(category);
    let mut out: Vec<IndexHit> = Vec::new();
    let mut i: usize = 0;
    assert(caches::index_hits_view(out@) =~= Seq::<IndexHitView>::empty());
    while i < hits.len()
        invariant
            hs == caches::index_hits_view(hits@),
            cat == index::opt_str(category),
            i <= hits@.len(),
            caches::index_hits_view(out@) == asked_upto(hs, p@, min, cat, i as nat),
        decreases hits@.len() - i,
    {
        let h = &hits[i];
        assert(hs[i as int] == h@);
        let near = path_starts_with(h.path.as_str(), p) || path_starts_with(p, h.path.as_str());
        let named = match category {
            Some(c) => category_matches(c, h.category),
            None => true,
        };
        if near && h.private >= min && named {
            let ghost before = out@;
            let c = copy_hit(h);
            out.push(c);
            assert(caches::index_hits_view(out@) =~= caches::index_hits_view(before).push(h@));
        }
        i += 1;
    }
    out
}

// ---- what is using them ---------------------------------------------------------------

/// What is using a directory, in words: the first of the references that lie in it.
pub open spec fn use_text(
    refs: Seq<(Seq<char>, Reason)>,
    dir: Seq<char>,
    resolved: Seq<char>,
) -> Option<Seq<char>> {
    let users = refs.filter(live::guards(dir, resolved));
    if users.len() == 0 {
        None
    } else {
        Some(users[0].0 + " — "@ + live::reason_text(users[0].1))
    }
}

/// A cache directory, and what is using it, if anything is.
pub struct Listed {
    pub hit: IndexHit,
    pub in_use: Option<String>,
}

/// A cache directory with what is using it, with characters for strings.
#[verifier::ext_equal]
pub struct ListedView {
    pub hit: IndexHitView,
    pub in_use: Option<Seq<char>>,
}

impl View for Listed {
    type V = ListedView;

    open spec fn view(&self) -> ListedView {
        ListedView { hit: self.hit@, in_use: index::opt_string(self.in_use) }
    }
}

/// The directories, each as what it says.
pub open spec fn listed_view(v: Seq<Listed>) -> Seq<ListedView> {
    v.map_values(|l: Listed| l@)
}

/// Where a directory leads: to itself, where that is not known.
pub open spec fn leads_to(resolved: Option<Seq<char>>, dir: Seq<char>) -> Seq<char> {
    match resolved {
        Some(p) => p,
        None => dir,
    }
}

fn use_of(refs: &Refs, dir: &str, resolved: Option<&str>) -> (r: Option<String>)
    ensures
        index::opt_string(r) == use_text(refs@, dir@, leads_to(index::opt_str(resolved), dir@)),
{
    let users = refs.protecting(dir, resolved);
    let ghost want = refs@.filter(live::guards(dir@, leads_to(index::opt_str(resolved), dir@)));
    assert(live::refs_view(users@) == want);
    assert(want.len() == users@.len());
    if users.len() == 0 {
        return None;
    }
    assert(want[0] == (users@[0].0@, users@[0].1));
    let mut s = users[0].0.clone();
    s.append(" — ");
    s.append(users[0].1.describe());
    Some(s)
}

/// The hits, each with what is using it. `resolved` tells of each hit where its
/// path leads without links, if that is known.
pub fn listed(refs: &Refs, hits: &Vec<IndexHit>, resolved: &Vec<Option<String>>) -> (r: Vec<Listed>)
    requires
        resolved@.len() == hits@.len(),
    ensures
        r@.len() == hits@.len(),
        forall|i: int|
            0 <= i < hits@.len() ==> (#[trigger] r@[i])@ == (ListedView {
                hit: hits@[i]@,
                in_use: use_text(
                    refs@,
                    hits@[i].path@,
                    leads_to(index::opt_string(resolved@[i]), hits@[i].path@),
                ),
            }),
{
    let mut out: Vec<Listed> = Vec::new();
    let mut i: usize = 0;
    while i < hits.len()
        invariant
            resolved@.len() == hits@.len(),
            i <= hits@.len(),
            out@.len() == i,
            forall|k: int|
                0 <= k < i ==> (#[trigger] out@[k])@ == (ListedView {
                    hit: hits@[k]@,
                    in_use: use_text(
                        refs@,
                        hits@[k].path@,
                        leads_to(index::opt_string(resolved@[k]), hits@[k].path@),
                    ),
                }),
        decreases hits@.len() - i,
    {
        let to = match &resolved[i] {
            Some(p) => Some(p.as_str()),
            None => None,
        };
        let in_use = use_of(refs, hits[i].path.as_str(), to);
        let hit = copy_hit(&hits[i]);
        out.push(Listed { hit, in_use });
        i += 1;
    }
    out
}

// ---- what deleting them would free ----------------------------------------------------

/// The bytes that each of the first `k` directories frees that is in use, or that
/// is not.
pub open spec fn privates(ls: Seq<ListedView>, in_use: bool, k: nat) -> Seq<u64>
    decreases k,
{
    if k == 0 {
        Seq::empty()
    } else {
        let before = privates(ls, in_use, (k - 1) as nat);
        if ls[k - 1].in_use is Some == in_use {
            before.push(ls[k - 1].hit.private)
        } else {
            before
        }
    }
}

/// The bytes that deleting would really free: the private figure, and only for
/// directories that nothing is using.
pub open spec fn free_bytes(ls: Seq<ListedView>) -> u64 {
    util::sum64(privates(ls, false, ls.len()))
}

/// The bytes of the directories that something is using.
pub open spec fn held_bytes(ls: Seq<ListedView>) -> u64 {
    util::sum64(privates(ls, true, ls.len()))
}

/// The bytes that the directories seem to take.
pub open spec fn apparent_bytes(ls: Seq<ListedView>) -> u64 {
    util::sum64(ls.map_values(|l: ListedView| l.hit.size))
}

fn private_total(ls: &Vec<Listed>, in_use: bool) -> (r: u64)
    ensures
        r == util::sum64(privates(listed_view(ls@), in_use, ls@.len())),
{
    let ghost all = listed_view(ls@);
    let mut v: Vec<u64> = Vec::new();
    let mut i: usize = 0;
    while i < ls.len()
        invariant
            all == listed_view(ls@),
            i <= ls@.len(),
            v@ == privates(all, in_use, i as nat),
        decreases ls@.len() - i,
    {
        assert(all[i as int] == ls@[i as int]@);
        if ls[i].in_use.is_some() == in_use {
            v.push(ls[i].hit.private);
        }
        i += 1;
    }
    total(&v)
}

/// The bytes that deleting would really free.
pub fn reclaimable(ls: &Vec<Listed>) -> (r: u64)
    ensures
        r == free_bytes(listed_view(ls@)),
{
    private_total(ls, false)
}

/// The bytes of the directories that something is using.
pub fn held(ls: &Vec<Listed>) -> (r: u64)
    ensures
        r == held_bytes(listed_view(ls@)),
{
    private_total(ls, true)
}

/// The bytes that the directories seem to take.
pub fn apparent(ls: &Vec<Listed>) -> (r: u64)
    ensures
        r == apparent_bytes(listed_view(ls@)),
{
    let ghost sizes = listed_view(ls@).map_values(|l: ListedView| l.hit.size);
    let mut v: Vec<u64> = Vec::new();
    let mut i: usize = 0;
    while i < ls.len()
        invariant
            sizes == listed_view(ls@).map_values(|l: ListedView| l.hit.size),
            i <= ls@.len(),
            v@ == sizes.take(i as int),
        decreases ls@.len() - i,
    {
        v.push(ls[i].hit.size);
        i += 1;
        assert(v@ =~= sizes.take(i as int));
    }
    assert(sizes.take(i as int) =~= sizes);
    total(&v)
}

proof fn lemma_privates_split(ls: Seq<ListedView>, k: nat)
    requires
        k <= ls.len(),
    ensures
        util::sum(privates(ls, false, k)) + util::sum(privates(ls, true, k)) == util::sum(
            ls.take(k as int).map_values(|l: ListedView| l.hit.private),
        ),
    decreases k,
{
    let f = |l: ListedView| l.hit.private;
    if k > 0 {
        lemma_privates_split(ls, (k - 1) as nat);
        let all = ls.take(k as int).map_values(f);
        assert(all.drop_last() =~= ls.take(k - 1).map_values(f));
        assert(all.last() == ls[k - 1].hit.private);
        let a = privates(ls, false, (k - 1) as nat);
        let b = privates(ls, true, (k - 1) as nat);
        let x = ls[k - 1].hit.private;
        assert(a.push(x).drop_last() =~= a);
        assert(b.push(x).drop_last() =~= b);
    }
}

/// What is reported as reclaimable and what is reported as in use make up all that
/// the directories hold, as long as the sum can be counted: nothing is counted
/// twice and nothing in use counts as reclaimable.
pub proof fn law_nothing_in_use_is_reclaimable(ls: Seq<ListedView>)
    requires
        util::sum(ls.map_values(|l: ListedView| l.hit.private)) <= u64::MAX,
    ensures
        free_bytes(ls) + held_bytes(ls) == util::sum(
            ls.map_values(|l: ListedView| l.hit.private),
        ),
{
    lemma_privates_split(ls, ls.len());
    assert(ls.take(ls.len() as int) =~= ls);
    util::law_sum_is_exact(privates(ls, false, ls.len()));
    util::law_sum_is_exact(privates(ls, true, ls.len()));
}

/// Whether most of a directory's blocks are shared: it seems to take more than
/// twice what deleting it frees.
pub open spec fn mostly_shared(h: IndexHitView) -> bool {
    h.size > 2 * h.private
}

/// Whether most of a directory's blocks are shared.
pub fn is_shared(h: &IndexHit) -> (r: bool)
    ensures
        r == mostly_shared(h@),
{
    h.size / 2 > h.private || (h.size / 2 == h.private && h.size % 2 == 1)
}

/// What is to be said of a directory in a listing: that it is in use, or why its
/// size looks larger than what it frees.
pub open spec fn remark(l: ListedView) -> Seq<char> {
    match l.in_use {
        Some(u) => "  ⚠ IN USE: "@ + u,
        None => if mostly_shared(l.hit) {
            " (looks like "@ + util::human_size(l.hit.size) + ", mostly shared)"@
        } else {
            Seq::empty()
        },
    }
}

/// What is to be said of a directory in a listing.
pub fn remark_on(l: &Listed) -> (r: String)
    ensures
        r@ == remark(l@),
{
    match &l.in_use {
        Some(u) => {
            let mut s = "  ⚠ IN USE: ".to_owned();
            s.append(u.as_str());
            s
        },
        None => if is_shared(&l.hit) {
            let mut s = " (looks like ".to_owned();
            s.append(human(l.hit.size).as_str());
            s.append(", mostly shared)");
            s
        } else {
            String::new()
        },
    }
}

// ---- plans and outcomes ---------------------------------------------------------------

/// The bytes of what was trashed among the first `k` outcomes.
pub open spec fn trashed_sizes(os: Seq<OutcomeView>, k: nat) -> Seq<u64>
    decreases k,
{
    if k == 0 {
        Seq::empty()
    } else {
        let before = trashed_sizes(os, (k - 1) as nat);
        if os[k - 1].trashed {
            before.push(os[k - 1].bytes)
        } else {
            before
        }
    }
}

/// The outcomes, each as what it says.
pub open spec fn outcomes_view(v: Seq<Outcome>) -> Seq<OutcomeView> {
    v.map_values(|o: Outcome| o@)
}

/// How many were trashed.
pub open spec fn trashed_count(os: Seq<OutcomeView>) -> nat {
    trashed_sizes(os, os.len()).len()
}

/// The bytes that were freed.
pub open spec fn freed_bytes(os: Seq<OutcomeView>) -> u64 {
    util::sum64(trashed_sizes(os, os.len()))
}

proof fn lemma_trashed_bound(os: Seq<OutcomeView>, k: nat)
    ensures
        trashed_sizes(os, k).len() <= k,
    decreases k,
{
    if k > 0 {
        lemma_trashed_bound(os, (k - 1) as nat);
    }
}

/// How many were trashed, and how many bytes that freed.
pub fn freed(os: &Vec<Outcome>) -> (r: (usize, u64))
    ensures
        r.0 == trashed_count(outcomes_view(os@)),
        r.0 <= os@.len(),
        r.1 == freed_bytes(outcomes_view(os@)),
{
    let ghost all = outcomes_view(os@);
    let mut v: Vec<u64> = Vec::new();
    let mut i: usize = 0;
    while i < os.len()
        invariant
            all == outcomes_view(os@),
            i <= os@.len(),
            v@ == trashed_sizes(all, i as nat),
        decreases os@.len() - i,
    {
        assert(all[i as int] == os@[i as int]@);
        if os[i].trashed {
            v.push(os[i].bytes);
        }
        i += 1;
    }
    proof {
        lemma_trashed_bound(all, all.len());
    }
    (v.len(), total(&v))
}

/// What a plan would trash, as an object.
pub open spec fn item_json(i: ItemView) -> Json {
    Json::Obj(
        map![
            "path"@ => Json::Str(i.path),
            "bytes"@ => Json::Int(i.bytes as int),
            "human"@ => Json::Str(util::human_size(i.bytes)),
            "category"@ => match i.category {
                Some(c) => Json::Str(rules::category_label(c)),
                None => Json::Null,
            },
            "note"@ => json::text_or_null(i.note),
        ],
    )
}

fn item_value(i: &Item) -> (r: Value)
    ensures
        json::json(r) == item_json(i@),
{
    let mut o = Fields::new();
    o.put_str("path", i.path.as_str());
    o.put_num("bytes", i.bytes);
    o.put_str("human", human(i.bytes).as_str());
    match i.category {
        Some(c) => o.put_str("category", c.label()),
        None => o.put("category", null()),
    }
    match i.note {
        Some(n) => o.put_str("note", n),
        None => o.put("note", null()),
    }
    o.done()
}

/// What a plan would trash, as an array.
pub(crate) fn items_value(items: &Vec<Item>) -> (r: Value)
    ensures
        json::json(r) == Json::Arr(
            cleanup::items_view(items@).map_values(|i: ItemView| item_json(i)),
        ),
{
    let ghost all = cleanup::items_view(items@);
    let ghost want = all.map_values(|i: ItemView| item_json(i));
    let mut rows = Values::new();
    let mut i: usize = 0;
    while i < items.len()
        invariant
            all == cleanup::items_view(items@),
            want == all.map_values(|i: ItemView| item_json(i)),
            i <= items@.len(),
            rows@ == want.take(i as int),
        decreases items@.len() - i,
    {
        assert(all[i as int] == items@[i as int]@);
        rows.push(item_value(&items[i]));
        i += 1;
        assert(rows@ =~= want.take(i as int));
    }
    assert(want.take(i as int) =~= want);
    rows.done()
}

/// The size of a path that the caches of an index tell: what the last hit at that
/// path frees.
pub open spec fn known_bytes(hs: Seq<IndexHitView>, p: Seq<char>, k: nat) -> Option<u64>
    decreases k,
{
    if k == 0 {
        None
    } else if path::same(hs[k - 1].path, p) {
        Some(hs[k - 1].private)
    } else {
        known_bytes(hs, p, (k - 1) as nat)
    }
}

/// The size of a path that the caches of an index tell. Walking every target again
/// just to print a total costs far more than the deletion.
pub fn known_size(hits: &Vec<IndexHit>, p: &str) -> (r: Option<u64>)
    ensures
        r == known_bytes(caches::index_hits_view(hits@), p@, hits@.len()),
{
    let ghost hs = caches::index_hits_view(hits@);
    let mut k: usize = hits.len();
    while k > 0
        invariant
            hs == caches::index_hits_view(hits@),
            k <= hits@.len(),
            known_bytes(hs, p@, hs.len()) == known_bytes(hs, p@, k as nat),
        decreases k,
    {
        assert(hs[k - 1] == hits@[k - 1]@);
        if same_path(hits[k - 1].path.as_str(), p) {
            return Some(hits[k - 1].private);
        }
        k -= 1;
    }
    None
}

} // verus!
