//! The one path by which anything gets deleted, and the guards on it.
//!
//! 1. A target must sit strictly inside the root that was scanned.
//! 2. It must currently match a cache rule, checked against the file system,
//!    unless the caller explicitly opted out with `allow_any`.
//! 3. Obviously-wrong targets (a home directory, a volume root, anything with a
//!    `..` in it, a symlink pointing out of the root) are refused outright, and so
//!    is what something is using.
//! 4. Everything is re-verified at the moment of deletion, so a stale index cannot
//!    cause the wrong thing to go.
//!
//! What the file system says comes in as [`Facts`]. The deletion itself is done by
//! the caller.

use vstd::prelude::*;

use crate::caches::Category;
use crate::index;
use crate::live;
use crate::live::Reason;
use crate::path;
use crate::path::{components, is_absolute, path_starts_with, same_path};
use crate::rules;
use crate::text;
use crate::text::{decimal_string, str_eq};
use crate::util;

verus! {

/// A single vetted deletion target.
pub struct Item {
    pub path: String,
    pub bytes: u64,
    pub category: Option<Category>,
    pub note: Option<&'static str>,
}

/// A target that was refused, and why.
pub struct Rejected {
    pub path: String,
    pub reason: String,
}

/// What would be deleted, and what was refused.
pub struct Plan {
    pub items: Vec<Item>,
    pub rejected: Vec<Rejected>,
}

/// Outcome of actually trashing one item.
pub struct Outcome {
    pub path: String,
    pub bytes: u64,
    pub trashed: bool,
    pub error: Option<String>,
}

/// What an item says.
#[verifier::ext_equal]
pub struct ItemView {
    pub path: Seq<char>,
    pub bytes: u64,
    pub category: Option<Category>,
    pub note: Option<Seq<char>>,
}

impl View for Item {
    type V = ItemView;

    open spec fn view(&self) -> ItemView {
        ItemView {
            path: self.path@,
            bytes: self.bytes,
            category: self.category,
            note: match self.note {
                Some(n) => Some(n@),
                None => None,
            },
        }
    }
}

impl View for Rejected {
    type V = (Seq<char>, Seq<char>);

    /// Path and reason.
    open spec fn view(&self) -> (Seq<char>, Seq<char>) {
        (self.path@, self.reason@)
    }
}

/// What an outcome says.
#[verifier::ext_equal]
pub struct OutcomeView {
    pub path: Seq<char>,
    pub bytes: u64,
    pub trashed: bool,
    pub error: Option<Seq<char>>,
}

impl View for Outcome {
    type V = OutcomeView;

    open spec fn view(&self) -> OutcomeView {
        OutcomeView {
            path: self.path@,
            bytes: self.bytes,
            trashed: self.trashed,
            error: index::opt_string(self.error),
        }
    }
}

/// What the file system says about a target at one moment.
pub struct Facts {
    /// The home directory.
    pub home: Option<String>,
    /// What the target resolves to.
    pub resolved: Option<String>,
    /// What the root resolves to.
    pub resolved_root: Option<String>,
    pub exists: bool,
    /// The executables in the target that something is using.
    pub in_use: Vec<(String, Reason)>,
    /// The cache rule that the target matches.
    pub class: Option<(Category, &'static str)>,
}

/// The same facts with characters for strings.
#[verifier::ext_equal]
pub struct FactsView {
    pub home: Option<Seq<char>>,
    pub resolved: Option<Seq<char>>,
    pub resolved_root: Option<Seq<char>>,
    pub exists: bool,
    pub in_use: Seq<(Seq<char>, Reason)>,
    pub class: Option<(Category, Seq<char>)>,
}

impl View for Facts {
    type V = FactsView;

    open spec fn view(&self) -> FactsView {
        FactsView {
            home: index::opt_string(self.home),
            resolved: index::opt_string(self.resolved),
            resolved_root: index::opt_string(self.resolved_root),
            exists: self.exists,
            in_use: live::refs_view(self.in_use@),
            class: rules::found(self.class),
        }
    }
}

// ---- sizes ----------------------------------------------------------------------

/// What a file of so many blocks occupies; the bytes saturate.
pub open spec fn allocated_bytes(blocks: u64) -> u64 {
    if blocks * 512 > u64::MAX {
        u64::MAX
    } else {
        (blocks * 512) as u64
    }
}

fn allocated(blocks: u64) -> (r: u64)
    ensures
        r == allocated_bytes(blocks),
{
    if blocks > u64::MAX / 512 {
        u64::MAX
    } else {
        blocks * 512
    }
}

/// Directory size on disk, counted the same way the scanner counts it, from the
/// block counts of the files below it.
pub fn measure(blocks: &Vec<u64>) -> (r: u64)
    ensures
        r == util::sum64(blocks@.map_values(|b: u64| allocated_bytes(b))),
{
    let mut sizes: Vec<u64> = Vec::new();
    let mut i: usize = 0;
    while i < blocks.len()
        invariant
            i <= blocks@.len(),
            sizes@ == blocks@.map_values(|b: u64| allocated_bytes(b)).take(i as int),
        decreases blocks@.len() - i,
    {
        sizes.push(allocated(blocks[i]));
        i += 1;
        assert(sizes@ =~= blocks@.map_values(|b: u64| allocated_bytes(b)).take(i as int));
    }
    assert(sizes@ =~= blocks@.map_values(|b: u64| allocated_bytes(b)));
    util::total(&sizes)
}

// ---- guards ---------------------------------------------------------------------

/// Why a target must never be touched, whatever rule it may match; `None` where
/// nothing speaks against it.
pub open spec fn objection(p: Seq<char>, root: Seq<char>, f: FactsView) -> Option<Seq<char>> {
    let depth = path::comps(p).len();
    if !path::absolute(p) {
        Some("path is not absolute"@)
    } else if path::comps(p).contains(path::dot_dot()) {
        Some("path contains '..'"@)
    } else if path::same(p, root) {
        Some("refusing to delete the scan root itself"@)
    } else if !path::within(p, root) {
        Some("path is outside the scanned root "@ + root)
    } else if f.home matches Some(h) && path::same(p, h) {
        Some("refusing to delete the home directory"@)
    } else if depth < 4 {
        Some(
            "path is too shallow to be a build cache ("@ + text::decimal(depth) + " components)"@,
        )
    } else if f.resolved matches Some(resolved) && f.resolved_root matches Some(resolved_root) && !path::within(
        resolved,
        resolved_root,
    ) {
        Some("path resolves outside the scanned root"@)
    } else {
        None
    }
}

/// Why what something is using is refused.
pub open spec fn in_use_text(refs: Seq<(Seq<char>, Reason)>) -> Seq<char> {
    let one = "in use: "@ + refs[0].0 + " ("@ + live::reason_text(refs[0].1) + ")"@;
    if refs.len() > 1 {
        one + " and "@ + text::decimal((refs.len() - 1) as nat) + " other executable(s)"@
    } else {
        one
    }
}

/// Whether one of the components is `..`.
fn has_dot_dot(cs: &Vec<String>) -> (r: bool)
    ensures
        r == text::strs(cs@).contains(path::dot_dot()),
{
    proof {
        reveal_strlit("..");
    }
    assert(".."@ =~= path::dot_dot());
    let mut i: usize = 0;
    while i < cs.len()
        invariant
            ".."@ == path::dot_dot(),
            i <= cs@.len(),
            forall|k: int| 0 <= k < i ==> (#[trigger] text::strs(cs@)[k]) != path::dot_dot(),
        decreases cs@.len() - i,
    {
        if str_eq(cs[i].as_str(), "..") {
            assert(text::strs(cs@)[i as int] == path::dot_dot());
            return true;
        }
        i += 1;
    }
    false
}

/// Reject targets that no rule should ever be able to reach, regardless of what
/// the caller claims. Returns the reason when the path must not be touched.
pub fn structural_objection(p: &str, root: &str, f: &Facts) -> (r: Option<String>)
    ensures
        index::opt_string(r) == objection(p@, root@, f@),
{
    if !is_absolute(p) {
        return Some("path is not absolute".to_owned());
    }
    let cs = components(p);
    if has_dot_dot(&cs) {
        return Some("path contains '..'".to_owned());
    }
    if same_path(p, root) {
        return Some("refusing to delete the scan root itself".to_owned());
    }
    if !path_starts_with(p, root) {
        let mut s = "path is outside the scanned root ".to_owned();
        s.append(root);
        return Some(s);
    }
    if let Some(h) = &f.home {
        if same_path(p, h.as_str()) {
            return Some("refusing to delete the home directory".to_owned());
        }
    }
    let depth: usize = cs.len();
    assert(path::comps(p@).len() == depth);
    if depth < 4 {
        let mut s = "path is too shallow to be a build cache (".to_owned();
        s.append(decimal_string(depth as u64).as_str());
        s.append(" components)");
        return Some(s);
    }
    if let Some(resolved) = &f.resolved {
        if let Some(resolved_root) = &f.resolved_root {
            if !path_starts_with(resolved.as_str(), resolved_root.as_str()) {
                return Some("path resolves outside the scanned root".to_owned());
            }
        }
    }
    None
}

fn in_use_reason(refs: &Vec<(String, Reason)>) -> (r: String)
    requires
        refs@.len() > 0,
    ensures
        r@ == in_use_text(live::refs_view(refs@)),
{
    let mut s = "in use: ".to_owned();
    s.append(refs[0].0.as_str());
    s.append(" (");
    s.append(refs[0].1.describe());
    s.append(")");
    let n: usize = refs.len();
    if n > 1 {
        s.append(" and ");
        s.append(decimal_string((n - 1) as u64).as_str());
        s.append(" other executable(s)");
    }
    assert(s@ =~= in_use_text(live::refs_view(refs@)));
    s
}

// ---- planning -------------------------------------------------------------------

/// Why a target is refused when a deletion is planned; `None` where it is
/// accepted. `allow_any` lifts only the requirement to be a recognised cache.
pub open spec fn refusal(p: Seq<char>, root: Seq<char>, f: FactsView, allow_any: bool) -> Option<
    Seq<char>,
> {
    match objection(p, root, f) {
        Some(reason) => Some(reason),
        None => if !f.exists {
            Some("path no longer exists"@)
        } else if f.in_use.len() > 0 {
            Some(in_use_text(f.in_use))
        } else if f.class is None && !allow_any {
            Some("not a recognised regenerable cache (pass allow_any to override)"@)
        } else {
            None
        },
    }
}

/// Why a target is refused when a deletion is planned; `None` where it is accepted.
pub fn vet(p: &str, root: &str, f: &Facts, allow_any: bool) -> (r: Option<String>)
    ensures
        index::opt_string(r) == refusal(p@, root@, f@, allow_any),
{
    match structural_objection(p, root, f) {
        Some(reason) => Some(reason),
        None => if !f.exists {
            Some("path no longer exists".to_owned())
        } else if f.in_use.len() > 0 {
            Some(in_use_reason(&f.in_use))
        } else if f.class.is_none() && !allow_any {
            Some("not a recognised regenerable cache (pass allow_any to override)".to_owned())
        } else {
            None
        },
    }
}

/// A requested target, what the file system says about it, and how large it is.
pub struct Target {
    pub path: String,
    pub facts: Facts,
    pub bytes: u64,
}

/// A requested target with characters for strings.
#[verifier::ext_equal]
pub struct TargetView {
    pub path: Seq<char>,
    pub facts: FactsView,
    pub bytes: u64,
}

impl View for Target {
    type V = TargetView;

    open spec fn view(&self) -> TargetView {
        TargetView { path: self.path@, facts: self.facts@, bytes: self.bytes }
    }
}

/// The targets, each as what it says.
pub open spec fn targets_view(v: Seq<Target>) -> Seq<TargetView> {
    v.map_values(|t: Target| t@)
}

/// The item for an accepted target.
pub open spec fn item_of(t: TargetView) -> ItemView {
    ItemView {
        path: t.path,
        bytes: t.bytes,
        category: match t.facts.class {
            Some(c) => Some(c.0),
            None => None,
        },
        note: match t.facts.class {
            Some(c) => Some(c.1),
            None => None,
        },
    }
}

/// The items among the first `k` targets, in order.
pub open spec fn items_upto(ts: Seq<TargetView>, root: Seq<char>, allow_any: bool, k: nat) -> Seq<
    ItemView,
>
    decreases k,
{
    if k == 0 {
        Seq::empty()
    } else {
        let t = ts[k - 1];
        let before = items_upto(ts, root, allow_any, (k - 1) as nat);
        if refusal(t.path, root, t.facts, allow_any) is None {
            before.push(item_of(t))
        } else {
            before
        }
    }
}

/// The refused ones among the first `k` targets, in order, each with its reason.
pub open spec fn rejected_upto(
    ts: Seq<TargetView>,
    root: Seq<char>,
    allow_any: bool,
    k: nat,
) -> Seq<(Seq<char>, Seq<char>)>
    decreases k,
{
    if k == 0 {
        Seq::empty()
    } else {
        let t = ts[k - 1];
        let before = rejected_upto(ts, root, allow_any, (k - 1) as nat);
        match refusal(t.path, root, t.facts, allow_any) {
            Some(reason) => before.push((t.path, reason)),
            None => before,
        }
    }
}

/// The items, each as what it says.
pub open spec fn items_view(v: Seq<Item>) -> Seq<ItemView> {
    v.map_values(|i: Item| i@)
}

/// The refused targets with their reasons.
pub open spec fn rejected_view(v: Seq<Rejected>) -> Seq<(Seq<char>, Seq<char>)> {
    v.map_values(|r: Rejected| r@)
}

/// The bytes of items.
pub open spec fn item_bytes(v: Seq<ItemView>) -> Seq<u64> {
    v.map_values(|i: ItemView| i.bytes)
}

impl Plan {
    /// The bytes of all items.
    pub fn total_bytes(&self) -> (r: u64)
        ensures
            r == util::sum64(item_bytes(items_view(self.items@))),
    {
        let mut v: Vec<u64> = Vec::new();
        let ghost all = item_bytes(items_view(self.items@));
        let mut i: usize = 0;
        while i < self.items.len()
            invariant
                i <= self.items@.len(),
                all == item_bytes(items_view(self.items@)),
                v@ == all.take(i as int),
            decreases self.items@.len() - i,
        {
            v.push(self.items[i].bytes);
            i += 1;
            assert(v@ =~= all.take(i as int));
        }
        assert(v@ =~= all);
        util::total(&v)
    }
}

/// Vet a batch of deletion targets against `root`. Nothing is deleted here.
pub fn plan(root: &str, targets: &Vec<Target>, allow_any: bool) -> (r: Plan)
    ensures
        items_view(r.items@) == items_upto(
            targets_view(targets@),
            root@,
            allow_any,
            targets@.len(),
        ),
        rejected_view(r.rejected@) == rejected_upto(
            targets_view(targets@),
            root@,
            allow_any,
            targets@.len(),
        ),
{
    let ghost ts = targets_view(targets@);
    let mut items: Vec<Item> = Vec::new();
    let mut rejected: Vec<Rejected> = Vec::new();
    let mut i: usize = 0;
    assert(items_view(items@) =~= Seq::<ItemView>::empty());
    assert(rejected_view(rejected@) =~= Seq::<(Seq<char>, Seq<char>)>::empty());
    while i < targets.len()
        invariant
            ts == targets_view(targets@),
            i <= targets@.len(),
            items_view(items@) == items_upto(ts, root@, allow_any, i as nat),
            rejected_view(rejected@) == rejected_upto(ts, root@, allow_any, i as nat),
        decreases targets@.len() - i,
    {
        let t = &targets[i];
        assert(ts[i as int] == t@);
        match vet(t.path.as_str(), root, &t.facts, allow_any) {
            Some(reason) => {
                let ghost before = rejected_view(rejected@);
                let ghost e = (t.path@, reason@);
                rejected.push(Rejected { path: t.path.clone(), reason });
                assert(rejected_view(rejected@) =~= before.push(e));
            },
            None => {
                let ghost before = items_view(items@);
                let (category, note): (Option<Category>, Option<&'static str>) = match t.facts.class {
                    Some((c, n)) => (Some(c), Some(n)),
                    None => (None, None),
                };
                let item = Item { path: t.path.clone(), bytes: t.bytes, category, note };
                let ghost e = item@;
                assert(e == item_of(t@));
                items.push(item);
                assert(items_view(items@) =~= before.push(e));
            },
        }
        i += 1;
    }
    Plan { items, rejected }
}

// ---- deleting -------------------------------------------------------------------

/// Why an item is not deleted after all, at the moment of deletion; `None` where
/// it is.
pub open spec fn late_refusal(
    p: Seq<char>,
    root: Seq<char>,
    f: FactsView,
    allow_any: bool,
) -> Option<Seq<char>> {
    match objection(p, root, f) {
        Some(reason) => Some(reason),
        None => if !f.exists {
            Some("path disappeared before deletion"@)
        } else if f.in_use.len() > 0 {
            Some(in_use_text(f.in_use))
        } else if f.class is None && !allow_any {
            Some("no longer matches a cache rule — refusing"@)
        } else {
            None
        },
    }
}

/// The re-check of an item right before it is deleted: planning may have been
/// minutes ago, and this is the last moment at which the file system can still be
/// consulted. `None` means that it may go.
pub fn recheck(p: &str, root: &str, f: &Facts, allow_any: bool) -> (r: Option<String>)
    ensures
        index::opt_string(r) == late_refusal(p@, root@, f@, allow_any),
{
    match structural_objection(p, root, f) {
        Some(reason) => Some(reason),
        None => if !f.exists {
            Some("path disappeared before deletion".to_owned())
        } else if f.in_use.len() > 0 {
            Some(in_use_reason(&f.in_use))
        } else if f.class.is_none() && !allow_any {
            Some("no longer matches a cache rule — refusing".to_owned())
        } else {
            None
        },
    }
}

/// The outcome for an item: trashed with all its bytes, or not at all.
pub open spec fn outcome(item: ItemView, error: Option<Seq<char>>) -> OutcomeView {
    OutcomeView {
        path: item.path,
        bytes: if error is None {
            item.bytes
        } else {
            0
        },
        trashed: error is None,
        error,
    }
}

/// The outcome for an item, given what stood in the way.
pub fn outcome_of(item: &Item, error: Option<String>) -> (r: Outcome)
    ensures
        r@ == outcome(item@, index::opt_string(error)),
{
    let trashed = error.is_none();
    let bytes: u64 = if trashed {
        item.bytes
    } else {
        0
    };
    Outcome { path: item.path.clone(), bytes, trashed, error }
}

// ---- what the guards promise ------------------------------------------------------

/// What is accepted, when a deletion is planned and again when it is carried out,
/// lies strictly inside the scanned root, is not the home directory, has no `..`
/// in it, does not resolve out of the root, exists, and is in use by nothing,
/// whatever the caller asked for.
pub proof fn law_guards_always_hold(p: Seq<char>, root: Seq<char>, f: FactsView, allow_any: bool)
    requires
        refusal(p, root, f, allow_any) is None || late_refusal(p, root, f, allow_any) is None,
    ensures
        path::absolute(p),
        path::within(p, root),
        !path::same(p, root),
        !path::comps(p).contains(path::dot_dot()),
        path::comps(p).len() >= 4,
        f.home matches Some(h) ==> !path::same(p, h),
        f.resolved matches Some(resolved) ==> (f.resolved_root matches Some(rr) ==> path::within(resolved, rr)),
        f.exists,
        f.in_use.len() == 0,
        !allow_any ==> f.class is Some,
{
}

/// What no guard forbids is accepted, when a deletion is planned and again when it is
/// carried out: an absolute path without `..` of at least four components, strictly
/// inside the scanned root, that is not the home directory itself, does not resolve out
/// of the root, exists, is in use by nothing, and is a recognised cache or need not be.
pub proof fn law_what_no_guard_forbids_is_accepted(
    p: Seq<char>,
    root: Seq<char>,
    f: FactsView,
    allow_any: bool,
)
    requires
        path::absolute(p),
        path::within(p, root),
        !path::same(p, root),
        !path::comps(p).contains(path::dot_dot()),
        path::comps(p).len() >= 4,
        f.home matches Some(h) ==> !path::same(p, h),
        f.resolved matches Some(resolved) ==> (f.resolved_root matches Some(rr) ==> path::within(resolved, rr)),
        f.exists,
        f.in_use.len() == 0,
        f.class is Some || allow_any,
    ensures
        refusal(p, root, f, allow_any) is None,
        late_refusal(p, root, f, allow_any) is None,
{
}

/// The same in components: what lies at least one component below the root, and four
/// below the top, is accepted where the home directory lies above it, beside it or below
/// it.
pub proof fn law_caches_below_home_are_accepted(
    p: Seq<char>,
    root: Seq<char>,
    f: FactsView,
    allow_any: bool,
)
    requires
        p.len() > 0 && p[0] == '/',
        root.len() > 0 && root[0] == '/',
        path::comps(root).len() < path::comps(p).len(),
        path::comps(p).take(path::comps(root).len() as int) == path::comps(root),
        forall|i: int| 0 <= i < path::comps(p).len() ==> #[trigger] path::comps(p)[i] != ".."@,
        path::comps(p).len() >= 4,
        f.home matches Some(h) ==> path::comps(h) != path::comps(p),
        f.resolved is None || f.resolved_root is None || f.resolved == f.resolved_root,
        f.exists,
        f.in_use.len() == 0,
        f.class is Some || allow_any,
    ensures
        refusal(p, root, f, allow_any) is None,
        late_refusal(p, root, f, allow_any) is None,
{
    reveal_strlit("..");
    assert(".."@ =~= path::dot_dot());
    if let Some(r) = f.resolved {
        assert(path::comps(r).take(path::comps(r).len() as int) =~= path::comps(r));
    }
}

/// What is refused is refused for the first of the guards that forbids it, and planning
/// and deleting differ only in the words for what is gone or is no cache.
pub proof fn law_refusals_say_why(p: Seq<char>, root: Seq<char>, f: FactsView, allow_any: bool)
    ensures
        !path::absolute(p) ==> refusal(p, root, f, allow_any) == Some("path is not absolute"@),
        path::absolute(p) && path::comps(p).contains(path::dot_dot()) ==> refusal(
            p,
            root,
            f,
            allow_any,
        ) == Some("path contains '..'"@),
        refusal(p, root, f, allow_any) is Some <==> late_refusal(p, root, f, allow_any) is Some,
        refusal(p, root, f, true) matches Some(why) && f.exists ==> late_refusal(
            p,
            root,
            f,
            allow_any,
        ) == refusal(p, root, f, true),
        refusal(p, root, f, true) is None && !allow_any && f.class is None ==> {
            &&& refusal(p, root, f, allow_any) == Some(
                "not a recognised regenerable cache (pass allow_any to override)"@,
            )
            &&& late_refusal(p, root, f, allow_any) == Some(
                "no longer matches a cache rule — refusing"@,
            )
        },
        refusal(p, root, f, true) is None && (allow_any || f.class is Some) ==> refusal(
            p,
            root,
            f,
            allow_any,
        ) is None,
{
}

/// `allow_any` lifts only the requirement to be a recognised cache: for a
/// recognised one it changes nothing.
pub proof fn law_allow_any_lifts_one_guard(p: Seq<char>, root: Seq<char>, f: FactsView)
    requires
        f.class is Some,
    ensures
        refusal(p, root, f, true) == refusal(p, root, f, false),
        late_refusal(p, root, f, true) == late_refusal(p, root, f, false),
{
}

/// Every target is either planned or refused, never both.
pub proof fn law_plan_accounts_for_all(
    ts: Seq<TargetView>,
    root: Seq<char>,
    allow_any: bool,
    k: nat,
)
    requires
        k <= ts.len(),
    ensures
        items_upto(ts, root, allow_any, k).len() + rejected_upto(ts, root, allow_any, k).len() == k,
    decreases k,
{
    if k > 0 {
        law_plan_accounts_for_all(ts, root, allow_any, (k - 1) as nat);
    }
}

/// The accepted ones of the targets, in order.
pub open spec fn accepted(ts: Seq<TargetView>, root: Seq<char>, allow_any: bool) -> Seq<
    TargetView,
> {
    ts.filter(|t: TargetView| refusal(t.path, root, t.facts, allow_any) is None)
}

/// The refused ones of the targets, in order.
pub open spec fn refused(ts: Seq<TargetView>, root: Seq<char>, allow_any: bool) -> Seq<TargetView> {
    ts.filter(|t: TargetView| refusal(t.path, root, t.facts, allow_any) is Some)
}

/// A plan holds the accepted targets in the order in which they were asked for, each with
/// its own path, its own size and the rule that it matches, and the refused ones in that
/// order, each with its own path and why it was refused.
pub proof fn law_plan_keeps_targets_as_they_are(
    ts: Seq<TargetView>,
    root: Seq<char>,
    allow_any: bool,
)
    ensures
        ({
            let items = items_upto(ts, root, allow_any, ts.len());
            let yes = accepted(ts, root, allow_any);
            &&& items.len() == yes.len()
            &&& forall|i: int|
                0 <= i < items.len() ==> {
                    &&& (#[trigger] items[i]).path == yes[i].path
                    &&& items[i].bytes == yes[i].bytes
                    &&& items[i].category is Some <==> yes[i].facts.class is Some
                    &&& items[i].note is Some <==> yes[i].facts.class is Some
                    &&& yes[i].facts.class matches Some(c) ==> items[i].category == Some(c.0)
                        && items[i].note == Some(c.1)
                }
        }),
        ({
            let rejected = rejected_upto(ts, root, allow_any, ts.len());
            let no = refused(ts, root, allow_any);
            &&& rejected.len() == no.len()
            &&& forall|i: int|
                0 <= i < rejected.len() ==> {
                    &&& (#[trigger] rejected[i]).0 == no[i].path
                    &&& refusal(no[i].path, root, no[i].facts, allow_any) == Some(rejected[i].1)
                }
        }),
    decreases ts.len(),
{
    reveal(Seq::filter);
    if ts.len() > 0 {
        let before = ts.drop_last();
        law_plan_keeps_targets_as_they_are(before, root, allow_any);
        lemma_plan_prefix(ts, root, allow_any, before.len());
    }
}

/// The plan of the first targets does not depend on those that follow.
proof fn lemma_plan_prefix(ts: Seq<TargetView>, root: Seq<char>, allow_any: bool, k: nat)
    requires
        k < ts.len(),
    ensures
        items_upto(ts.drop_last(), root, allow_any, k) == items_upto(ts, root, allow_any, k),
        rejected_upto(ts.drop_last(), root, allow_any, k) == rejected_upto(ts, root, allow_any, k),
    decreases k,
{
    if k > 0 {
        lemma_plan_prefix(ts, root, allow_any, (k - 1) as nat);
    }
}

/// What went to the trash counts with all the bytes of its item and carries no error; what
/// did not counts for nothing and says what stood in the way.
pub proof fn law_outcome_is_all_or_nothing(item: ItemView, error: Option<Seq<char>>)
    ensures
        outcome(item, error).path == item.path,
        error is None ==> outcome(item, error).trashed && outcome(item, error).bytes == item.bytes,
        error is Some ==> !outcome(item, error).trashed && outcome(item, error).bytes == 0,
        outcome(item, error).error == error,
{
}

/// Where nothing overflows, a directory occupies 512 bytes for each block of each file
/// below it.
pub proof fn law_measure_counts_blocks(blocks: Seq<u64>)
    requires
        util::sum(blocks) * 512 <= u64::MAX,
    ensures
        util::sum64(blocks.map_values(|b: u64| allocated_bytes(b))) == util::sum(blocks) * 512,
{
    lemma_blocks(blocks);
    util::law_sum_is_exact(blocks.map_values(|b: u64| allocated_bytes(b)));
}

proof fn lemma_blocks(blocks: Seq<u64>)
    requires
        util::sum(blocks) * 512 <= u64::MAX,
    ensures
        util::sum(blocks.map_values(|b: u64| allocated_bytes(b))) == util::sum(blocks) * 512,
    decreases blocks.len(),
{
    let each = blocks.map_values(|b: u64| allocated_bytes(b));
    if blocks.len() > 0 {
        lemma_blocks(blocks.drop_last());
        assert(each.drop_last() =~= blocks.drop_last().map_values(|b: u64| allocated_bytes(b)));
    }
}

} // verus!
