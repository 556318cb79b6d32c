//! What the command line and the listings promise.

use vstd::prelude::*;

use crate::caches::{Category, IndexHitView};
use crate::cli;
use crate::cli::{ArgsView, Task};
use crate::live;
use crate::live::Reason;
use crate::path;
use crate::path_laws;
use crate::report;
use crate::report::ListedView;
use crate::rules;
use crate::text;
use crate::util;

verus! {

// ---- arguments ------------------------------------------------------------------------------

/// Whether one of the arguments from the `k`-th on is `x`.
pub open spec fn given(rest: Seq<Seq<char>>, k: nat, x: Seq<char>) -> bool {
    exists|i: int| k <= i < rest.len() && #[trigger] rest[i] == x
}

proof fn lemma_given(rest: Seq<Seq<char>>, k: nat, x: Seq<char>)
    requires
        k < rest.len(),
    ensures
        given(rest, k, x) <==> rest[k as int] == x || given(rest, k + 1, x),
{
    if given(rest, k, x) {
        let i = choose|i: int| k <= i < rest.len() && #[trigger] rest[i] == x;
        if i > k {
            assert(rest[i] == x);
        }
    }
    if given(rest, k + 1, x) {
        let i = choose|i: int| k + 1 <= i < rest.len() && #[trigger] rest[i] == x;
        assert(rest[i] == x);
    }
}

proof fn lemma_flags()
    ensures
        "--json"@.len() == 6 && "--json"@[0] == '-' && "--json"@[2] == 'j',
        "--full"@.len() == 6 && "--full"@[0] == '-' && "--full"@[2] == 'f',
        "--yes"@.len() == 5 && "--yes"@[0] == '-' && "--yes"@[2] == 'y',
        "-y"@.len() == 2 && "-y"@[0] == '-',
        "--allow-any"@.len() == 11 && "--allow-any"@[0] == '-' && "--allow-any"@[2] == 'a',
        "--min"@.len() == 5 && "--min"@[0] == '-' && "--min"@[2] == 'm',
{
    reveal_strlit("--json");
    reveal_strlit("--full");
    reveal_strlit("--yes");
    reveal_strlit("-y");
    reveal_strlit("--allow-any");
    reveal_strlit("--min");
}

/// What begins with `-` is no number.
proof fn lemma_no_number(s: Seq<char>)
    requires
        s.len() > 0,
        s[0] == '-',
    ensures
        cli::number_of(s) is None,
{
    if text::all_digits(s) {
        assert('0' <= s[0] <= '9');
    }
}

#[verifier::spinoff_prover]
proof fn lemma_reading(rest: Seq<Seq<char>>, k: nat, a: ArgsView)
    requires
        k <= rest.len(),
    ensures
        cli::reading(rest, k, a) matches Ok(b) ==> {
            &&& b.json <==> a.json || given(rest, k, "--json"@)
            &&& b.full <==> a.full || given(rest, k, "--full"@)
            &&& b.yes <==> a.yes || given(rest, k, "--yes"@) || given(rest, k, "-y"@)
            &&& b.allow_any <==> a.allow_any || given(rest, k, "--allow-any"@)
            &&& !given(rest, k, "--min"@) ==> b.min == a.min
        },
    decreases rest.len() - k,
{
    lemma_flags();
    if k < rest.len() {
        let arg = rest[k as int];
        lemma_given(rest, k, "--json"@);
        lemma_given(rest, k, "--full"@);
        lemma_given(rest, k, "--yes"@);
        lemma_given(rest, k, "-y"@);
        lemma_given(rest, k, "--allow-any"@);
        lemma_given(rest, k, "--min"@);
        if arg == "--json"@ {
            lemma_reading(rest, k + 1, ArgsView { json: true, ..a });
        } else if arg == "--full"@ {
            lemma_reading(rest, k + 1, ArgsView { full: true, ..a });
        } else if arg == "--yes"@ || arg == "-y"@ {
            lemma_reading(rest, k + 1, ArgsView { yes: true, ..a });
        } else if arg == "--allow-any"@ {
            lemma_reading(rest, k + 1, ArgsView { allow_any: true, ..a });
        } else if arg == "--min"@ {
            if k + 1 < rest.len() {
                let value = rest[k as int + 1];
                if let Some(n) = cli::number_of(value) {
                    if value.len() > 0 && value[0] == '-' {
                        lemma_no_number(value);
                    }
                    lemma_given(rest, k + 1, "--json"@);
                    lemma_given(rest, k + 1, "--full"@);
                    lemma_given(rest, k + 1, "--yes"@);
                    lemma_given(rest, k + 1, "-y"@);
                    lemma_given(rest, k + 1, "--allow-any"@);
                    lemma_reading(rest, k + 2, ArgsView { min: n, ..a });
                }
            }
        } else {
            lemma_reading(
                rest,
                k + 1,
                ArgsView { positional: a.positional.push(arg), ..a },
            );
        }
    }
}

/// A flag is set just where it is given, wherever it stands.
pub proof fn law_flags_are_set_where_given(rest: Seq<Seq<char>>)
    ensures
        cli::reading(rest, 0, cli::no_args()) matches Ok(a) ==> {
            &&& a.json <==> rest.contains("--json"@)
            &&& a.full <==> rest.contains("--full"@)
            &&& a.yes <==> rest.contains("--yes"@) || rest.contains("-y"@)
            &&& a.allow_any <==> rest.contains("--allow-any"@)
            &&& !rest.contains("--min"@) ==> a.min == 0
        },
{
    lemma_reading(rest, 0, cli::no_args());
    assert forall|x: Seq<char>| #[trigger] given(rest, 0, x) <==> rest.contains(x) by {
        if rest.contains(x) {
            let i = choose|i: int| 0 <= i < rest.len() && rest[i] == x;
            assert(rest[i] == x);
        }
    }
}

/// Whether an argument is a flag that stands by itself.
pub open spec fn lone_flag(s: Seq<char>) -> bool {
    s == "--json"@ || s == "--full"@ || s == "--yes"@ || s == "-y"@ || s == "--allow-any"@
}

/// Tells the arguments that are no flags.
pub open spec fn no_flag() -> spec_fn(Seq<char>) -> bool {
    |s: Seq<char>| !(s.len() > 0 && s[0] == '-')
}

#[verifier::spinoff_prover]
proof fn lemma_positional(rest: Seq<Seq<char>>, k: nat, a: ArgsView)
    requires
        k <= rest.len(),
        forall|i: int| k <= i < rest.len() ==> #[trigger] rest[i] != "--min"@,
    ensures
        cli::reading(rest, k, a) is Ok <==> forall|i: int|
            k <= i < rest.len() ==> lone_flag(#[trigger] rest[i]) || no_flag()(rest[i]),
        cli::reading(rest, k, a) matches Ok(b) ==> b.positional == a.positional + rest.skip(
            k as int,
        ).filter(no_flag()),
    decreases rest.len() - k,
{
    lemma_flags();
    let f = no_flag();
    reveal_with_fuel(Seq::filter, 1);
    if k == rest.len() {
        assert(rest.skip(k as int) =~= Seq::<Seq<char>>::empty());
        assert(rest.skip(k as int).filter(f) =~= Seq::<Seq<char>>::empty());
        assert(a.positional + Seq::<Seq<char>>::empty() =~= a.positional);
    } else {
        let arg = rest[k as int];
        let tail = rest.skip(k as int + 1);
        assert(rest.skip(k as int) =~= seq![arg] + tail);
        lemma_filter_front(arg, tail, f);
        let next = if arg == "--json"@ {
            ArgsView { json: true, ..a }
        } else if arg == "--full"@ {
            ArgsView { full: true, ..a }
        } else if arg == "--yes"@ || arg == "-y"@ {
            ArgsView { yes: true, ..a }
        } else if arg == "--allow-any"@ {
            ArgsView { allow_any: true, ..a }
        } else {
            ArgsView { positional: a.positional.push(arg), ..a }
        };
        lemma_positional(rest, k + 1, next);
        assert(a.positional.push(arg) + tail.filter(f) =~= a.positional + (seq![arg] + tail.filter(
            f,
        )));
        if lone_flag(arg) || f(arg) {
            assert(cli::reading(rest, k, a) == cli::reading(rest, k + 1, next));
        }
    }
}

proof fn lemma_filter_front(x: Seq<char>, s: Seq<Seq<char>>, f: spec_fn(Seq<char>) -> bool)
    ensures
        (seq![x] + s).filter(f) == (if f(x) {
            seq![x] + s.filter(f)
        } else {
            s.filter(f)
        }),
    decreases s.len(),
{
    let all = seq![x] + s;
    text::lemma_filter_last(all, f);
    reveal_with_fuel(Seq::filter, 1);
    if s.len() == 0 {
        assert(all.drop_last() =~= Seq::<Seq<char>>::empty());
        assert(all.drop_last().filter(f) =~= Seq::<Seq<char>>::empty());
        assert(s.filter(f) =~= Seq::<Seq<char>>::empty());
        assert(all.last() == x);
        assert(Seq::<Seq<char>>::empty().push(x) =~= seq![x] + s.filter(f));
    } else {
        assert(all.drop_last() =~= seq![x] + s.drop_last());
        assert(all.last() == s.last());
        lemma_filter_front(x, s.drop_last(), f);
        text::lemma_filter_last(s, f);
        if f(x) && f(s.last()) {
            assert((seq![x] + s.drop_last().filter(f)).push(s.last()) =~= seq![x]
                + s.drop_last().filter(f).push(s.last()));
        }
    }
}

/// Without a minimum, arguments are understood just where each that begins with `-` is a
/// known flag, and the others are the positional ones, in order.
pub proof fn law_other_arguments_are_positional(rest: Seq<Seq<char>>)
    requires
        !rest.contains("--min"@),
    ensures
        cli::reading(rest, 0, cli::no_args()) is Ok <==> forall|i: int|
            0 <= i < rest.len() ==> lone_flag(#[trigger] rest[i]) || !(rest[i].len() > 0
                && rest[i][0] == '-'),
        cli::reading(rest, 0, cli::no_args()) matches Ok(a) ==> a.positional == rest.filter(
            no_flag(),
        ),
{
    assert forall|i: int| 0 <= i < rest.len() implies #[trigger] rest[i] != "--min"@ by {
        assert(rest.contains(rest[i]));
    }
    lemma_positional(rest, 0, cli::no_args());
    assert(rest.skip(0) =~= rest);
    assert(Seq::<Seq<char>>::empty() + rest.filter(no_flag()) =~= rest.filter(no_flag()));
}

/// A minimum is the number behind it, and without a number nothing is understood. What
/// comes behind that is read on.
pub proof fn law_minimum_takes_its_number(rest: Seq<Seq<char>>, k: nat, a: ArgsView)
    requires
        k < rest.len(),
        rest[k as int] == "--min"@,
    ensures
        k + 1 == rest.len() ==> cli::reading(rest, k, a) == Err::<ArgsView, Seq<char>>(
            "--min needs a value"@,
        ),
        k + 1 < rest.len() ==> match text::unsigned_value(rest[k as int + 1]) {
            Some(n) if n <= u64::MAX => cli::reading(rest, k, a) == cli::reading(
                rest,
                k + 2,
                ArgsView { min: n as u64, ..a },
            ),
            _ => cli::reading(rest, k, a) == Err::<ArgsView, Seq<char>>(
                "--min: not a number: "@ + rest[k as int + 1],
            ),
        },
{
    lemma_flags();
}

/// Each command is carried out with what was read for it, an unknown one fails, and what
/// cannot be read fails before the command is looked at.
pub proof fn law_commands_are_told_apart(command: Seq<char>, rest: Seq<Seq<char>>, t: Task)
    requires
        cli::task_for(command, rest, t),
    ensures
        cli::reading(rest, 0, cli::no_args()) is Err ==> (t matches Task::Fail(code, _)
            && code == 2),
        cli::reading(rest, 0, cli::no_args()) matches Ok(a) ==> {
            &&& command == "scan"@ <==> (t matches Task::Scan(x) && x@ == a)
            &&& command == "caches"@ <==> (t matches Task::Caches(x) && x@ == a)
            &&& command == "status"@ <==> (t matches Task::Status(x) && x@ == a)
            &&& command == "trash"@ <==> (t matches Task::Trash(x) && x@ == a)
            &&& t matches Task::Fail(code, _) ==> code == 1
        },
{
    reveal_strlit("scan");
    reveal_strlit("caches");
    reveal_strlit("status");
    reveal_strlit("trash");
    assert("scan"@.len() == 4 && "caches"@[0] == 'c' && "status"@[0] == 's' && "trash"@[0] == 't');
    assert("caches"@.len() == 6 && "status"@.len() == 6 && "trash"@.len() == 5);
}

/// `~` is the home directory, and what follows `~/` lies in it; a path from the root stays
/// as it is, and any other lies in the current directory.
pub proof fn law_tilde_is_home(name: Seq<char>, raw: Seq<char>, home: Seq<char>, cwd: Seq<char>)
    requires
        home.len() > 0,
        cwd.len() > 0,
        path_laws::entry_name(name),
        name[0] != '~',
    ensures
        cli::expanded("~"@, Some(home), cwd) == home,
        path::comps(cli::expanded("~/"@ + name, Some(home), cwd)) == path::comps(home).push(name),
        path::comps(cli::expanded(name, Some(home), cwd)) == path::comps(cwd).push(name),
        raw.len() > 0 && raw[0] == '/' ==> cli::expanded(raw, Some(home), cwd) == raw,
{
    reveal_strlit("~");
    reveal_strlit("~/");
    let t = "~/"@ + name;
    assert(t.skip(2) =~= name);
    assert("~/"@.is_prefix_of(t)) by {
        assert(t.take(2) =~= "~/"@);
    }
    assert(t.len() >= 3 && "~"@.len() == 1);
    path_laws::law_joining_adds_a_name(home, name);
    path_laws::law_joining_adds_a_name(cwd, name);
    assert(!"~/"@.is_prefix_of(name)) by {
        if "~/"@.is_prefix_of(name) {
            assert(name.take(2)[0] == "~/"@[0]);
        }
    }
    assert(name != "~"@) by {
        assert("~"@[0] == '~');
    }
    if raw.len() > 0 && raw[0] == '/' {
        assert(!"~/"@.is_prefix_of(raw)) by {
            if "~/"@.is_prefix_of(raw) {
                assert(raw.take(2)[0] == "~/"@[0]);
            }
        }
        assert("~"@[0] == '~');
    }
}

// ---- listings ---------------------------------------------------------------------------------

/// What is asked for is what lies at, below or above the path, frees at least as much as
/// is asked, and is of the category, if one is; in order, and nothing else.
pub proof fn law_listing_holds_what_is_asked_for(
    hs: Seq<IndexHitView>,
    p: Seq<char>,
    min: u64,
    category: Option<Seq<char>>,
)
    ensures
        report::asked_upto(hs, p, min, category, hs.len()) == hs.filter(
            |h: IndexHitView|
                (path::within(h.path, p) || path::within(p, h.path)) && h.private >= min && (
                category matches Some(c) ==> report::category_named(c, h.category)),
        ),
    decreases hs.len(),
{
    let f = |h: IndexHitView|
        (path::within(h.path, p) || path::within(p, h.path)) && h.private >= min && (
        category matches Some(c) ==> report::category_named(c, h.category));
    if hs.len() == 0 {
        reveal_with_fuel(Seq::filter, 1);
        assert(hs.filter(f) =~= Seq::<IndexHitView>::empty());
    } else {
        let front = hs.drop_last();
        law_listing_holds_what_is_asked_for(front, p, min, category);
        lemma_asked_prefix(hs, front, p, min, category, front.len());
        text::lemma_filter_last(hs, f);
        assert(f(hs.last()) <==> report::asked_for(hs.last(), p, min, category));
    }
}

proof fn lemma_asked_prefix(
    a: Seq<IndexHitView>,
    b: Seq<IndexHitView>,
    p: Seq<char>,
    min: u64,
    category: Option<Seq<char>>,
    k: nat,
)
    requires
        k <= b.len() <= a.len(),
        forall|i: int| 0 <= i < b.len() ==> #[trigger] a[i] == b[i],
    ensures
        report::asked_upto(a, p, min, category, k) == report::asked_upto(b, p, min, category, k),
    decreases k,
{
    if k > 0 {
        lemma_asked_prefix(a, b, p, min, category, (k - 1) as nat);
    }
}

/// A filter goes by the label of a category in any case, and a part of it is enough; some
/// have other common names.
pub proof fn law_categories_are_named_in_any_case(filter: Seq<char>, c: Category)
    ensures
        report::category_named(filter, c) == report::category_named(text::lowered(filter), c),
        report::category_named(rules::category_label(c), c),
        text::lowered(filter) == "js"@ || text::lowered(filter) == "ts"@ || text::lowered(filter)
            == "node"@ ==> report::category_named(filter, Category::JsTs),
        text::lowered(filter) == "java"@ ==> report::category_named(filter, Category::Jvm),
        text::lowered(filter) == "xcode"@ || text::lowered(filter) == "swift"@ || text::lowered(
            filter,
        ) == "ios"@ ==> report::category_named(filter, Category::Apple),
        report::category_named(filter, c) && c != Category::JsTs && c != Category::Jvm && c
            != Category::Apple ==> text::occurs_in(
            text::lowered(rules::category_label(c)),
            text::lowered(filter),
        ),
{
    let low = text::lowered(filter);
    assert(text::lowered(low) =~= low) by {
        crate::text_laws::law_lower_case(filter);
    }
    let label = text::lowered(rules::category_label(c));
    assert(label.subrange(0, label.len() as int) =~= label);
    assert(text::occurs_at(label, label, 0));
    assert(text::occurs_in(label, label));
}

/// A directory is told to be in use just where a reference lies in it, or in what it leads
/// to, and then by the first such reference.
pub proof fn law_in_use_is_told_by_a_reference(
    refs: Seq<(Seq<char>, Reason)>,
    dir: Seq<char>,
    resolved: Seq<char>,
)
    ensures
        report::use_text(refs, dir, resolved) is Some <==> exists|k: int|
            0 <= k < refs.len() && (path::within((#[trigger] refs[k]).0, dir) || path::within(
                refs[k].0,
                resolved,
            )),
        report::use_text(refs, dir, resolved) matches Some(t) ==> exists|k: int|
            0 <= k < refs.len() && (path::within((#[trigger] refs[k]).0, dir) || path::within(
                refs[k].0,
                resolved,
            )) && t == refs[k].0 + " — "@ + live::reason_text(refs[k].1),
{
    let keep = live::guards(dir, resolved);
    let users = refs.filter(keep);
    if users.len() > 0 {
        text::lemma_filter_members(refs, keep, 0);
        let k = choose|k: int| 0 <= k < refs.len() && refs[k] == users[0];
        assert(path::within(refs[k].0, dir) || path::within(refs[k].0, resolved));
    }
    if exists|k: int|
        0 <= k < refs.len() && (path::within((#[trigger] refs[k]).0, dir) || path::within(
            refs[k].0,
            resolved,
        )) {
        let k = choose|k: int|
            0 <= k < refs.len() && (path::within((#[trigger] refs[k]).0, dir) || path::within(
                refs[k].0,
                resolved,
            ));
        assert(keep(refs[k]));
        text::lemma_filter_keeps(refs, keep, k);
    }
}

/// Of a directory in use it is said so; of another that seems to take more than twice what
/// it frees, how much it seems to take; of any other nothing.
pub proof fn law_remarks_warn_of_use_first(l: ListedView)
    ensures
        l.in_use matches Some(u) ==> u.is_suffix_of(report::remark(l)) && report::remark(l).len()
            > u.len(),
        l.in_use is None ==> (report::remark(l).len() > 0 <==> l.hit.size > 2 * l.hit.private),
        l.in_use is None && l.hit.size > 2 * l.hit.private ==> text::occurs_in(
            report::remark(l),
            util::human_size(l.hit.size),
        ),
{
    reveal_strlit("  ⚠ IN USE: ");
    reveal_strlit(" (looks like ");
    let t = report::remark(l);
    match l.in_use {
        Some(u) => {
            assert(t.subrange(t.len() - u.len(), t.len() as int) =~= u);
        },
        None => {
            if l.hit.size > 2 * l.hit.private {
                let h = util::human_size(l.hit.size);
                let n = " (looks like "@.len() as int;
                assert(t.subrange(n, n + h.len()) =~= h);
                assert(text::occurs_at(t, h, n));
            }
        },
    }
}

/// What a known cache holds of its own is what its last entry says; where none has the path,
/// nothing is known.
pub proof fn law_known_bytes_are_unshared(hs: Seq<IndexHitView>, p: Seq<char>, k: nat)
    requires
        k <= hs.len(),
    ensures
        match report::known_bytes(hs, p, k) {
            Some(n) => exists|i: int|
                0 <= i < k && path::same((#[trigger] hs[i]).path, p) && n == hs[i].private
                    && forall|j: int|
                    i < j < k ==> !path::same((#[trigger] hs[j]).path, p),
            None => forall|i: int| 0 <= i < k ==> !path::same((#[trigger] hs[i]).path, p),
        },
    decreases k,
{
    if k > 0 && !path::same(hs[k - 1].path, p) {
        law_known_bytes_are_unshared(hs, p, (k - 1) as nat);
        if let Some(n) = report::known_bytes(hs, p, (k - 1) as nat) {
            let i = choose|i: int|
                0 <= i < k - 1 && path::same((#[trigger] hs[i]).path, p) && n == hs[i].private
                    && forall|j: int|
                    i < j < k - 1 ==> !path::same((#[trigger] hs[j]).path, p);
            assert(path::same(hs[i].path, p));
        }
    } else if k > 0 {
        assert(path::same(hs[k - 1].path, p));
    }
}

/// A cache that is a link is in use where something is used at its target; what is no link
/// stands for itself.
pub proof fn law_links_are_in_use_at_their_target(
    refs: Seq<(Seq<char>, Reason)>,
    dir: Seq<char>,
    target: Seq<char>,
    k: int,
)
    requires
        0 <= k < refs.len(),
    ensures
        path::within(refs[k].0, target) ==> report::use_text(
            refs,
            dir,
            report::leads_to(Some(target), dir),
        ) is Some,
        path::within(refs[k].0, dir) ==> report::use_text(refs, dir, report::leads_to(None, dir))
            is Some,
        (forall|i: int| 0 <= i < refs.len() ==> !path::within((#[trigger] refs[i]).0, dir))
            ==> report::use_text(refs, dir, report::leads_to(None, dir)) is None,
{
    let f = live::guards(dir, target);
    let g = live::guards(dir, dir);
    if path::within(refs[k].0, target) {
        assert(f(refs[k]));
        refs.lemma_filter_contains(f, k);
    }
    if path::within(refs[k].0, dir) {
        assert(g(refs[k]));
        refs.lemma_filter_contains(g, k);
    }
    if forall|i: int| 0 <= i < refs.len() ==> !path::within((#[trigger] refs[i]).0, dir) {
        if refs.filter(g).len() > 0 {
            text::lemma_filter_members(refs, g, 0);
        }
    }
}

} // verus!
