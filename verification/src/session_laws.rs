//! What is read from a listing of processes.

use vstd::prelude::*;

use crate::path;
use crate::path_laws;
use crate::sessions;
use crate::sessions::RowView;
use crate::text;

verus! {

// ---- names of clients -----------------------------------------------------------------------

/// Whether a component tells nothing of a product: a version, or a part that every bundle or
/// installation has.
pub open spec fn tells_nothing(c: Seq<char>) -> bool {
    ||| c.len() > 0 && '0' <= c[0] <= '9'
    ||| c == "versions"@
    ||| c == "bin"@
    ||| c == "MacOS"@
    ||| c == "Contents"@
    ||| c == "Frameworks"@
    ||| c == "Resources"@
    ||| c == "Helpers"@
}

proof fn lemma_product_front(a: Seq<Seq<char>>, b: Seq<Seq<char>>, k: nat)
    requires
        k <= a.len(),
        k <= b.len(),
        forall|i: int| 0 <= i < k ==> a[i] == b[i],
    ensures
        sessions::product(a, k) == sessions::product(b, k),
    decreases k,
{
    if k > 0 {
        lemma_product_front(a, b, (k - 1) as nat);
    }
}

/// A client is called by the last component of its executable that tells something, without
/// the ending of a bundle; what comes behind that does not matter.
pub proof fn law_clients_are_called_by_their_product(base: Seq<char>, name: Seq<char>)
    requires
        base.len() > 0,
        path_laws::entry_name(name),
    ensures
        !tells_nothing(name) && !".app"@.is_suffix_of(name) ==> sessions::named(
            path::join_text(base, name),
        ) == name,
        !tells_nothing(name) && ".app"@.is_suffix_of(name) ==> sessions::named(
            path::join_text(base, name),
        ) + ".app"@ == name,
        tells_nothing(name) && (exists|i: int|
            0 <= i < path::comps(base).len() && !tells_nothing(#[trigger] path::comps(base)[i]))
            ==> sessions::named(path::join_text(base, name)) == sessions::named(base),
{
    path_laws::law_joining_adds_a_name(base, name);
    let t = path::join_text(base, name);
    let cs = path::comps(t);
    let up = path::comps(base);
    assert(cs.last() == name);
    assert(sessions::reads_like_product(name) <==> !tells_nothing(name));
    lemma_product_front(cs, up, up.len());
    reveal_strlit(".app");
    if ".app"@.is_suffix_of(name) {
        let n = name.len() as int;
        assert(name.subrange(n - 4, n) =~= ".app"@);
        assert(name.take(n - 4) + name.subrange(n - 4, n) =~= name);
    }
    if exists|i: int| 0 <= i < up.len() && !tells_nothing(#[trigger] up[i]) {
        let i = choose|i: int| 0 <= i < up.len() && !tells_nothing(#[trigger] up[i]);
        lemma_product_found(up, up.len(), i);
    }
}

proof fn lemma_product_found(cs: Seq<Seq<char>>, k: nat, i: int)
    requires
        0 <= i < k <= cs.len(),
        !tells_nothing(cs[i]),
    ensures
        sessions::product(cs, k) is Some,
    decreases k,
{
    assert(sessions::reads_like_product(cs[i]));
    if i < k - 1 {
        lemma_product_found(cs, (k - 1) as nat, i);
    }
}

// ---- rows -------------------------------------------------------------------------------------

/// A line is a row just where it begins with two numbers that a process can have and
/// something follows; these are the process and its parent, and the rest, from where its
/// first word is first found, the arguments.
pub proof fn law_rows_begin_with_two_numbers(line: Seq<char>)
    ensures
        ({
            let ws = text::words(line);
            let a = text::signed_value(ws[0]);
            let b = text::signed_value(ws[1]);
            &&& sessions::row_of(line) is Some <==> ws.len() >= 3 && (a matches Some(n) && i32::MIN
                <= n <= i32::MAX) && (b matches Some(m) && i32::MIN <= m <= i32::MAX)
            &&& sessions::row_of(line) matches Some(r) ==> Some(r.pid) == a && Some(r.ppid) == b
                && (
            text::first_at(line, ws[2], 0) matches Some(i) ==> r.args == text::trim_end(
                line.skip(i as int),
            ))
        }),
{
}

/// Tells the rows of servers: those whose arguments end in the word `mcp` and hold the name.
pub open spec fn serves() -> spec_fn(RowView) -> bool {
    |r: RowView|
        text::words(r.args).len() > 0 && text::words(r.args).last() == "mcp"@ && text::occurs_in(
            r.args,
            "diskscour"@,
        )
}

/// There is a session for every row of a server, in order, with its process and called by
/// the process that launched it, and none besides; and the parents that are asked for are
/// those of the sessions.
pub proof fn law_every_server_is_a_session(
    rows: Seq<RowView>,
    exes: Seq<(i32, Seq<char>)>,
    k: nat,
)
    requires
        k <= rows.len(),
    ensures
        ({
            let some = rows.take(k as int).filter(serves());
            let ss = sessions::sessions_upto(rows, exes, k);
            let ps = sessions::parents_upto(rows, k);
            &&& ss.len() == some.len()
            &&& ps.len() == some.len()
            &&& forall|i: int|
                0 <= i < some.len() ==> (#[trigger] ss[i]).0 == some[i].pid as i32 && ss[i].1
                    == sessions::client_of(rows, exes, some[i].ppid)
            &&& forall|i: int| 0 <= i < some.len() ==> #[trigger] ps[i] == some[i].ppid as i32
        }),
    decreases k,
{
    let f = serves();
    let some = rows.take(k as int).filter(f);
    if k == 0 {
        reveal_with_fuel(Seq::filter, 1);
        assert(rows.take(0) =~= Seq::<RowView>::empty());
        assert(some.len() == 0);
    } else {
        law_every_server_is_a_session(rows, exes, (k - 1) as nat);
        assert(rows.take(k as int).drop_last() =~= rows.take(k - 1));
        text::lemma_filter_last(rows.take(k as int), f);
        let r = rows[k - 1];
        assert(rows.take(k as int).last() == r);
        assert(f(r) <==> sessions::is_server(r.args));
        let ss = sessions::sessions_upto(rows, exes, k);
        let ss0 = sessions::sessions_upto(rows, exes, (k - 1) as nat);
        let ps = sessions::parents_upto(rows, k);
        let ps0 = sessions::parents_upto(rows, (k - 1) as nat);
        let some0 = rows.take(k - 1).filter(f);
        assert forall|i: int| 0 <= i < some.len() implies (#[trigger] ss[i]).0 == some[i].pid as i32
            && ss[i].1 == sessions::client_of(rows, exes, some[i].ppid) by {
            if i < ss0.len() {
                assert(ss[i] == ss0[i]);
                assert(some[i] == some0[i]);
            }
        }
        assert forall|i: int| 0 <= i < some.len() implies #[trigger] ps[i] == some[i].ppid as i32 by {
            if i < ps0.len() {
                assert(ps[i] == ps0[i]);
                assert(some[i] == some0[i]);
            }
        }
    }
}

/// Every line that is a row is one, in order.
pub proof fn law_no_row_is_lost(lines: Seq<Seq<char>>, k: nat, i: int)
    requires
        0 <= i < k <= lines.len(),
    ensures
        sessions::row_of(lines[i]) matches Some(r) ==> sessions::rows_upto(lines, k).contains(r),
        sessions::rows_upto(lines, k).len() <= k,
    decreases k,
{
    let before = sessions::rows_upto(lines, (k - 1) as nat);
    let now = sessions::rows_upto(lines, k);
    if k > 1 {
        law_no_row_is_lost(
            lines,
            (k - 1) as nat,
            if i < k - 1 {
                i
            } else {
                0
            },
        );
    }
    if let Some(r) = sessions::row_of(lines[i]) {
        if i < k - 1 {
            let j = choose|j: int| 0 <= j < before.len() && before[j] == r;
            assert(now[j] == r);
        } else {
            assert(now[before.len() as int] == r);
        }
    }
}

/// A client is called by the executable that the kernel names for it, where it names one;
/// otherwise by the first word of its row, and without a row by its number.
pub proof fn law_the_kernel_names_clients_first(
    rows: Seq<RowView>,
    exes: Seq<(i32, Seq<char>)>,
    pid: int,
    i: int,
)
    requires
        0 <= i < exes.len(),
        exes[i].0 == pid,
        forall|j: int| 0 <= j < i ==> (#[trigger] exes[j]).0 != pid,
    ensures
        sessions::client_of(rows, exes, pid) == sessions::named(exes[i].1),
{
    lemma_exe(exes, pid, i);
}

proof fn lemma_exe(exes: Seq<(i32, Seq<char>)>, pid: int, i: int)
    requires
        0 <= i < exes.len(),
        exes[i].0 == pid,
        forall|j: int| 0 <= j < i ==> (#[trigger] exes[j]).0 != pid,
    ensures
        sessions::exe_of(exes, pid) == Some(exes[i].1),
    decreases exes.len(),
{
    if i > 0 {
        assert(exes[0].0 != pid);
        assert forall|j: int| 0 <= j < i - 1 implies (#[trigger] exes.skip(1)[j]).0 != pid by {
            assert(exes[j + 1].0 != pid);
        }
        lemma_exe(exes.skip(1), pid, i - 1);
    }
}

/// Without an executable from the kernel a client is called by the first word of its first
/// row, and without a row by its number.
pub proof fn law_rows_name_clients_next(
    rows: Seq<RowView>,
    exes: Seq<(i32, Seq<char>)>,
    pid: int,
    i: int,
)
    requires
        forall|j: int| 0 <= j < exes.len() ==> (#[trigger] exes[j]).0 != pid,
        forall|j: int| 0 <= j < i && j < rows.len() ==> (#[trigger] rows[j]).pid != pid,
        0 <= i <= rows.len(),
        i < rows.len() ==> rows[i].pid == pid && text::words(rows[i].args).len() > 0,
    ensures
        i < rows.len() ==> sessions::client_of(rows, exes, pid) == sessions::named(
            text::words(rows[i].args)[0],
        ),
        i == rows.len() ==> sessions::client_of(rows, exes, pid) == "pid "@ + text::signed_decimal(
            pid,
        ),
{
    lemma_no_exe(exes, pid);
    lemma_listed(rows, pid, i);
}

proof fn lemma_no_exe(exes: Seq<(i32, Seq<char>)>, pid: int)
    requires
        forall|j: int| 0 <= j < exes.len() ==> (#[trigger] exes[j]).0 != pid,
    ensures
        sessions::exe_of(exes, pid) is None,
    decreases exes.len(),
{
    if exes.len() > 0 {
        assert(exes[0].0 != pid);
        assert forall|j: int| 0 <= j < exes.skip(1).len() implies (#[trigger] exes.skip(1)[j]).0
            != pid by {
            assert(exes[j + 1].0 != pid);
        }
        lemma_no_exe(exes.skip(1), pid);
    }
}

proof fn lemma_listed(rows: Seq<RowView>, pid: int, i: int)
    requires
        forall|j: int| 0 <= j < i && j < rows.len() ==> (#[trigger] rows[j]).pid != pid,
        0 <= i <= rows.len(),
        i < rows.len() ==> rows[i].pid == pid && text::words(rows[i].args).len() > 0,
    ensures
        i < rows.len() ==> sessions::listed_exe(rows, pid) == Some(text::words(rows[i].args)[0]),
        i == rows.len() ==> sessions::listed_exe(rows, pid) is None,
    decreases rows.len(),
{
    if i > 0 {
        assert(rows[0].pid != pid);
        let rest = rows.skip(1);
        assert forall|j: int| 0 <= j < i - 1 && j < rest.len() implies (#[trigger] rest[j]).pid
            != pid by {
            assert(rows[j + 1].pid != pid);
        }
        lemma_listed(rest, pid, i - 1);
    }
}

/// The parent of every server is looked up, and of nothing else.
pub proof fn law_parents_of_servers_are_looked_up(rows: Seq<RowView>, k: nat)
    requires
        k <= rows.len(),
    ensures
        sessions::parents_upto(rows, k) == rows.take(k as int).filter(
            |r: RowView| sessions::is_server(r.args),
        ).map_values(|r: RowView| r.ppid as i32),
    decreases k,
{
    let f = |r: RowView| sessions::is_server(r.args);
    let g = |r: RowView| r.ppid as i32;
    if k == 0 {
        reveal_with_fuel(Seq::filter, 1);
        assert(rows.take(0) =~= Seq::<RowView>::empty());
        assert(rows.take(0).filter(f).map_values(g) =~= Seq::<i32>::empty());
    } else {
        law_parents_of_servers_are_looked_up(rows, (k - 1) as nat);
        assert(rows.take(k as int).drop_last() =~= rows.take(k - 1));
        text::lemma_filter_last(rows.take(k as int), f);
        let some = rows.take(k - 1).filter(f);
        if f(rows[k - 1]) {
            assert(some.push(rows[k - 1]).map_values(g) =~= some.map_values(g).push(
                g(rows[k - 1]),
            ));
        }
    }
}

} // verus!
