//! Which agents are talking to the server: the live `diskscour mcp` processes and
//! the clients that launched them.

use vstd::prelude::*;

use crate::path;
use crate::path::components;
use crate::text;
use crate::text::{
    chars_of, contains, ends_with, find, parse_i32, signed_decimal_string, split_lines,
    split_words, str_eq, string_of, trim_right,
};

verus! {

/// A running MCP server process and the client that launched it.
#[derive(Debug, PartialEq, Eq)]
pub struct Session {
    pub pid: i32,
    /// A readable name of the parent process, e.g. `Cursor`.
    pub client: String,
}

/// The sessions, each as its process and its client.
pub open spec fn sessions_view(v: Seq<Session>) -> Seq<(i32, Seq<char>)> {
    v.map_values(|s: Session| (s.pid, s.client@))
}

// ---- client names -----------------------------------------------------------------

/// Whether a component is plumbing of a bundle or an installation, not a product.
pub open spec fn plumbing(c: Seq<char>) -> bool {
    ||| c == "versions"@
    ||| c == "bin"@
    ||| c == "MacOS"@
    ||| c == "Contents"@
    ||| c == "Frameworks"@
    ||| c == "Resources"@
    ||| c == "Helpers"@
}

/// Whether a component reads like a product: it is no plumbing and starts with no
/// digit.
pub open spec fn reads_like_product(c: Seq<char>) -> bool {
    !plumbing(c) && !(c.len() > 0 && '0' <= c[0] <= '9')
}

/// The last of the first `k` components that reads like a product.
pub open spec fn product(cs: Seq<Seq<char>>, k: nat) -> Option<Seq<char>>
    decreases k,
{
    if k == 0 {
        None
    } else if reads_like_product(cs[k - 1]) {
        Some(cs[k - 1])
    } else {
        product(cs, (k - 1) as nat)
    }
}

/// `c` without the ending `.app`.
pub open spec fn without_app(c: Seq<char>) -> Seq<char> {
    if ".app"@.is_suffix_of(c) {
        c.take(c.len() - 4)
    } else {
        c
    }
}

/// A readable name for a client from its executable path.
pub open spec fn named(exe: Seq<char>) -> Seq<char> {
    match product(path::comps(exe), path::comps(exe).len()) {
        Some(c) => without_app(c),
        None => exe,
    }
}

fn is_plumbing(c: &str) -> (r: bool)
    ensures
        r == plumbing(c@),
{
    str_eq(c, "versions") || str_eq(c, "bin") || str_eq(c, "MacOS") || str_eq(c, "Contents")
        || str_eq(c, "Frameworks") || str_eq(c, "Resources") || str_eq(c, "Helpers")
}

fn is_product(c: &str) -> (r: bool)
    ensures
        r == reads_like_product(c@),
{
    let cs = chars_of(c);
    !is_plumbing(c) && !(cs.len() > 0 && '0' <= cs[0] && cs[0] <= '9')
}

/// A readable name for a client from its executable path. Launchers hide the
/// product name behind bundle plumbing (`Cursor.app/Contents/MacOS/Cursor`) or a
/// version directory (`~/.local/share/tool/versions/2.1.259`), so the name is
/// that of the last component that reads like a product.
pub fn client_name(exe: &str) -> (r: String)
    ensures
        r@ == named(exe@),
{
    let cs = components(exe);
    let ghost all = path::comps(exe@);
    let mut k: usize = cs.len();
    assert(all.len() == k);
    while k > 0
        invariant
            all == path::comps(exe@),
            text::strs(cs@) == all,
            k <= cs@.len(),
            product(all, all.len()) == product(all, k as nat),
        decreases k,
    {
        let c = &cs[k - 1];
        assert(c@ == all[k - 1]);
        if is_product(c.as_str()) {
            if ends_with(c.as_str(), ".app") {
                let chars = chars_of(c.as_str());
                proof {
                    reveal_strlit(".app");
                }
                let n: usize = chars.len() - 4;
                assert(chars@.subrange(0, n as int) =~= c@.take(c@.len() - 4));
                return string_of(&chars.as_slice()[0..n]);
            }
            return c.clone();
        }
        k -= 1;
    }
    exe.to_owned()
}

// ---- the process list -------------------------------------------------------------

/// A line of a `ps -axo pid=,ppid=,args=` listing.
pub struct Row {
    pub pid: i32,
    pub ppid: i32,
    pub args: String,
}

/// A line of a process listing, with characters for its arguments.
#[verifier::ext_equal]
pub struct RowView {
    pub pid: int,
    pub ppid: int,
    pub args: Seq<char>,
}

impl View for Row {
    type V = RowView;

    open spec fn view(&self) -> RowView {
        RowView { pid: self.pid as int, ppid: self.ppid as int, args: self.args@ }
    }
}

/// The rows, each as what it says.
pub open spec fn rows_view(v: Seq<Row>) -> Seq<RowView> {
    v.map_values(|r: Row| r@)
}

/// A number that a process can have.
pub open spec fn process_number(w: Seq<char>) -> Option<int> {
    match text::signed_value(w) {
        Some(n) => if i32::MIN <= n <= i32::MAX {
            Some(n)
        } else {
            None
        },
        None => None,
    }
}

/// What a line of the listing says: two numbers, then the arguments, from where
/// their first word is first found in the line.
pub open spec fn row_of(line: Seq<char>) -> Option<RowView> {
    let ws = text::words(line);
    if ws.len() < 3 {
        None
    } else {
        match (process_number(ws[0]), process_number(ws[1])) {
            (Some(pid), Some(ppid)) => {
                let start = match text::first_at(line, ws[2], 0) {
                    Some(i) => i,
                    None => 0,
                };
                Some(RowView { pid, ppid, args: text::trim_end(line.skip(start as int)) })
            },
            _ => None,
        }
    }
}

/// The rows among the first `k` lines.
pub open spec fn rows_upto(lines: Seq<Seq<char>>, k: nat) -> Seq<RowView>
    decreases k,
{
    if k == 0 {
        Seq::empty()
    } else {
        match row_of(lines[k - 1]) {
            Some(r) => rows_upto(lines, (k - 1) as nat).push(r),
            None => rows_upto(lines, (k - 1) as nat),
        }
    }
}

/// The rows of a process listing.
pub open spec fn rows_in(ps: Seq<char>) -> Seq<RowView> {
    rows_upto(text::lines(ps), text::lines(ps).len())
}

fn row_in(line: &str) -> (r: Option<Row>)
    ensures
        match r {
            Some(row) => row_of(line@) == Some(row@),
            None => row_of(line@) is None,
        },
{
    let ws = split_words(line);
    let ghost words = text::words(line@);
    assert(words.len() == ws@.len());
    if ws.len() < 3 {
        return None;
    }
    assert(words[0] == ws@[0]@ && words[1] == ws@[1]@ && words[2] == ws@[2]@);
    match (parse_i32(ws[0].as_str()), parse_i32(ws[1].as_str())) {
        (Some(pid), Some(ppid)) => {
            let chars = chars_of(line);
            let first = chars_of(ws[2].as_str());
            let start: usize = match find(chars.as_slice(), first.as_slice()) {
                Some(i) => i,
                None => 0,
            };
            let rest = string_of(&chars.as_slice()[start..chars.len()]);
            assert(rest@ =~= line@.skip(start as int));
            Some(Row { pid, ppid, args: trim_right(rest.as_str()) })
        },
        _ => None,
    }
}

fn rows(ps: &str) -> (r: Vec<Row>)
    ensures
        rows_view(r@) == rows_in(ps@),
{
    let ls = split_lines(ps);
    let ghost lines = text::lines(ps@);
    let mut out: Vec<Row> = Vec::new();
    let mut i: usize = 0;
    assert(rows_view(out@) =~= Seq::<RowView>::empty());
    assert(lines.len() == ls@.len());
    while i < ls.len()
        invariant
            lines == text::strs(ls@),
            i <= ls@.len(),
            rows_view(out@) == rows_upto(lines, i as nat),
        decreases ls@.len() - i,
    {
        assert(lines[i as int] == ls@[i as int]@);
        let ghost before = out@;
        if let Some(row) = row_in(ls[i].as_str()) {
            out.push(row);
            assert(rows_view(out@) =~= rows_view(before).push(row@));
        }
        i += 1;
    }
    out
}

/// Whether a process is a server: its last argument is `mcp`, and the name stands
/// somewhere before it. The executable may sit in a path with spaces (an `.app`
/// bundle), so the arguments do not tell where the name should be.
pub open spec fn is_server(args: Seq<char>) -> bool {
    let ws = text::words(args);
    ws.len() > 0 && ws.last() == "mcp"@ && text::occurs_in(args, "diskscour"@)
}

fn runs_server(args: &str) -> (r: bool)
    ensures
        r == is_server(args@),
{
    let ws = split_words(args);
    let n: usize = ws.len();
    assert(text::words(args@).len() == n);
    if n == 0 {
        return false;
    }
    assert(text::words(args@).last() == ws@[n - 1]@);
    str_eq(ws[n - 1].as_str(), "mcp") && contains(args, "diskscour")
}

/// The executables that are known, each by its process.
pub open spec fn exes_view(v: Seq<(i32, String)>) -> Seq<(i32, Seq<char>)> {
    v.map_values(|e: (i32, String)| (e.0, e.1@))
}

/// The first known executable of a process.
pub open spec fn exe_of(exes: Seq<(i32, Seq<char>)>, pid: int) -> Option<Seq<char>>
    decreases exes.len(),
{
    if exes.len() == 0 {
        None
    } else if exes[0].0 == pid {
        Some(exes[0].1)
    } else {
        exe_of(exes.skip(1), pid)
    }
}

/// The first word of the arguments of the first row of a process.
pub open spec fn listed_exe(rows: Seq<RowView>, pid: int) -> Option<Seq<char>>
    decreases rows.len(),
{
    if rows.len() == 0 {
        None
    } else if rows[0].pid == pid {
        let ws = text::words(rows[0].args);
        if ws.len() > 0 {
            Some(ws[0])
        } else {
            None
        }
    } else {
        listed_exe(rows.skip(1), pid)
    }
}

/// What a client is called. The kernel's answer for the executable comes first; the
/// listing is only a fallback, since a path with spaces splits wrong there.
pub open spec fn client_of(rows: Seq<RowView>, exes: Seq<(i32, Seq<char>)>, pid: int) -> Seq<char> {
    match exe_of(exes, pid) {
        Some(exe) => named(exe),
        None => match listed_exe(rows, pid) {
            Some(exe) => named(exe),
            None => "pid "@ + text::signed_decimal(pid),
        },
    }
}

fn client_label(rs: &Vec<Row>, exes: &Vec<(i32, String)>, pid: i32) -> (r: String)
    ensures
        r@ == client_of(rows_view(rs@), exes_view(exes@), pid as int),
{
    let ghost known = exes_view(exes@);
    let ghost all = rows_view(rs@);
    let mut i: usize = 0;
    assert(known.skip(0) =~= known);
    while i < exes.len()
        invariant
            known == exes_view(exes@),
            all == rows_view(rs@),
            i <= exes@.len(),
            exe_of(known, pid as int) == exe_of(known.skip(i as int), pid as int),
        decreases exes@.len() - i,
    {
        assert(known.skip(i as int).skip(1) =~= known.skip(i + 1));
        assert(known[i as int] == (exes@[i as int].0, exes@[i as int].1@));
        if exes[i].0 == pid {
            return client_name(exes[i].1.as_str());
        }
        i += 1;
    }
    let mut k: usize = 0;
    assert(all.skip(0) =~= all);
    while k < rs.len()
        invariant
            known == exes_view(exes@),
            all == rows_view(rs@),
            exe_of(known, pid as int) is None,
            k <= rs@.len(),
            listed_exe(all, pid as int) == listed_exe(all.skip(k as int), pid as int),
        decreases rs@.len() - k,
    {
        assert(all.skip(k as int).skip(1) =~= all.skip(k + 1));
        assert(all[k as int] == rs@[k as int]@);
        if rs[k].pid == pid {
            let ws = split_words(rs[k].args.as_str());
            assert(text::words(rs@[k as int].args@).len() == ws@.len());
            if ws.len() > 0 {
                assert(text::words(rs@[k as int].args@)[0] == ws@[0]@);
                return client_name(ws[0].as_str());
            }
            let mut s = "pid ".to_owned();
            s.append(signed_decimal_string(pid).as_str());
            return s;
        }
        k += 1;
    }
    let mut s = "pid ".to_owned();
    s.append(signed_decimal_string(pid).as_str());
    s
}

/// The sessions among the first `k` rows.
pub open spec fn sessions_upto(rows: Seq<RowView>, exes: Seq<(i32, Seq<char>)>, k: nat) -> Seq<
    (i32, Seq<char>),
>
    decreases k,
{
    if k == 0 {
        Seq::empty()
    } else {
        let before = sessions_upto(rows, exes, (k - 1) as nat);
        let r = rows[k - 1];
        if is_server(r.args) {
            before.push((r.pid as i32, client_of(rows, exes, r.ppid)))
        } else {
            before
        }
    }
}

/// Every `diskscour mcp` process in a `ps -axo pid=,ppid=,args=` listing, labelled
/// with the name of the process that spawned it. `exes` holds the executables that
/// the kernel names.
pub fn sessions_from_ps(ps: &str, exes: &Vec<(i32, String)>) -> (r: Vec<Session>)
    ensures
        sessions_view(r@) == sessions_upto(
            rows_in(ps@),
            exes_view(exes@),
            rows_in(ps@).len(),
        ),
{
    let rs = rows(ps);
    let ghost all = rows_in(ps@);
    let ghost known = exes_view(exes@);
    let mut out: Vec<Session> = Vec::new();
    let mut i: usize = 0;
    assert(sessions_view(out@) =~= Seq::<(i32, Seq<char>)>::empty());
    assert(all.len() == rs@.len());
    while i < rs.len()
        invariant
            all == rows_view(rs@),
            known == exes_view(exes@),
            i <= rs@.len(),
            sessions_view(out@) == sessions_upto(all, known, i as nat),
        decreases rs@.len() - i,
    {
        assert(all[i as int] == rs@[i as int]@);
        let ghost before = out@;
        if runs_server(rs[i].args.as_str()) {
            let client = client_label(&rs, exes, rs[i].ppid);
            out.push(Session { pid: rs[i].pid, client });
            assert(sessions_view(out@) =~= sessions_view(before).push(
                (rs@[i as int].pid, client@),
            ));
        }
        i += 1;
    }
    out
}

/// The parents of the servers among the first `k` rows.
pub open spec fn parents_upto(rows: Seq<RowView>, k: nat) -> Seq<i32>
    decreases k,
{
    if k == 0 {
        Seq::empty()
    } else {
        let before = parents_upto(rows, (k - 1) as nat);
        if is_server(rows[k - 1].args) {
            before.push(rows[k - 1].ppid as i32)
        } else {
            before
        }
    }
}

/// The processes that launched a server, by a `ps -axo pid=,ppid=,args=` listing:
/// those whose executables [`sessions_from_ps`] asks for.
pub fn session_parents(ps: &str) -> (r: Vec<i32>)
    ensures
        r@ == parents_upto(rows_in(ps@), rows_in(ps@).len()),
{
    let rs = rows(ps);
    let ghost all = rows_in(ps@);
    let mut out: Vec<i32> = Vec::new();
    let mut i: usize = 0;
    assert(all.len() == rs@.len());
    while i < rs.len()
        invariant
            all == rows_view(rs@),
            i <= rs@.len(),
            out@ == parents_upto(all, i as nat),
        decreases rs@.len() - i,
    {
        assert(all[i as int] == rs@[i as int]@);
        if runs_server(rs[i].args.as_str()) {
            out.push(rs[i].ppid);
        }
        i += 1;
    }
    out
}

} // verus!
