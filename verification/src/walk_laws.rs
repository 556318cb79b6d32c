//! What a walk promises of what it takes over and of how files count, and what is in use.

use vstd::prelude::*;

use crate::builder::DirInfo;
use crate::bulkstat::EntryView;
use crate::index;
use crate::index::IndexView;
use crate::live;
use crate::live::Reason;
use crate::path;
use crate::roundtrip;
use crate::text;
use crate::walk;
use crate::walk::{FileStat, Reuse, StatFacts};

verus! {

// ---- records by path ----------------------------------------------------------------------

/// Whether the record `i` is that of the directory at `p`.
pub open spec fn is_at(v: IndexView, i: int, p: Seq<char>) -> bool {
    0 <= i < v.dirs.len() && path::same(index::rec_path(v, i), p)
}

/// What is found for a path is a record of that path.
proof fn lemma_found_at(v: IndexView, k: nat, p: Seq<char>)
    requires
        v.wf(),
        k <= v.dirs.len() <= u32::MAX,
        index::paths_upto(v, k).contains_key(path::norm(p)),
    ensures
        ({
            let i = index::paths_upto(v, k)[path::norm(p)];
            i < k && is_at(v, i as int, p)
        }),
    decreases k,
{
    if k > 0 {
        let here = index::rec_path(v, k - 1);
        path::lemma_norm_same(here, p);
        assert(index::place(k - 1) == k - 1);
        if path::norm(here) != path::norm(p) {
            lemma_found_at(v, (k - 1) as nat, p);
        }
    }
}

/// A path is found just where a record is of that path.
proof fn lemma_finds(v: IndexView, p: Seq<char>)
    requires
        v.wf(),
        v.dirs.len() <= u32::MAX,
    ensures
        index::paths_upto(v, v.dirs.len()).contains_key(path::norm(p))
            <==> exists|i: int| #[trigger]
            is_at(v, i, p),
{
    let m = index::paths_upto(v, v.dirs.len());
    if m.contains_key(path::norm(p)) {
        lemma_found_at(v, v.dirs.len(), p);
        assert(is_at(v, m[path::norm(p)] as int, p));
    }
    if exists|i: int| #[trigger] is_at(v, i, p) {
        let i = choose|i: int| #[trigger] is_at(v, i, p);
        roundtrip::law_by_path_finds(v, v.dirs.len(), i);
        path::lemma_norm_same(index::rec_path(v, i), p);
    }
}

/// A directory is taken over whole just where the changed ones are known, it is none of
/// them, and the index has a record of it; and then from such a record.
pub proof fn law_unchanged_directories_are_taken_over(
    v: IndexView,
    dirty: Option<Set<Seq<char>>>,
    p: Seq<char>,
)
    requires
        v.wf(),
        v.dirs.len() <= u32::MAX,
    ensures
        walk::served(v, dirty, p) is Some <==> (dirty matches Some(d) && !d.contains(path::norm(p)))
            && exists|i: int| #[trigger] is_at(v, i, p),
        walk::served(v, dirty, p) matches Some(i) ==> is_at(v, i as int, p),
{
    lemma_finds(v, p);
    if walk::served(v, dirty, p) is Some {
        lemma_found_at(v, v.dirs.len(), p);
    }
}

/// The sizes of the files of a directory are taken over only where a record of it has the
/// same time, and a time is known; and they are where all its records have that time.
pub proof fn law_only_the_same_time_is_taken_over(
    infos: Map<Seq<char>, DirInfo>,
    reuse: Option<&Reuse>,
    p: Seq<char>,
    asked: i64,
)
    requires
        reuse matches Some(r) ==> r.prior.index@.wf() && r.prior.index@.dirs.len() <= u32::MAX,
    ensures
        ({
            let info = walk::entered(infos, reuse, p, asked);
            &&& infos.contains_key(path::norm(p)) && infos[path::norm(p)].mtime_ns != 0
                ==> info.mtime_ns == infos[path::norm(p)].mtime_ns
            &&& !(infos.contains_key(path::norm(p)) && infos[path::norm(p)].mtime_ns != 0)
                ==> info.mtime_ns == asked
            &&& info.files_cached ==> info.mtime_ns != 0 && (reuse matches Some(r) && exists|i: int|
                #[trigger] is_at(r.prior.index@, i, p) && r.prior.index@.dirs[i].mtime_ns
                    == info.mtime_ns)
            &&& reuse is None ==> !info.files_cached
            &&& info.mtime_ns != 0 && (reuse matches Some(r) && (exists|i: int| #[trigger]
                is_at(r.prior.index@, i, p)) && forall|i: int| #[trigger]
                is_at(r.prior.index@, i, p) ==> r.prior.index@.dirs[i].mtime_ns == info.mtime_ns)
                ==> info.files_cached
        }),
{
    if let Some(r) = reuse {
        let v = r.prior.index@;
        lemma_finds(v, p);
        let m = index::paths_upto(v, v.dirs.len());
        if m.contains_key(path::norm(p)) {
            lemma_found_at(v, v.dirs.len(), p);
            assert(is_at(v, m[path::norm(p)] as int, p));
        }
    }
}

// ---- the entries of a directory -------------------------------------------------------------

/// Among the files of a listing is every entry that is a file, by its name, with the figures
/// of the last entry of that name, and nothing else.
pub proof fn law_files_keep_their_figures(es: Seq<EntryView>, k: nat, name: Seq<char>)
    requires
        k <= es.len(),
    ensures
        walk::files_upto(es, k).contains_key(name) <==> exists|i: int|
            0 <= i < k && (#[trigger] es[i]).is_file && es[i].name == name,
        walk::files_upto(es, k).contains_key(name) ==> exists|i: int|
            0 <= i < k && (#[trigger] es[i]).is_file && es[i].name == name && ({
                let s = walk::files_upto(es, k)[name];
                &&& s.allocated == es[i].allocated
                &&& s.private == es[i].private
                &&& s.fileid == es[i].fileid
                &&& s.nlink == es[i].nlink
            }) && forall|j: int|
                i < j < k ==> !((#[trigger] es[j]).is_file && es[j].name == name),
    decreases k,
{
    if k > 0 {
        law_files_keep_their_figures(es, (k - 1) as nat, name);
        let e = es[k - 1];
        if e.is_file && e.name == name {
            assert(es[k - 1].is_file);
        } else {
            assert(walk::files_upto(es, k).contains_key(name) == walk::files_upto(
                es,
                (k - 1) as nat,
            ).contains_key(name));
            if walk::files_upto(es, k).contains_key(name) {
                let i = choose|i: int|
                    0 <= i < k - 1 && (#[trigger] es[i]).is_file && es[i].name == name && ({
                        let s = walk::files_upto(es, (k - 1) as nat)[name];
                        &&& s.allocated == es[i].allocated
                        &&& s.private == es[i].private
                        &&& s.fileid == es[i].fileid
                        &&& s.nlink == es[i].nlink
                    }) && forall|j: int|
                        i < j < k - 1 ==> !((#[trigger] es[j]).is_file && es[j].name == name);
                assert(es[i].is_file);
            }
        }
    }
}

/// Every other entry with a time is handed on, in order, with its path below the directory
/// and its time, and nothing else is.
pub proof fn law_directories_keep_their_times(dir: Seq<char>, es: Seq<EntryView>, k: nat)
    requires
        k <= es.len(),
    ensures
        walk::dirs_upto(dir, es, k).len() == es.take(k as int).filter(
            |e: EntryView| !e.is_file && e.mtime_ns != 0,
        ).len(),
        forall|j: int|
            0 <= j < walk::dirs_upto(dir, es, k).len() ==> {
                let e = es.take(k as int).filter(|e: EntryView| !e.is_file && e.mtime_ns != 0)[j];
                #[trigger] walk::dirs_upto(dir, es, k)[j] == (
                    path::join_text(dir, e.name),
                    e.mtime_ns,
                )
            },
    decreases k,
{
    let keep = |e: EntryView| !e.is_file && e.mtime_ns != 0;
    let some = es.take(k as int).filter(keep);
    if k == 0 {
        reveal_with_fuel(Seq::filter, 1);
        assert(es.take(0) =~= Seq::<EntryView>::empty());
        assert(some.len() == 0);
    } else {
        law_directories_keep_their_times(dir, es, (k - 1) as nat);
        assert(es.take(k as int).drop_last() =~= es.take(k - 1));
        text::lemma_filter_last(es.take(k as int), keep);
        let before = walk::dirs_upto(dir, es, (k - 1) as nat);
        let some0 = es.take(k - 1).filter(keep);
        assert forall|j: int| 0 <= j < walk::dirs_upto(dir, es, k).len() implies {
            let e = some[j];
            #[trigger] walk::dirs_upto(dir, es, k)[j] == (path::join_text(dir, e.name), e.mtime_ns)
        } by {
            if j < before.len() {
                assert(walk::dirs_upto(dir, es, k)[j] == before[j]);
                assert(some[j] == some0[j]);
            }
        }
    }
}

/// Noting times changes nothing that was known, and each directory of which nothing was
/// known gets a time that was handed on for it.
pub proof fn law_noting_keeps_what_is_known(
    infos: Map<Seq<char>, DirInfo>,
    dirs: Seq<(Seq<char>, i64)>,
    k: nat,
    key: Seq<char>,
)
    requires
        k <= dirs.len(),
    ensures
        infos.contains_key(key) ==> walk::noted_upto(infos, dirs, k).contains_key(key)
            && walk::noted_upto(infos, dirs, k)[key] == infos[key],
        !infos.contains_key(key) ==> (walk::noted_upto(infos, dirs, k).contains_key(key)
            <==> exists|i: int| 0 <= i < k && path::norm((#[trigger] dirs[i]).0) == key),
        !infos.contains_key(key) && walk::noted_upto(infos, dirs, k).contains_key(key) ==> exists|
            i: int,
        |
            0 <= i < k && path::norm((#[trigger] dirs[i]).0) == key && walk::noted_upto(
                infos,
                dirs,
                k,
            )[key].mtime_ns == dirs[i].1 && !walk::noted_upto(infos, dirs, k)[key].files_cached,
    decreases k,
{
    if k > 0 {
        law_noting_keeps_what_is_known(infos, dirs, (k - 1) as nat, key);
        let here = path::norm(dirs[k - 1].0);
        let before = walk::noted_upto(infos, dirs, (k - 1) as nat);
        let now = walk::noted_upto(infos, dirs, k);
        if !infos.contains_key(key) {
            if here == key {
                assert(path::norm(dirs[k - 1].0) == key);
            }
            if before.contains_key(key) {
                assert(now[key] == before[key]);
                let i = choose|i: int|
                    0 <= i < k - 1 && path::norm((#[trigger] dirs[i]).0) == key
                        && before[key].mtime_ns == dirs[i].1 && !before[key].files_cached;
                assert(path::norm(dirs[i].0) == key);
            }
        }
    }
}

/// A file counts by the listing of its directory where that has it, and otherwise with 512
/// bytes for each block that the file system tells, all of them unshared; where neither
/// has it, it does not count.
pub proof fn law_files_count_by_listing_first(
    files: Option<Map<Seq<char>, FileStat>>,
    name: Seq<char>,
    dev: u64,
    asked: Option<StatFacts>,
)
    ensures
        ({
            let by_list = files matches Some(m) && m.contains_key(name);
            let known = walk::known_file(files, name, dev, asked);
            &&& known is Some <==> by_list || asked is Some
            &&& by_list ==> (files matches Some(m) && known matches Some(f) && f.0
                == m[name].allocated && f.1 == m[name].private && f.2 == walk::link_id(
                dev,
                m[name].fileid,
            ) && f.3 == m[name].nlink)
            &&& !by_list ==> (asked matches Some(a) ==> known matches Some(f) && (a.blocks * 512
                <= u64::MAX ==> f.0 == a.blocks * 512) && f.1 == f.0 && f.2 == walk::link_id(
                a.dev,
                a.ino,
            ) && f.3 == a.nlink)
        }),
{
}

// ---- what is in use ---------------------------------------------------------------------------

/// Whether the path is one of `ps`.
pub open spec fn among(ps: Seq<Seq<char>>, k: nat, p: Seq<char>) -> bool {
    exists|i: int| 0 <= i < k && path::same(#[trigger] ps[i], p)
}

/// Whether a reference to the path is there, for the reason.
pub open spec fn refers(s: Seq<(Seq<char>, Reason)>, p: Seq<char>, r: Reason) -> bool {
    exists|i: int| 0 <= i < s.len() && path::same((#[trigger] s[i]).0, p) && s[i].1 == r
}

/// Whether no path is referred to twice.
pub open spec fn once(s: Seq<(Seq<char>, Reason)>) -> bool {
    forall|a: int, b: int|
        0 <= a < b < s.len() ==> !path::same((#[trigger] s[a]).0, (#[trigger] s[b]).0)
}

proof fn lemma_place(s: Seq<(Seq<char>, Reason)>, p: Seq<char>)
    ensures
        match live::position(s, p) {
            Some(k) => 0 <= k < s.len() && path::same(s[k].0, p),
            None => forall|k: int| 0 <= k < s.len() ==> !path::same((#[trigger] s[k]).0, p),
        },
    decreases s.len(),
{
    if s.len() > 0 {
        let front = s.drop_last();
        lemma_place(front, p);
        assert forall|k: int| 0 <= k < front.len() implies #[trigger] s[k] == front[k] by {}
    }
}

proof fn lemma_with_ref(s: Seq<(Seq<char>, Reason)>, p: Seq<char>, r: Reason, q: Seq<char>)
    requires
        once(s),
    ensures
        once(live::with_ref(s, p, r)),
        path::same(p, q) ==> refers(live::with_ref(s, p, r), q, r),
        path::same(p, q) ==> forall|x: Reason|
            x != r ==> !#[trigger] refers(live::with_ref(s, p, r), q, x),
        !path::same(p, q) ==> forall|x: Reason| #[trigger]
            refers(live::with_ref(s, p, r), q, x) <==> refers(s, q, x),
{
    let t = live::with_ref(s, p, r);
    lemma_place(s, p);
    match live::position(s, p) {
        Some(k) => {
            assert(t[k] == (s[k].0, r));
            assert forall|i: int| 0 <= i < t.len() implies (#[trigger] t[i]).0 == s[i].0 && (i != k
                ==> t[i] == s[i]) by {}
            assert forall|a: int, b: int| 0 <= a < b < t.len() implies !path::same(
                (#[trigger] t[a]).0,
                (#[trigger] t[b]).0,
            ) by {
                assert(!path::same(s[a].0, s[b].0));
            }
            assert forall|i: int| 0 <= i < t.len() && path::same((#[trigger] t[i]).0, p) implies i
                == k by {
                if i < k {
                    assert(!path::same(s[i].0, s[k].0));
                } else if k < i {
                    assert(!path::same(s[k].0, s[i].0));
                }
            }
        },
        None => {
            assert(t[s.len() as int] == (p, r));
            assert forall|i: int| 0 <= i < s.len() implies #[trigger] t[i] == s[i] by {}
            assert forall|a: int, b: int| 0 <= a < b < t.len() implies !path::same(
                (#[trigger] t[a]).0,
                (#[trigger] t[b]).0,
            ) by {
                assert(!path::same(s[a].0, p));
                if b < s.len() {
                    assert(!path::same(s[a].0, s[b].0));
                }
            }
        },
    }
    assert forall|x: Reason| !path::same(p, q) implies (#[trigger] refers(t, q, x) <==> refers(
        s,
        q,
        x,
    )) by {
        if refers(t, q, x) {
            let i = choose|i: int|
                0 <= i < t.len() && path::same((#[trigger] t[i]).0, q) && t[i].1 == x;
            assert(t[i] == s[i]);
        }
        if refers(s, q, x) {
            let i = choose|i: int|
                0 <= i < s.len() && path::same((#[trigger] s[i]).0, q) && s[i].1 == x;
            assert(t[i] == s[i]);
        }
    }
}

proof fn lemma_with_refs(
    s: Seq<(Seq<char>, Reason)>,
    ps: Seq<Seq<char>>,
    r: Reason,
    k: nat,
    q: Seq<char>,
)
    requires
        once(s),
        k <= ps.len(),
    ensures
        once(live::with_refs(s, ps, r, k)),
        among(ps, k, q) ==> refers(live::with_refs(s, ps, r, k), q, r) && forall|x: Reason|
            x != r ==> !#[trigger] refers(live::with_refs(s, ps, r, k), q, x),
        !among(ps, k, q) ==> forall|x: Reason| #[trigger]
            refers(live::with_refs(s, ps, r, k), q, x) <==> refers(s, q, x),
    decreases k,
{
    if k > 0 {
        lemma_with_refs(s, ps, r, (k - 1) as nat, q);
        let before = live::with_refs(s, ps, r, (k - 1) as nat);
        lemma_with_ref(before, ps[k - 1], r, q);
        if path::same(ps[k - 1], q) {
            assert(among(ps, k, q));
        } else {
            assert(among(ps, k, q) <==> among(ps, (k - 1) as nat, q)) by {
                if among(ps, (k - 1) as nat, q) {
                    let i = choose|i: int| 0 <= i < k - 1 && path::same(#[trigger] ps[i], q);
                    assert(path::same(ps[i], q));
                }
            }
        }
    }
}

/// What is referred to is every running executable and every target of a link on `$PATH`,
/// each path once, and nothing else; a path that is both is told as the link.
pub proof fn law_references_are_collected(
    running: Seq<Seq<char>>,
    on_path: Seq<Seq<char>>,
    p: Seq<char>,
)
    ensures
        once(live::collected(running, on_path)),
        refers(live::collected(running, on_path), p, Reason::OnPath) <==> among(
            on_path,
            on_path.len(),
            p,
        ),
        refers(live::collected(running, on_path), p, Reason::Running) <==> among(
            running,
            running.len(),
            p,
        ) && !among(on_path, on_path.len(), p),
{
    let none = Seq::<(Seq<char>, Reason)>::empty();
    lemma_with_refs(none, running, Reason::Running, running.len(), p);
    let first = live::with_refs(none, running, Reason::Running, running.len());
    lemma_with_refs(first, on_path, Reason::OnPath, on_path.len(), p);
}

/// A reference protects a directory just where it lies in it, or in what it resolves to.
pub proof fn law_references_protect_where_they_lie(
    s: Seq<(Seq<char>, Reason)>,
    dir: Seq<char>,
    resolved: Seq<char>,
    e: (Seq<char>, Reason),
)
    ensures
        s.filter(live::guards(dir, resolved)).contains(e) <==> s.contains(e) && (path::within(
            e.0,
            dir,
        ) || path::within(e.0, resolved)),
{
    let keep = live::guards(dir, resolved);
    let some = s.filter(keep);
    if some.contains(e) {
        let k = choose|k: int| 0 <= k < some.len() && some[k] == e;
        text::lemma_filter_members(s, keep, k);
    }
    if s.contains(e) && (path::within(e.0, dir) || path::within(e.0, resolved)) {
        let i = choose|i: int| 0 <= i < s.len() && s[i] == e;
        assert(keep(s[i]));
        text::lemma_filter_keeps(s, keep, i);
    }
}

/// The two reasons for which something is in use are told apart: one by the search path, one
/// by what runs.
pub proof fn law_reasons_are_told_apart()
    ensures
        "linked from"@.is_prefix_of(live::reason_text(Reason::OnPath)),
        "a process"@.is_prefix_of(live::reason_text(Reason::Running)),
{
    reveal_strlit("linked from");
    reveal_strlit("a process");
    reveal_strlit("linked from a directory on $PATH");
    reveal_strlit("a process is running from it");
    assert(live::reason_text(Reason::OnPath).take(11) =~= "linked from"@);
    assert(live::reason_text(Reason::Running).take(9) =~= "a process"@);
}

} // verus!
