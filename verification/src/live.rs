//! Build outputs that something outside the tree depends on.
//!
//! A `target/` directory is nominally regenerable, but a binary in it may be
//! reached from elsewhere: a symlink on `$PATH`, or a process already running from
//! it. Deleting the directory then breaks a working tool rather than costing a
//! rebuild. Neither signal is exhaustive, so this is a guard against the common
//! cases, not a proof of safety.

use vstd::hash_map::StringHashMap;
use vstd::prelude::*;

use crate::path;
use crate::path::{components, comps_start_with, normalized};
use crate::text;

verus! {

/// Why a path is considered in use.
#[derive(Clone, Copy, PartialEq, Eq, Debug, Structural)]
pub enum Reason {
    /// Reachable as a command because something on `$PATH` links to it.
    OnPath,
    /// A process is running from this executable right now.
    Running,
}

/// A reason as an explanation.
pub open spec fn reason_text(r: Reason) -> Seq<char> {
    match r {
        Reason::OnPath => "linked from a directory on $PATH"@,
        Reason::Running => "a process is running from it"@,
    }
}

impl Reason {
    /// The reason as an explanation.
    pub fn describe(self) -> (r: &'static str)
        ensures
            r@ == reason_text(self),
    {
        match self {
            Reason::OnPath => "linked from a directory on $PATH",
            Reason::Running => "a process is running from it",
        }
    }
}

/// Executables with the reason for each, paths as characters.
pub open spec fn refs_view(v: Seq<(String, Reason)>) -> Seq<(Seq<char>, Reason)> {
    v.map_values(|e: (String, Reason)| (e.0@, e.1))
}

/// Where the path `p` stands in `s`.
pub open spec fn position(s: Seq<(Seq<char>, Reason)>, p: Seq<char>) -> Option<int>
    decreases s.len(),
{
    if s.len() == 0 {
        None
    } else if path::same(s.last().0, p) {
        Some(s.len() - 1)
    } else {
        position(s.drop_last(), p)
    }
}

/// The references with one more: a path that is there already only changes its
/// reason.
pub open spec fn with_ref(s: Seq<(Seq<char>, Reason)>, p: Seq<char>, r: Reason) -> Seq<
    (Seq<char>, Reason),
> {
    match position(s, p) {
        Some(k) => s.update(k, (s[k].0, r)),
        None => s.push((p, r)),
    }
}

/// The references with the first `k` of `ps` more, all for the reason `r`.
pub open spec fn with_refs(
    s: Seq<(Seq<char>, Reason)>,
    ps: Seq<Seq<char>>,
    r: Reason,
    k: nat,
) -> Seq<(Seq<char>, Reason)>
    decreases k,
{
    if k == 0 {
        s
    } else {
        with_ref(with_refs(s, ps, r, (k - 1) as nat), ps[k - 1], r)
    }
}

/// The references to running executables and to the targets of symlinks on
/// `$PATH`. The link is the more actionable message, so it wins.
pub open spec fn collected(running: Seq<Seq<char>>, on_path: Seq<Seq<char>>) -> Seq<
    (Seq<char>, Reason),
> {
    with_refs(
        with_refs(Seq::empty(), running, Reason::Running, running.len()),
        on_path,
        Reason::OnPath,
        on_path.len(),
    )
}

/// Whether `p` lies in the directory `dir`, or in what `dir` resolves to.
pub open spec fn lies_in(p: Seq<char>, dir: Seq<char>, resolved: Seq<char>) -> bool {
    path::within(p, dir) || path::within(p, resolved)
}

/// Tells the references that lie in a directory.
pub open spec fn guards(dir: Seq<char>, resolved: Seq<char>) -> spec_fn((Seq<char>, Reason)) -> bool {
    |e: (Seq<char>, Reason)| lies_in(e.0, dir, resolved)
}

/// Executables that outside-the-tree references point at, with the reason for
/// each.
pub struct Refs {
    entries: Vec<(String, Reason)>,
    places: StringHashMap<usize>,
}

impl View for Refs {
    type V = Seq<(Seq<char>, Reason)>;

    closed spec fn view(&self) -> Seq<(Seq<char>, Reason)> {
        refs_view(self.entries@)
    }
}

proof fn lemma_position(s: Seq<(Seq<char>, Reason)>, p: Seq<char>)
    ensures
        match position(s, p) {
            Some(k) => 0 <= k < s.len() && path::same(s[k].0, p),
            None => forall|k: int| 0 <= k < s.len() ==> !path::same((#[trigger] s[k]).0, p),
        },
    decreases s.len(),
{
    if s.len() > 0 {
        lemma_position(s.drop_last(), p);
        match position(s.drop_last(), p) {
            Some(k) => {
                assert(s.drop_last()[k] == s[k]);
            },
            None => {
                if !path::same(s.last().0, p) {
                    assert forall|k: int| 0 <= k < s.len() implies !path::same(
                        (#[trigger] s[k]).0,
                        p,
                    ) by {
                        if k < s.len() - 1 {
                            assert(s.drop_last()[k] == s[k]);
                        }
                    }
                }
            },
        }
    }
}

impl Refs {
    /// Every path occurs once, and is found by its shortest text.
    pub closed spec fn wf(&self) -> bool {
        &&& forall|k: int|
            0 <= k < self@.len() ==> self.places@.contains_key(
                path::norm((#[trigger] self@[k]).0),
            ) && self.places@[path::norm(self@[k].0)] == k
        &&& forall|key: Seq<char>| #[trigger]
            self.places@.contains_key(key) ==> self.places@[key] < self@.len() && path::norm(
                self@[self.places@[key] as int].0,
            ) == key
    }

    fn put(&mut self, p: &str, r: Reason)
        requires
            old(self).wf(),
        ensures
            final(self).wf(),
            final(self)@ == with_ref(old(self)@, p@, r),
    {
        let ghost s = self@;
        let key = normalized(p);
        proof {
            lemma_position(s, p@);
            path::lemma_norm_same(p@, p@);
        }
        match self.places.get(key.as_str()) {
            Some(at) => {
                let i: usize = *at;
                proof {
                    path::lemma_norm_same(s[i as int].0, p@);
                    let k = position(s, p@)->0;
                    path::lemma_norm_same(s[k].0, p@);
                    assert(self.places@[path::norm(s[k].0)] == k);
                }
                let name = self.entries[i].0.clone();
                self.entries.set(i, (name, r));
                proof {
                    assert(self@ =~= s.update(i as int, (s[i as int].0, r)));
                    assert forall|k: int| 0 <= k < self@.len() implies self.places@.contains_key(
                        path::norm((#[trigger] self@[k]).0),
                    ) && self.places@[path::norm(self@[k].0)] == k by {
                        assert(self@[k].0 == s[k].0);
                    }
                }
            },
            None => {
                proof {
                    if let Some(k) = position(s, p@) {
                        path::lemma_norm_same(s[k].0, p@);
                    }
                }
                let n: usize = self.entries.len();
                self.places.insert(key, n);
                self.entries.push((p.to_owned(), r));
                proof {
                    assert(self@ =~= s.push((p@, r)));
                    assert forall|k: int| 0 <= k < self@.len() implies self.places@.contains_key(
                        path::norm((#[trigger] self@[k]).0),
                    ) && self.places@[path::norm(self@[k].0)] == k by {
                        if k < n {
                            assert(self@[k] == s[k]);
                        }
                    }
                }
            },
        }
    }

    /// Gather the references to running executables and to the targets of symlinks
    /// on `$PATH`.
    pub fn collect(running: &Vec<String>, on_path: &Vec<String>) -> (r: Refs)
        ensures
            r.wf(),
            r@ == collected(text::strs(running@), text::strs(on_path@)),
    {
        let mut out = Refs { entries: Vec::new(), places: StringHashMap::new() };
        assert(out@ =~= Seq::<(Seq<char>, Reason)>::empty());
        let mut i: usize = 0;
        while i < running.len()
            invariant
                i <= running@.len(),
                out.wf(),
                out@ == with_refs(
                    Seq::empty(),
                    text::strs(running@),
                    Reason::Running,
                    i as nat,
                ),
            decreases running@.len() - i,
        {
            out.put(running[i].as_str(), Reason::Running);
            i += 1;
        }
        let ghost first = out@;
        let mut i: usize = 0;
        while i < on_path.len()
            invariant
                i <= on_path@.len(),
                out.wf(),
                out@ == with_refs(first, text::strs(on_path@), Reason::OnPath, i as nat),
            decreases on_path@.len() - i,
        {
            out.put(on_path[i].as_str(), Reason::OnPath);
            i += 1;
        }
        out
    }

    /// The referenced executables that live under `dir`, which resolves to `resolved`
    /// (or to itself, where that is not known). A non-empty result means deleting
    /// `dir` would break something currently in use.
    pub fn protecting(&self, dir: &str, resolved: Option<&str>) -> (r: Vec<(String, Reason)>)
        ensures
            refs_view(r@) == self@.filter(
                guards(
                    dir@,
                    match resolved {
                        Some(p) => p@,
                        None => dir@,
                    },
                ),
            ),
    {
        let resolved_dir: &str = match resolved {
            Some(p) => p,
            None => dir,
        };
        let ghost keep = guards(dir@, resolved_dir@);
        let ghost s = self@;
        let cd = components(dir);
        let cr = components(resolved_dir);
        let mut out: Vec<(String, Reason)> = Vec::new();
        let mut i: usize = 0;
        proof {
            reveal_with_fuel(Seq::filter, 1);
            assert(s.take(0).filter(keep) =~= Seq::<(Seq<char>, Reason)>::empty());
            assert(refs_view(out@) =~= Seq::<(Seq<char>, Reason)>::empty());
        }
        while i < self.entries.len()
            invariant
                s == self@,
                s == refs_view(self.entries@),
                keep == guards(dir@, resolved_dir@),
                text::strs(cd@) == path::comps(dir@),
                text::strs(cr@) == path::comps(resolved_dir@),
                i <= self.entries@.len(),
                refs_view(out@) == s.take(i as int).filter(keep),
            decreases self.entries@.len() - i,
        {
            let e = &self.entries[i];
            proof {
                text::lemma_filter_last(s.take(i + 1), keep);
                assert(s.take(i + 1).drop_last() =~= s.take(i as int));
                assert(s.take(i + 1).last() == (e.0@, e.1));
            }
            let ce = components(e.0.as_str());
            if comps_start_with(&ce, &cd) || comps_start_with(&ce, &cr) {
                let ghost before = refs_view(out@);
                out.push((e.0.clone(), e.1));
                assert(refs_view(out@) =~= before.push((e.0@, e.1)));
            }
            i += 1;
        }
        assert(s.take(s.len() as int) =~= s);
        out
    }
}

/// What lies outside a directory does not protect it.
pub proof fn law_outside_does_not_protect(
    s: Seq<(Seq<char>, Reason)>,
    dir: Seq<char>,
    resolved: Seq<char>,
)
    requires
        forall|k: int| 0 <= k < s.len() ==> !lies_in((#[trigger] s[k]).0, dir, resolved),
    ensures
        s.filter(guards(dir, resolved)).len() == 0,
{
    let keep = guards(dir, resolved);
    if s.filter(keep).len() > 0 {
        text::lemma_filter_members(s, keep, 0);
    }
}

/// What lies in a directory protects it.
pub proof fn law_inside_protects(
    s: Seq<(Seq<char>, Reason)>,
    dir: Seq<char>,
    resolved: Seq<char>,
    k: int,
)
    requires
        0 <= k < s.len(),
        lies_in(s[k].0, dir, resolved),
    ensures
        s.filter(guards(dir, resolved)).contains(s[k]),
{
    text::lemma_filter_keeps(s, guards(dir, resolved), k);
}

} // verus!
