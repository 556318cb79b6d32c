//! What changed since the last scan, from the history of file system events.
//!
//! The history is not guaranteed. It can be purged, it can overflow, and it does
//! not exist at all on network mounts. Every one of those cases is
//! [`Replay::Unavailable`], so that the caller falls back to a slower but
//! always-correct strategy: "nothing changed" is never said when it is not known.

use vstd::prelude::*;

use crate::order;
use crate::order::{sort_run, Positions};
use crate::path;
use crate::path::{components, join, parent, path_starts_with, same_path, strip_prefix, PathSet};
use crate::text;
use crate::text::{chars_of, str_eq};

verus! {

/// Outcome of asking for the changes since a recorded stream position.
pub enum Replay {
    /// Paths that changed. May be empty, which genuinely means "nothing".
    Changed(Vec<String>),
    /// The history could not be trusted; the caller must not prune from this.
    Unavailable(&'static str),
}

// ---- listening --------------------------------------------------------------------

pub const FLAG_HISTORY_DONE: u32 = 0x0000_0010;

/// Flags that mean "this report is incomplete": subdirectories to be scanned,
/// events dropped by the user side or the kernel, wrapped event ids, a changed
/// root, a mount and an unmount. Treating any of them as fatal is deliberate: a
/// missed change would surface as a wrong size, which is worse than a slow scan.
pub const UNTRUSTWORTHY: u32 = 0x0000_00ef;

/// What has been heard of the event stream so far.
pub struct Collect {
    pub paths: Vec<String>,
    pub history_done: bool,
    pub dropped: bool,
}

/// What has been heard, paths as characters.
#[verifier::ext_equal]
pub struct Heard {
    pub paths: Seq<Seq<char>>,
    pub history_done: bool,
    pub dropped: bool,
}

impl View for Collect {
    type V = Heard;

    open spec fn view(&self) -> Heard {
        Heard {
            paths: text::strs(self.paths@),
            history_done: self.history_done,
            dropped: self.dropped,
        }
    }
}

impl Heard {
    /// What has been heard after one more event. The marker that ends the history
    /// carries no path.
    pub open spec fn after(self, flags: u32, p: Option<Seq<char>>) -> Heard {
        if flags & FLAG_HISTORY_DONE != 0 {
            Heard { history_done: true, ..self }
        } else {
            Heard {
                dropped: self.dropped || flags & UNTRUSTWORTHY != 0,
                paths: match p {
                    Some(p) => self.paths.push(p),
                    None => self.paths,
                },
                ..self
            }
        }
    }
}

impl Collect {
    /// Nothing heard yet.
    pub fn new() -> (r: Collect)
        ensures
            r@ == (Heard { paths: Seq::empty(), history_done: false, dropped: false }),
    {
        let r = Collect { paths: Vec::new(), history_done: false, dropped: false };
        assert(r@.paths =~= Seq::<Seq<char>>::empty());
        r
    }

    /// Take in one event. A path that is not readable text comes as `None`.
    pub fn take_event(&mut self, flags: u32, p: Option<&str>)
        ensures
            final(self)@ == old(self)@.after(
                flags,
                match p {
                    Some(p) => Some(p@),
                    None => None,
                },
            ),
    {
        if flags & FLAG_HISTORY_DONE != 0 {
            self.history_done = true;
            return;
        }
        if flags & UNTRUSTWORTHY != 0 {
            self.dropped = true;
        }
        if let Some(s) = p {
            self.paths.push(s.to_owned());
        }
        proof {
            if let Some(s) = p {
                assert(text::strs(self.paths@) =~= text::strs(old(self).paths@).push(s@));
            }
        }
    }
}

/// How many quarters of a second to wait for the history replay to finish.
/// Reaching it means the log is unexpectedly large or slow; falling back costs a
/// slower scan, whereas waiting forever would hang.
pub const REPLAY_SLICES: u32 = 40;

/// Whether to wait for the end of the history, after `slices` quarters of a second.
pub fn awaits_history(history_done: bool, slices: u32) -> (r: bool)
    ensures
        r == (!history_done && slices < REPLAY_SLICES),
{
    !history_done && slices < REPLAY_SLICES
}

/// How many quiet slices of a twentieth of a second end the listening after the
/// history marker, and how many there are at most however busy the volume is.
pub const QUIET_SLICES: u32 = 4;

pub const SETTLE_SLICES: u32 = 40;

/// The grace period after the history marker: events that were still in flight
/// when the replay was requested arrive live, a little after the marker.
#[derive(Clone, Copy, PartialEq, Eq, Debug, Structural)]
pub struct Settle {
    pub quiet: u32,
    pub total: u32,
}

impl Settle {
    pub fn new() -> (r: Settle)
        ensures
            r == (Settle { quiet: 0, total: 0 }),
    {
        Settle { quiet: 0, total: 0 }
    }

    /// Whether to listen for another slice.
    pub fn listens(&self) -> (r: bool)
        ensures
            r == (self.quiet < QUIET_SLICES && self.total < SETTLE_SLICES),
    {
        self.quiet < QUIET_SLICES && self.total < SETTLE_SLICES
    }

    /// One more slice passed, with or without events.
    pub fn tick(&mut self, heard_more: bool)
        requires
            old(self).quiet < QUIET_SLICES,
            old(self).total < SETTLE_SLICES,
        ensures
            final(self).total == old(self).total + 1,
            final(self).quiet == (if heard_more {
                0
            } else {
                old(self).quiet + 1
            }),
    {
        self.total = self.total + 1;
        self.quiet = if heard_more {
            0
        } else {
            self.quiet + 1
        };
    }
}

// ---- order of paths ---------------------------------------------------------------

/// The numbers by which a component is ordered: the root before `.` before `..`
/// before names, and names by their characters.
pub open spec fn comp_code(c: Seq<char>) -> Seq<int> {
    if c == path::root_comp() {
        seq![1, 0]
    } else if c == path::dot() {
        seq![2, 0]
    } else if c == path::dot_dot() {
        seq![3, 0]
    } else {
        seq![4] + c.map_values(|x: char| (x as u32) as int + 1) + seq![0]
    }
}

/// The numbers by which a path is ordered: those of its components.
pub open spec fn path_code(cs: Seq<Seq<char>>) -> Seq<int>
    decreases cs.len(),
{
    if cs.len() == 0 {
        Seq::empty()
    } else {
        path_code(cs.drop_last()) + comp_code(cs.last())
    }
}

/// Whether `a` comes before `b`, number by number.
pub open spec fn code_lt(a: Seq<int>, b: Seq<int>) -> bool
    decreases a.len(),
{
    if b.len() == 0 {
        false
    } else if a.len() == 0 {
        true
    } else {
        a[0] < b[0] || (a[0] == b[0] && code_lt(a.skip(1), b.skip(1)))
    }
}

/// Whether the path `a` comes before the path `b`.
pub open spec fn path_lt(a: Seq<char>, b: Seq<char>) -> bool {
    code_lt(path_code(path::comps(a)), path_code(path::comps(b)))
}

proof fn lemma_code_trans(a: Seq<int>, b: Seq<int>, c: Seq<int>)
    requires
        code_lt(a, b),
        code_lt(b, c),
    ensures
        code_lt(a, c),
    decreases a.len(),
{
    if a.len() > 0 && b.len() > 0 && c.len() > 0 && a[0] == b[0] && b[0] == c[0] {
        lemma_code_trans(a.skip(1), b.skip(1), c.skip(1));
    }
}

proof fn lemma_code_total(a: Seq<int>, b: Seq<int>)
    ensures
        code_lt(a, b) || code_lt(b, a) || a == b,
        !(code_lt(a, b) && code_lt(b, a)),
        a == b ==> !code_lt(a, b),
    decreases a.len(),
{
    if a.len() > 0 && b.len() > 0 {
        lemma_code_total(a.skip(1), b.skip(1));
        if a[0] == b[0] && a.skip(1) == b.skip(1) {
            assert(a =~= seq![a[0]] + a.skip(1));
            assert(b =~= seq![b[0]] + b.skip(1));
        }
    } else if a.len() == 0 && b.len() == 0 {
        assert(a =~= b);
    }
}

proof fn lemma_name_code(c: Seq<char>)
    requires
        c != path::root_comp(),
        c != path::dot(),
        c != path::dot_dot(),
    ensures
        comp_code(c).len() == c.len() + 2,
        comp_code(c)[0] == 4,
        forall|i: int| 0 <= i < c.len() ==> comp_code(c)[i + 1] == (#[trigger] c[i] as u32) as int + 1,
        comp_code(c)[c.len() as int + 1] == 0,
{
    let mid = c.map_values(|x: char| (x as u32) as int + 1);
    let code = seq![4int] + mid + seq![0int];
    assert(comp_code(c) == code);
    assert forall|i: int| 0 <= i < c.len() implies code[i + 1] == (#[trigger] c[i] as u32) as int + 1 by {
        assert(mid[i] == (c[i] as u32) as int + 1);
        assert((seq![4int] + mid)[i + 1] == mid[i]);
    }
}

/// Components are told apart by their numbers, whatever follows.
proof fn lemma_comp_code_prefix(c: Seq<char>, d: Seq<char>, x: Seq<int>, y: Seq<int>)
    requires
        comp_code(c) + x == comp_code(d) + y,
        c.len() > 0,
        d.len() > 0,
    ensures
        c == d,
        x == y,
{
    let (l, r) = (comp_code(c) + x, comp_code(d) + y);
    let plain_c = c != path::root_comp() && c != path::dot() && c != path::dot_dot();
    let plain_d = d != path::root_comp() && d != path::dot() && d != path::dot_dot();
    if plain_c {
        lemma_name_code(c);
    }
    if plain_d {
        lemma_name_code(d);
    }
    assert(l[0] == comp_code(c)[0]);
    assert(r[0] == comp_code(d)[0]);
    if plain_c {
        assert(plain_d);
        let n = c.len() as int;
        let m = d.len() as int;
        assert(l[n + 1] == comp_code(c)[n + 1]);
        assert(r[m + 1] == comp_code(d)[m + 1]);
        if n < m {
            assert(r[n + 1] == comp_code(d)[n + 1]);
            assert(comp_code(d)[n + 1] == (d[n] as u32) as int + 1);
        }
        if m < n {
            assert(l[m + 1] == comp_code(c)[m + 1]);
            assert(comp_code(c)[m + 1] == (c[m] as u32) as int + 1);
        }
        assert(n == m);
        assert forall|i: int| 0 <= i < n implies c[i] == d[i] by {
            assert(l[i + 1] == comp_code(c)[i + 1]);
            assert(r[i + 1] == comp_code(d)[i + 1]);
            assert(comp_code(c)[i + 1] == (c[i] as u32) as int + 1);
            assert(comp_code(d)[i + 1] == (d[i] as u32) as int + 1);
            vstd::utf8::char_u32_cast(c[i], c[i] as u32);
            vstd::utf8::char_u32_cast(d[i], d[i] as u32);
        }
        assert(c =~= d);
    }
    assert(c == d);
    assert(x =~= l.skip(comp_code(c).len() as int));
    assert(y =~= r.skip(comp_code(d).len() as int));
}

spec fn code_from(cs: Seq<Seq<char>>) -> Seq<int>
    decreases cs.len(),
{
    if cs.len() == 0 {
        Seq::empty()
    } else {
        comp_code(cs[0]) + code_from(cs.skip(1))
    }
}

proof fn lemma_code_from(cs: Seq<Seq<char>>)
    ensures
        path_code(cs) == code_from(cs),
    decreases cs.len(),
{
    if cs.len() > 1 {
        lemma_code_from(cs.drop_last());
        lemma_code_from(cs.skip(1));
        lemma_code_from(cs.drop_last().skip(1));
        assert(cs.drop_last().skip(1) =~= cs.skip(1).drop_last());
        assert(cs.skip(1).last() == cs.last());
        assert(comp_code(cs[0]) + (code_from(cs.skip(1).drop_last()) + comp_code(cs.last()))
            =~= (comp_code(cs[0]) + code_from(cs.skip(1).drop_last())) + comp_code(cs.last()));
    } else if cs.len() == 1 {
        assert(cs.drop_last() =~= Seq::<Seq<char>>::empty());
        assert(cs.skip(1) =~= Seq::<Seq<char>>::empty());
        assert(path_code(cs.drop_last()) =~= Seq::<int>::empty());
        assert(path_code(cs) =~= comp_code(cs[0]));
        assert(code_from(cs.skip(1)) =~= Seq::<int>::empty());
        assert(code_from(cs) =~= comp_code(cs[0]));
    }
}

proof fn lemma_code_from_injective(a: Seq<Seq<char>>, b: Seq<Seq<char>>)
    requires
        code_from(a) == code_from(b),
        forall|i: int| 0 <= i < a.len() ==> (#[trigger] a[i]).len() > 0,
        forall|i: int| 0 <= i < b.len() ==> (#[trigger] b[i]).len() > 0,
    ensures
        a == b,
    decreases a.len(),
{
    if a.len() == 0 || b.len() == 0 {
        if b.len() > 0 {
            assert(code_from(b).len() == comp_code(b[0]).len() + code_from(b.skip(1)).len());
        }
        if a.len() > 0 {
            assert(code_from(a).len() == comp_code(a[0]).len() + code_from(a.skip(1)).len());
        }
        assert(a =~= b);
    } else {
        assert(a[0].len() > 0 && b[0].len() > 0);
        lemma_comp_code_prefix(a[0], b[0], code_from(a.skip(1)), code_from(b.skip(1)));
        assert forall|i: int| 0 <= i < a.skip(1).len() implies (#[trigger] a.skip(1)[i]).len()
            > 0 by {
            assert(a.skip(1)[i] == a[i + 1]);
        }
        assert forall|i: int| 0 <= i < b.skip(1).len() implies (#[trigger] b.skip(1)[i]).len()
            > 0 by {
            assert(b.skip(1)[i] == b[i + 1]);
        }
        lemma_code_from_injective(a.skip(1), b.skip(1));
        assert(a =~= seq![a[0]] + a.skip(1));
        assert(b =~= seq![b[0]] + b.skip(1));
    }
}

/// Paths are the same exactly when neither comes before the other.
pub proof fn lemma_path_order(a: Seq<char>, b: Seq<char>)
    ensures
        path::same(a, b) <==> !path_lt(a, b) && !path_lt(b, a),
{
    let (ca, cb) = (path::comps(a), path::comps(b));
    lemma_code_total(path_code(ca), path_code(cb));
    if path_code(ca) == path_code(cb) {
        lemma_code_from(ca);
        lemma_code_from(cb);
        path::lemma_comps_valid(a);
        path::lemma_comps_valid(b);
        assert forall|i: int| 0 <= i < ca.len() implies (#[trigger] ca[i]).len() > 0 by {
            if i > 0 {
                assert(path::plain(ca[i]));
            }
        }
        assert forall|i: int| 0 <= i < cb.len() implies (#[trigger] cb[i]).len() > 0 by {
            if i > 0 {
                assert(path::plain(cb[i]));
            }
        }
        lemma_code_from_injective(ca, cb);
    }
}

// ---- sorting ------------------------------------------------------------------------

/// Numbers as integers.
spec fn ints(v: Seq<u32>) -> Seq<int> {
    v.map_values(|x: u32| x as int)
}

fn code_of(p: &str) -> (r: Vec<u32>)
    ensures
        ints(r@) == path_code(path::comps(p@)),
{
    let cs = components(p);
    let ghost all = text::strs(cs@);
    let mut out: Vec<u32> = Vec::new();
    let mut i: usize = 0;
    proof {
        reveal_strlit("/");
        reveal_strlit(".");
        reveal_strlit("..");
    }
    assert("/"@ =~= path::root_comp());
    assert("."@ =~= path::dot());
    assert(".."@ =~= path::dot_dot());
    assert(all.take(0).len() == 0);
    assert(ints(out@) =~= Seq::<int>::empty());
    while i < cs.len()
        invariant
            "/"@ == path::root_comp(),
            "."@ == path::dot(),
            ".."@ == path::dot_dot(),
            all == text::strs(cs@),
            i <= cs@.len(),
            ints(out@) == path_code(all.take(i as int)),
        decreases cs@.len() - i,
    {
        let c = cs[i].as_str();
        let ghost before = ints(out@);
        assert(all.take(i + 1).drop_last() =~= all.take(i as int));
        assert(all.take(i + 1).last() == c@);
        if str_eq(c, "/") {
            out.push(1);
            out.push(0);
            assert(ints(out@) =~= before + comp_code(c@));
        } else if str_eq(c, ".") {
            out.push(2);
            out.push(0);
            assert(ints(out@) =~= before + comp_code(c@));
        } else if str_eq(c, "..") {
            out.push(3);
            out.push(0);
            assert(ints(out@) =~= before + comp_code(c@));
        } else {
            let ghost f = |x: char| (x as u32) as int + 1;
            let xs = chars_of(c);
            out.push(4);
            let ghost base = before + seq![4int];
            assert(ints(out@) =~= base + xs@.take(0).map_values(f));
            let mut k: usize = 0;
            while k < xs.len()
                invariant
                    k <= xs@.len(),
                    f == (|x: char| (x as u32) as int + 1),
                    ints(out@) == base + xs@.take(k as int).map_values(f),
                decreases xs@.len() - k,
            {
                let ghost o = ints(out@);
                proof {
                    vstd::utf8::char_is_scalar(xs@[k as int]);
                }
                out.push(xs[k] as u32 + 1);
                assert(ints(out@) =~= o.push((xs@[k as int] as u32) as int + 1));
                k += 1;
                assert(ints(out@) =~= base + xs@.take(k as int).map_values(f));
            }
            assert(xs@.take(xs@.len() as int) =~= xs@);
            let ghost o = ints(out@);
            out.push(0);
            assert(ints(out@) =~= o.push(0));
            assert(o.push(0) =~= before + (seq![4int] + xs@.map_values(f) + seq![0int]));
            assert(comp_code(c@) == seq![4int] + c@.map_values(f) + seq![0int]);
        }
        i += 1;
    }
    assert(all.take(all.len() as int) =~= all);
    out
}

fn code_before(a: &Vec<u32>, b: &Vec<u32>) -> (r: bool)
    ensures
        r == code_lt(ints(a@), ints(b@)),
{
    let ghost (x, y) = (ints(a@), ints(b@));
    let mut i: usize = 0;
    assert(x.skip(0) =~= x);
    assert(y.skip(0) =~= y);
    while i < a.len() && i < b.len()
        invariant
            x == ints(a@),
            y == ints(b@),
            i <= a@.len(),
            i <= b@.len(),
            code_lt(x, y) == code_lt(x.skip(i as int), y.skip(i as int)),
        decreases a@.len() - i,
    {
        assert(x.skip(i as int)[0] == a@[i as int] as int);
        assert(y.skip(i as int)[0] == b@[i as int] as int);
        assert(x.skip(i as int).skip(1) =~= x.skip(i + 1));
        assert(y.skip(i as int).skip(1) =~= y.skip(i + 1));
        if a[i] < b[i] {
            return true;
        }
        if a[i] > b[i] {
            return false;
        }
        i += 1;
    }
    i < b.len()
}

/// Whether position `a` comes before position `b`: by path, and among texts of one
/// path the earlier one first.
spec fn comes_before(cs: Seq<Seq<int>>, a: int, b: int) -> bool {
    code_lt(cs[a], cs[b]) || (cs[a] == cs[b] && a < b)
}

spec fn codes_view(v: Seq<Vec<u32>>) -> Seq<Seq<int>> {
    v.map_values(|c: Vec<u32>| ints(c@))
}

spec fn run(cs: Seq<Seq<int>>, p: Seq<usize>) -> bool {
    &&& p.len() == cs.len()
    &&& forall|i: int| 0 <= i < p.len() ==> #[trigger] p[i] < cs.len()
    &&& forall|i: int, j: int|
        0 <= i < j < p.len() ==> comes_before(cs, #[trigger] p[i] as int, #[trigger] p[j] as int)
}

proof fn lemma_comes_trans(cs: Seq<Seq<int>>, a: int, b: int, c: int)
    requires
        comes_before(cs, a, b),
        comes_before(cs, b, c),
    ensures
        comes_before(cs, a, c),
{
    if code_lt(cs[a], cs[b]) && code_lt(cs[b], cs[c]) {
        lemma_code_trans(cs[a], cs[b], cs[c]);
    }
}

/// Positions by the codes of their paths.
struct ByCode<'a> {
    codes: &'a Vec<Vec<u32>>,
}

impl<'a> Positions for ByCode<'a> {
    closed spec fn count(&self) -> nat {
        self.codes@.len()
    }

    closed spec fn precedes(&self, a: int, b: int) -> bool {
        comes_before(codes_view(self.codes@), a, b)
    }

    proof fn lemma_chain(&self, a: int, b: int, c: int) {
        lemma_comes_trans(codes_view(self.codes@), a, b, c);
    }

    proof fn lemma_either(&self, a: int, b: int) {
        lemma_code_total(codes_view(self.codes@)[a], codes_view(self.codes@)[b]);
    }

    fn is_before(&self, a: usize, b: usize) -> (r: bool) {
        proof {
            let cs = codes_view(self.codes@);
            lemma_code_total(cs[a as int], cs[b as int]);
        }
        if a < b {
            !code_before(&self.codes[b], &self.codes[a])
        } else {
            code_before(&self.codes[a], &self.codes[b])
        }
    }
}

/// The positions of the codes, in order.
fn in_order(codes: &Vec<Vec<u32>>) -> (p: Vec<usize>)
    ensures
        run(codes_view(codes@), p@),
{
    let by = ByCode { codes };
    let p = sort_run(&by, 0, codes.len());
    assert forall|i: int, j: int| 0 <= i < j < p@.len() implies comes_before(
        codes_view(codes@),
        #[trigger] p@[i] as int,
        #[trigger] p@[j] as int,
    ) by {
        assert(by.precedes(p@[i] as int, p@[j] as int));
    }
    p
}

/// Whether `r` holds the paths of `ps`, each once, in order. Of several texts of
/// one path the first stands.
pub open spec fn sorted_unique(ps: Seq<Seq<char>>, r: Seq<Seq<char>>) -> bool {
    &&& forall|i: int, j: int|
        0 <= i < j < r.len() ==> path_lt(#[trigger] r[i], #[trigger] r[j])
    &&& forall|i: int| 0 <= i < r.len() ==> first_text(ps, #[trigger] r[i])
    &&& forall|k: int| 0 <= k < ps.len() ==> has_path(r, #[trigger] ps[k])
}

/// Whether `t` is one of `ps`, and no text of the same path stands before it.
pub open spec fn first_text(ps: Seq<Seq<char>>, t: Seq<char>) -> bool {
    exists|k: int|
        0 <= k < ps.len() && #[trigger] ps[k] == t && forall|m: int|
            0 <= m < k ==> !path::same(#[trigger] ps[m], t)
}

/// Whether some text of `r` is the path `p`.
pub open spec fn has_path(r: Seq<Seq<char>>, p: Seq<char>) -> bool {
    exists|i: int| 0 <= i < r.len() && path::same(#[trigger] r[i], p)
}

proof fn lemma_run_covers(cs: Seq<Seq<int>>, p: Seq<usize>)
    requires
        run(cs, p),
        cs.len() <= usize::MAX,
    ensures
        forall|x: usize| x < cs.len() ==> p.contains(x),
{
    assert(p.no_duplicates()) by {
        assert forall|i: int, j: int| 0 <= i < p.len() && 0 <= j < p.len() && i != j implies p[i]
            != p[j] by {
            let (a, b) = if i < j {
                (i, j)
            } else {
                (j, i)
            };
            assert(comes_before(cs, p[a] as int, p[b] as int));
            lemma_code_total(cs[p[a] as int], cs[p[b] as int]);
        }
    }
    order::lemma_distinct_covers(p);
}

/// Whether the path at place `k` of the order `p` differs from the one before.
spec fn fresh_at(cs: Seq<Seq<int>>, p: Seq<usize>, k: int) -> bool {
    k == 0 || code_lt(cs[p[k - 1] as int], cs[p[k] as int])
}

/// A path that differs from the one before differs from all before.
proof fn lemma_fresh(cs: Seq<Seq<int>>, p: Seq<usize>, k: int, m: int)
    requires
        run(cs, p),
        0 <= m < k < p.len(),
        fresh_at(cs, p, k),
    ensures
        code_lt(cs[p[m] as int], cs[p[k] as int]),
{
    if m < k - 1 {
        assert(comes_before(cs, p[m] as int, p[k - 1] as int));
        if code_lt(cs[p[m] as int], cs[p[k - 1] as int]) {
            lemma_code_trans(cs[p[m] as int], cs[p[k - 1] as int], cs[p[k] as int]);
        }
    }
}

/// Every place has the same path as a place at or before it where it first occurs.
proof fn lemma_fresh_exists(cs: Seq<Seq<int>>, p: Seq<usize>, m: int) -> (f: int)
    requires
        run(cs, p),
        0 <= m < p.len(),
    ensures
        0 <= f <= m,
        fresh_at(cs, p, f),
        cs[p[f] as int] == cs[p[m] as int],
    decreases m,
{
    if fresh_at(cs, p, m) {
        m
    } else {
        assert(comes_before(cs, p[m - 1] as int, p[m] as int));
        lemma_fresh_exists(cs, p, m - 1)
    }
}

/// Whether `kept` are the places where paths first occur, in order.
spec fn first_places(cs: Seq<Seq<int>>, p: Seq<usize>, kept: Seq<int>, k: int) -> bool {
    &&& forall|i: int|
        0 <= i < kept.len() ==> 0 <= #[trigger] kept[i] < k && fresh_at(cs, p, kept[i])
    &&& forall|i: int, j: int| 0 <= i < j < kept.len() ==> #[trigger] kept[i] < #[trigger] kept[j]
    &&& forall|m: int| 0 <= m < k && #[trigger] fresh_at(cs, p, m) ==> kept.contains(m)
}

proof fn lemma_sorted_unique(
    all: Seq<Seq<char>>,
    cs: Seq<Seq<int>>,
    p: Seq<usize>,
    kept: Seq<int>,
    r: Seq<Seq<char>>,
)
    requires
        cs.len() == all.len() <= usize::MAX,
        forall|x: int| 0 <= x < cs.len() ==> #[trigger] cs[x] == path_code(path::comps(all[x])),
        run(cs, p),
        first_places(cs, p, kept, cs.len() as int),
        r.len() == kept.len(),
        forall|i: int| 0 <= i < kept.len() ==> #[trigger] r[i] == all[p[kept[i]] as int],
    ensures
        sorted_unique(all, r),
{
    lemma_run_covers(cs, p);
    assert forall|i: int, j: int| 0 <= i < j < r.len() implies path_lt(
        #[trigger] r[i],
        #[trigger] r[j],
    ) by {
        assert(kept[i] < kept[j]);
        assert(p[kept[i]] < cs.len() && p[kept[j]] < cs.len());
        lemma_fresh(cs, p, kept[j], kept[i]);
    }
    assert forall|i: int| 0 <= i < r.len() implies first_text(all, #[trigger] r[i]) by {
        let k = kept[i];
        let at = p[k] as int;
        assert(p[kept[i]] < cs.len());
        assert forall|m: int| 0 <= m < at implies !path::same(#[trigger] all[m], r[i]) by {
            if path::same(all[m], r[i]) {
                assert(p.contains(m as usize));
                let q = choose|q: int| 0 <= q < p.len() && p[q] == m as usize;
                assert(cs[m] == cs[at]);
                lemma_code_total(cs[m], cs[at]);
                if q < k {
                    lemma_fresh(cs, p, k, q);
                } else if q > k {
                    assert(comes_before(cs, p[k] as int, p[q] as int));
                }
            }
        }
        assert(all[at] == r[i]);
    }
    assert forall|x: int| 0 <= x < all.len() implies has_path(r, #[trigger] all[x]) by {
        assert(p.contains(x as usize));
        let m = choose|m: int| 0 <= m < p.len() && p[m] == x as usize;
        let f = lemma_fresh_exists(cs, p, m);
        assert(kept.contains(f));
        let i = choose|i: int| 0 <= i < kept.len() && kept[i] == f;
        assert(r[i] == all[p[kept[i]] as int]);
        assert(p[f] < cs.len());
        assert(cs[p[f] as int] == cs[x]);
        lemma_code_total(cs[p[f] as int], cs[x]);
        lemma_path_order(r[i], all[x]);
        assert(path::same(r[i], all[x]));
    }
}

fn codes_of(ps: &Vec<String>) -> (r: Vec<Vec<u32>>)
    ensures
        r@.len() == ps@.len(),
        forall|x: int|
            0 <= x < ps@.len() ==> #[trigger] codes_view(r@)[x] == path_code(
                path::comps(text::strs(ps@)[x]),
            ),
{
    let mut codes: Vec<Vec<u32>> = Vec::new();
    let mut i: usize = 0;
    while i < ps.len()
        invariant
            i <= ps@.len(),
            codes@.len() == i,
            forall|x: int|
                0 <= x < i ==> ints((#[trigger] codes@[x])@) == path_code(
                    path::comps(text::strs(ps@)[x]),
                ),
        decreases ps@.len() - i,
    {
        codes.push(code_of(ps[i].as_str()));
        i += 1;
    }
    assert forall|x: int| 0 <= x < ps@.len() implies #[trigger] codes_view(codes@)[x] == path_code(
        path::comps(text::strs(ps@)[x]),
    ) by {
        assert(ints(codes@[x]@) == path_code(path::comps(text::strs(ps@)[x])));
    }
    codes
}

/// The paths in order, each once.
pub fn sort_dedup(ps: &Vec<String>) -> (r: Vec<String>)
    ensures
        sorted_unique(text::strs(ps@), text::strs(r@)),
{
    let ghost all = text::strs(ps@);
    let n: usize = ps.len();
    let codes = codes_of(ps);
    let ghost cs = codes_view(codes@);
    let p = in_order(&codes);
    let mut out: Vec<String> = Vec::new();
    // The places of the texts kept so far.
    let ghost mut kept: Seq<int> = Seq::empty();
    let mut k: usize = 0;
    while k < n
        invariant
            n == ps@.len(),
            n == p@.len(),
            n == codes@.len(),
            all == text::strs(ps@),
            cs == codes_view(codes@),
            run(cs, p@),
            k <= n,
            first_places(cs, p@, kept, k as int),
            kept.len() == out@.len(),
            forall|i: int|
                0 <= i < kept.len() ==> (#[trigger] out@[i])@ == all[p@[kept[i]] as int],
        decreases n - k,
    {
        let at: usize = p[k];
        assert(p@[k as int] < n);
        let fresh = if k == 0 {
            true
        } else {
            assert(p@[k - 1] < n);
            code_before(&codes[p[k - 1]], &codes[at])
        };
        assert(fresh == fresh_at(cs, p@, k as int));
        let ghost kept0 = kept;
        if fresh {
            out.push(ps[at].clone());
            proof {
                kept = kept0.push(k as int);
            }
        }
        proof {
            assert forall|m: int| 0 <= m < k + 1 && #[trigger] fresh_at(
                cs,
                p@,
                m,
            ) implies kept.contains(m) by {
                if m < k {
                    assert(kept0.contains(m));
                    let i = choose|i: int| 0 <= i < kept0.len() && kept0[i] == m;
                    assert(kept[i] == m);
                } else {
                    assert(kept[kept0.len() as int] == m);
                }
            }
        }
        k += 1;
    }
    proof {
        let r = text::strs(out@);
        assert forall|i: int| 0 <= i < kept.len() implies #[trigger] r[i] == all[p@[kept[i]] as int] by {
            assert(out@[i]@ == all[p@[kept[i]] as int]);
        }
        lemma_sorted_unique(all, cs, p@, kept, r);
    }
    out
}

// ---- the outcome of a replay --------------------------------------------------------

/// Why no replay can be asked for at all: no recorded position, or a counter that
/// went backwards because the log was reset.
pub open spec fn no_replay(since: u64, current: u64) -> Option<Seq<char>> {
    if since == 0 {
        Some("no recorded stream position"@)
    } else if current < since {
        Some("event id went backwards"@)
    } else {
        None
    }
}

/// The characters of an optional static string.
pub open spec fn opt_static(s: Option<&'static str>) -> Option<Seq<char>> {
    match s {
        Some(s) => Some(s@),
        None => None,
    }
}

/// Why no replay can be asked for, given the recorded and the current position.
pub fn unreplayable(since: u64, current: u64) -> (r: Option<&'static str>)
    ensures
        opt_static(r) == no_replay(since, current),
{
    if since == 0 {
        Some("no recorded stream position")
    } else if current < since {
        Some("event id went backwards")
    } else {
        None
    }
}

/// Whether `r` is what follows from a replay that was listened to. A history with
/// gaps or without an end is not to be trusted.
pub open spec fn concluded(h: Heard, r: Replay) -> bool {
    if h.dropped {
        r matches Replay::Unavailable(why) && why@ == "history incomplete (events dropped)"@
    } else if !h.history_done {
        r matches Replay::Unavailable(why) && why@ == "history replay timed out"@
    } else {
        r matches Replay::Changed(ps) && sorted_unique(h.paths, text::strs(ps@))
    }
}

/// What was heard, or why nothing could be.
pub open spec fn replayed(
    since: u64,
    current: u64,
    heard: Result<Heard, Seq<char>>,
    r: Replay,
) -> bool {
    match no_replay(since, current) {
        Some(why) => r matches Replay::Unavailable(w) && w@ == why,
        None => match heard {
            Ok(h) => concluded(h, r),
            Err(why) => r matches Replay::Unavailable(w) && w@ == why,
        },
    }
}

/// The paths that changed since the stream position `since`, from what was heard of
/// the stream.
pub fn changed_since(since: u64, current: u64, heard: Result<Collect, &'static str>) -> (r: Replay)
    ensures
        replayed(
            since,
            current,
            match heard {
                Ok(c) => Ok(c@),
                Err(why) => Err(why@),
            },
            r,
        ),
{
    if let Some(why) = unreplayable(since, current) {
        return Replay::Unavailable(why);
    }
    match heard {
        Ok(c) => if c.dropped {
            Replay::Unavailable("history incomplete (events dropped)")
        } else if !c.history_done {
            Replay::Unavailable("history replay timed out")
        } else {
            Replay::Changed(sort_dedup(&c.paths))
        },
        Err(why) => Replay::Unavailable(why),
    }
}

/// Changes are only reported of a history that is complete: one that ended, of
/// which nothing was dropped, from a position that the log still reaches.
pub proof fn law_changes_are_certain(
    since: u64,
    current: u64,
    heard: Result<Heard, Seq<char>>,
    r: Replay,
)
    requires
        replayed(since, current, heard, r),
        r is Changed,
    ensures
        since != 0,
        current >= since,
        heard matches Ok(h) && h.history_done && !h.dropped,
{
}

// ---- the directories to visit -------------------------------------------------------

/// Where a changed path lies below the scanned root. Events name resolved paths, so
/// one below the canonical root is mapped back onto the root that was asked about.
pub open spec fn mapped(root: Seq<char>, canon: Option<Seq<char>>, p: Seq<char>) -> Option<
    Seq<char>,
> {
    if path::within(p, root) {
        Some(p)
    } else {
        match canon {
            Some(c) => if path::within(p, c) {
                Some(
                    path::join_text(
                        root,
                        path::joined(path::comps(p).skip(path::comps(c).len() as int)),
                    ),
                )
            } else {
                None
            },
            None => None,
        }
    }
}

/// Where a changed path lies below the scanned root.
pub fn map_onto_root(root: &str, canon: Option<&str>, p: &str) -> (r: Option<String>)
    ensures
        crate::index::opt_string(r) == mapped(root@, crate::index::opt_str(canon), p@),
{
    if path_starts_with(p, root) {
        return Some(p.to_owned());
    }
    match canon {
        Some(c) => match strip_prefix(p, c) {
            Some(rel) => Some(join(root, rel.as_str())),
            None => None,
        },
        None => None,
    }
}

/// The directory whose listing has to be read again: a directory itself, and of
/// anything else its parent.
pub open spec fn start_of(m: Seq<char>, is_dir: bool) -> Option<Seq<char>> {
    if is_dir {
        Some(m)
    } else {
        path::parent_of(m)
    }
}

/// `c` and the directories above it, up to the root.
pub open spec fn up(root: Seq<char>, c: Seq<char>) -> Set<Seq<char>>
    decreases path::comps(c).len(),
    via up_decreases
{
    if path::same(c, root) {
        set![path::norm(c)]
    } else {
        match path::parent_of(c) {
            Some(q) => up(root, q).insert(path::norm(c)),
            None => set![path::norm(c)],
        }
    }
}

#[via_fn]
proof fn up_decreases(root: Seq<char>, c: Seq<char>) {
    if path::parent_of(c) is Some {
        crate::builder::lemma_parent_comps(c);
    }
}

/// The directories that the first `k` changes make dirty, and the root.
pub open spec fn closure_upto(
    root: Seq<char>,
    canon: Option<Seq<char>>,
    changed: Seq<Seq<char>>,
    is_dir: Seq<bool>,
    k: nat,
) -> Set<Seq<char>>
    decreases k,
{
    if k == 0 {
        set![path::norm(root)]
    } else {
        let before = closure_upto(root, canon, changed, is_dir, (k - 1) as nat);
        match dirty_start(root, canon, changed, is_dir, k - 1) {
            Some(s) => before.union(up(root, s)),
            None => before,
        }
    }
}

/// The directory that the change `i` makes dirty.
pub open spec fn dirty_start(
    root: Seq<char>,
    canon: Option<Seq<char>>,
    changed: Seq<Seq<char>>,
    is_dir: Seq<bool>,
    i: int,
) -> Option<Seq<char>> {
    match mapped(root, canon, changed[i]) {
        Some(m) => start_of(m, is_dir[i]),
        None => None,
    }
}

/// How many of the first `k` changes lie below the root.
pub open spec fn matched_upto(
    root: Seq<char>,
    canon: Option<Seq<char>>,
    changed: Seq<Seq<char>>,
    k: nat,
) -> nat
    decreases k,
{
    if k == 0 {
        0
    } else {
        matched_upto(root, canon, changed, (k - 1) as nat) + (if mapped(
            root,
            canon,
            changed[k - 1],
        ) is Some {
            1nat
        } else {
            0
        })
    }
}

/// Whether with each member below the root its parent is one too.
spec fn upward_closed(root: Seq<char>, s: Set<Seq<char>>) -> bool {
    forall|c: Seq<char>| #[trigger]
        s.contains(path::norm(c)) ==> (path::same(c, root) || (match path::parent_of(c) {
            Some(q) => s.contains(path::norm(q)),
            None => true,
        }))
}

proof fn lemma_closed_up(root: Seq<char>, s: Set<Seq<char>>, c: Seq<char>)
    requires
        upward_closed(root, s),
        s.contains(path::norm(c)),
    ensures
        up(root, c).subset_of(s),
    decreases path::comps(c).len(),
{
    if !path::same(c, root) {
        if let Some(q) = path::parent_of(c) {
            crate::builder::lemma_parent_comps(c);
            lemma_closed_up(root, s, q);
        }
    }
}

proof fn lemma_same_up(root: Seq<char>, a: Seq<char>, b: Seq<char>)
    requires
        path::same(a, b),
    ensures
        path::norm(a) == path::norm(b),
        path::parent_of(a) == path::parent_of(b),
        path::same(a, root) == path::same(b, root),
{
}

proof fn lemma_up_closed(root: Seq<char>, c: Seq<char>)
    ensures
        upward_closed(root, up(root, c)),
        up(root, c).contains(path::norm(c)),
    decreases path::comps(c).len(),
{
    let s = up(root, c);
    if !path::same(c, root) && path::parent_of(c) is Some {
        let q = path::parent_of(c)->0;
        crate::builder::lemma_parent_comps(c);
        lemma_up_closed(root, q);
    }
    assert forall|d: Seq<char>| #[trigger] s.contains(path::norm(d)) implies (path::same(d, root)
        || (match path::parent_of(d) {
        Some(q) => s.contains(path::norm(q)),
        None => true,
    })) by {
        if path::norm(d) == path::norm(c) {
            path::lemma_norm_same(d, c);
            lemma_same_up(root, d, c);
        }
    }
}

proof fn lemma_union_closed(root: Seq<char>, a: Set<Seq<char>>, b: Set<Seq<char>>)
    requires
        upward_closed(root, a),
        upward_closed(root, b),
    ensures
        upward_closed(root, a.union(b)),
{
    assert forall|c: Seq<char>| #[trigger] a.union(b).contains(path::norm(c)) implies (path::same(
        c,
        root,
    ) || (match path::parent_of(c) {
        Some(q) => a.union(b).contains(path::norm(q)),
        None => true,
    })) by {
        if a.contains(path::norm(c)) {
        } else {
            assert(b.contains(path::norm(c)));
        }
    }
}

/// Add `start` and the directories above it, up to the root. An ancestor that is
/// there already ends the way up: what is above it is covered.
fn mark_up(set: &mut PathSet, root: &str, start: String)
    requires
        upward_closed(root@, old(set)@),
    ensures
        final(set)@ == old(set)@.union(up(root@, start@)),
        upward_closed(root@, final(set)@),
{
    let ghost before = set@;
    let ghost goal = before.union(up(root@, start@));
    proof {
        lemma_up_closed(root@, start@);
        lemma_union_closed(root@, before, up(root@, start@));
    }
    let mut cur: Option<String> = Some(start);
    let ghost mut done = Set::<Seq<char>>::empty();
    assert(before.union(done) =~= before);
    assert(set@.union(up(root@, start@)) =~= goal);
    while cur.is_some()
        invariant
            upward_closed(root@, before),
            set@ == before.union(done),
            match cur {
                Some(c) => set@.union(up(root@, c@)) == goal && (forall|d: Seq<char>| #[trigger]
                    done.contains(path::norm(d)) ==> path::comps(d).len() > path::comps(c@).len()),
                None => set@ == goal,
            },
        decreases
            match cur {
                Some(c) => path::comps(c@).len() + 1,
                None => 0,
            },
    {
        if let Some(c) = cur {
            let ghost s0 = set@;
            let ghost done0 = done;
            let fresh = set.insert(c.as_str());
            if !fresh {
                proof {
                    assert(before.contains(path::norm(c@))) by {
                        if done.contains(path::norm(c@)) {
                            assert(path::comps(c@).len() > path::comps(c@).len());
                        }
                    }
                    lemma_closed_up(root@, before, c@);
                    assert(set@ =~= s0);
                    assert(s0.union(up(root@, c@)) =~= s0);
                }
                cur = None;
            } else {
                proof {
                    done = done0.insert(path::norm(c@));
                    assert(set@ =~= before.union(done));
                }
                let same_as_root = same_path(c.as_str(), root);
                if same_as_root {
                    assert(set@ =~= s0.union(up(root@, c@)));
                    cur = None;
                } else {
                    let next = parent(c.as_str());
                    proof {
                        match path::parent_of(c@) {
                            Some(q) => {
                                crate::builder::lemma_parent_comps(c@);
                                assert(set@.union(up(root@, q)) =~= s0.union(up(root@, c@)));
                                assert forall|d: Seq<char>| #[trigger] done.contains(
                                    path::norm(d),
                                ) implies path::comps(d).len() > path::comps(q).len() by {
                                    if done0.contains(path::norm(d)) {
                                        assert(path::comps(d).len() > path::comps(c@).len());
                                    } else {
                                        path::lemma_norm_same(d, c@);
                                    }
                                }
                            },
                            None => {
                                assert(set@ =~= s0.union(up(root@, c@)));
                            },
                        }
                    }
                    cur = next;
                }
            }
        }
    }
}

/// The directories a walk must still visit, given the changed paths, and how many
/// of those actually landed under `root`.
///
/// `is_dir` tells of each change whether the path that it maps to is a directory.
/// The count matters: a root reached through a symlink yields events that match
/// nothing, and taking that for "nothing changed" would prune the entire tree, so
/// callers must fall back when the count is zero but `changed` was not empty.
pub fn dirty_closure(
    root: &str,
    canon: Option<&str>,
    changed: &Vec<String>,
    is_dir: &Vec<bool>,
) -> (r: (PathSet, usize))
    requires
        is_dir@.len() == changed@.len(),
    ensures
        r.0@ == closure_upto(
            root@,
            crate::index::opt_str(canon),
            text::strs(changed@),
            is_dir@,
            changed@.len(),
        ),
        r.1 == matched_upto(
            root@,
            crate::index::opt_str(canon),
            text::strs(changed@),
            changed@.len(),
        ),
{
    let ghost cv = crate::index::opt_str(canon);
    let ghost ps = text::strs(changed@);
    let mut set = PathSet::new();
    let _ = set.insert(root);
    let mut matched: usize = 0;
    let mut i: usize = 0;
    proof {
        assert(set@ =~= set![path::norm(root@)]);
        assert forall|c: Seq<char>| #[trigger] set@.contains(path::norm(c)) implies (path::same(
            c,
            root@,
        ) || (match path::parent_of(c) {
            Some(q) => set@.contains(path::norm(q)),
            None => true,
        })) by {
            path::lemma_norm_same(c, root@);
        }
    }
    while i < changed.len()
        invariant
            cv == crate::index::opt_str(canon),
            ps == text::strs(changed@),
            is_dir@.len() == changed@.len(),
            i <= changed@.len(),
            matched <= i,
            set@ == closure_upto(root@, cv, ps, is_dir@, i as nat),
            matched == matched_upto(root@, cv, ps, i as nat),
            upward_closed(root@, set@),
        decreases changed@.len() - i,
    {
        assert(ps[i as int] == changed@[i as int]@);
        match map_onto_root(root, canon, changed[i].as_str()) {
            Some(m) => {
                matched += 1;
                let start: Option<String> = if is_dir[i] {
                    Some(m)
                } else {
                    parent(m.as_str())
                };
                match start {
                    Some(s) => {
                        mark_up(&mut set, root, s);
                    },
                    None => {},
                }
            },
            None => {},
        }
        i += 1;
    }
    (set, matched)
}

/// Every directory between the root and a changed one is visited.
pub proof fn law_ways_to_changes_are_visited(
    root: Seq<char>,
    canon: Option<Seq<char>>,
    changed: Seq<Seq<char>>,
    is_dir: Seq<bool>,
    k: nat,
    i: int,
    d: Seq<char>,
)
    requires
        0 <= i < k <= changed.len(),
        is_dir.len() == changed.len(),
        dirty_start(root, canon, changed, is_dir, i) matches Some(s) && path::within(s, d),
        path::within(d, root),
    ensures
        closure_upto(root, canon, changed, is_dir, k).contains(path::norm(d)),
    decreases k,
{
    if path::same(d, root) {
        lemma_root_is_visited(root, canon, changed, is_dir, k);
        path::lemma_norm_same(d, root);
    } else if i < k - 1 {
        law_ways_to_changes_are_visited(root, canon, changed, is_dir, (k - 1) as nat, i, d);
    } else {
        lemma_up_has(root, dirty_start(root, canon, changed, is_dir, i)->0, d);
    }
}

proof fn lemma_up_has(root: Seq<char>, s: Seq<char>, d: Seq<char>)
    requires
        path::within(s, d),
        path::within(d, root),
        !path::same(d, root),
    ensures
        up(root, s).contains(path::norm(d)),
    decreases path::comps(s).len(),
{
    let (cs, cd) = (path::comps(s), path::comps(d));
    assert(cd.len() > path::comps(root).len()) by {
        if cd.len() == path::comps(root).len() {
            assert(cd =~= path::comps(root));
        }
    }
    if cs.len() == cd.len() {
        assert(cs =~= cd);
        lemma_up_closed(root, s);
        path::lemma_norm_same(s, d);
    } else {
        assert(!path::same(s, root)) by {
            assert(path::comps(root).len() <= cd.len());
        }
        path::lemma_comps_valid(s);
        assert(path::parent_of(s) is Some) by {
            if cs.last() == path::root_comp() {
                if cs.len() > 1 {
                    assert(path::plain(cs[cs.len() - 1]));
                    assert(path::root_comp()[0] == '/');
                    assert(!path::is_sep(cs[cs.len() - 1][0]));
                }
            }
        }
        crate::builder::lemma_parent_comps(s);
        let q = path::parent_of(s)->0;
        assert(path::comps(q) == cs.drop_last());
        assert(cd =~= cs.drop_last().take(cd.len() as int)) by {
            assert(cd =~= cs.take(cd.len() as int));
        }
        lemma_up_has(root, q, d);
    }
}

pub proof fn lemma_root_is_visited(
    root: Seq<char>,
    canon: Option<Seq<char>>,
    changed: Seq<Seq<char>>,
    is_dir: Seq<bool>,
    k: nat,
)
    ensures
        closure_upto(root, canon, changed, is_dir, k).contains(path::norm(root)),
    decreases k,
{
    if k > 0 {
        lemma_root_is_visited(root, canon, changed, is_dir, (k - 1) as nat);
    }
}

/// What is visited is the root, or a changed directory or one above it: a directory
/// with no change at or below it can be served from the index.
pub proof fn law_only_ways_to_changes_are_visited(
    root: Seq<char>,
    canon: Option<Seq<char>>,
    changed: Seq<Seq<char>>,
    is_dir: Seq<bool>,
    k: nat,
    d: Seq<char>,
)
    requires
        k <= changed.len(),
        closure_upto(root, canon, changed, is_dir, k).contains(path::norm(d)),
    ensures
        path::same(d, root) || exists|i: int|
            0 <= i < k && (#[trigger] dirty_start(root, canon, changed, is_dir, i) matches Some(s)
                && path::within(s, d)),
    decreases k,
{
    if k == 0 {
        path::lemma_norm_same(d, root);
    } else {
        let before = closure_upto(root, canon, changed, is_dir, (k - 1) as nat);
        if before.contains(path::norm(d)) {
            law_only_ways_to_changes_are_visited(root, canon, changed, is_dir, (k - 1) as nat, d);
        } else {
            let s = dirty_start(root, canon, changed, is_dir, k - 1)->0;
            lemma_up_only(root, s, d);
        }
    }
}

proof fn lemma_up_only(root: Seq<char>, s: Seq<char>, d: Seq<char>)
    requires
        up(root, s).contains(path::norm(d)),
    ensures
        path::within(s, d),
    decreases path::comps(s).len(),
{
    let (cs, cd) = (path::comps(s), path::comps(d));
    if path::norm(s) == path::norm(d) {
        path::lemma_norm_same(s, d);
        assert(cd =~= cs.take(cd.len() as int));
    } else {
        let q = path::parent_of(s)->0;
        crate::builder::lemma_parent_comps(s);
        lemma_up_only(root, q, d);
        assert(cd =~= cs.take(cd.len() as int)) by {
            assert(cd =~= cs.drop_last().take(cd.len() as int));
        }
    }
}

/// Whether a change that is reported as `p` happened at `at`, as the scanned root names
/// it: `p` itself where it lies below the root, and otherwise what lies below the root
/// as `p` does below the canonical root.
pub open spec fn happened_at(
    root: Seq<char>,
    canon: Option<Seq<char>>,
    p: Seq<char>,
    at: Seq<char>,
) -> bool {
    ||| path::within(p, root) && path::same(at, p)
    ||| !path::within(p, root) && (canon matches Some(c) && path::within(p, c) && path::comps(at)
        == path::comps(root) + path::comps(p).skip(path::comps(c).len() as int))
}

proof fn lemma_mapped_is_where(root: Seq<char>, canon: Option<Seq<char>>, p: Seq<char>)
    requires
        canon matches Some(c) ==> path::comps(c).len() > 0,
    ensures
        match mapped(root, canon, p) {
            Some(m) => happened_at(root, canon, p, m) && forall|at: Seq<char>| #[trigger]
                happened_at(root, canon, p, at) ==> path::same(at, m),
            None => forall|at: Seq<char>| !happened_at(root, canon, p, at),
        },
{
    if !path::within(p, root) {
        if let Some(c) = canon {
            if path::within(p, c) {
                assert(root.len() > 0) by {
                    if root.len() == 0 {
                        path::lemma_comps_empty();
                        assert(root =~= Seq::<char>::empty());
                        assert(path::comps(root) =~= path::comps(p).take(0));
                    }
                }
                let cs = path::comps(p);
                let n = path::comps(c).len() as int;
                path::lemma_comps_valid(p);
                let rest = cs.skip(n);
                assert forall|k: int| 0 <= k < rest.len() implies path::plain(#[trigger] rest[k]) by {
                    assert(rest[k] == cs[k + n]);
                }
                path::lemma_comps_join_all(root, rest);
            }
        }
    }
}

proof fn lemma_start_is_visited(
    root: Seq<char>,
    canon: Option<Seq<char>>,
    changed: Seq<Seq<char>>,
    is_dir: Seq<bool>,
    k: nat,
    i: int,
)
    requires
        0 <= i < k <= changed.len(),
        dirty_start(root, canon, changed, is_dir, i) is Some,
    ensures
        closure_upto(root, canon, changed, is_dir, k).contains(
            path::norm(dirty_start(root, canon, changed, is_dir, i)->0),
        ),
    decreases k,
{
    if i < k - 1 {
        lemma_start_is_visited(root, canon, changed, is_dir, (k - 1) as nat, i);
    } else {
        lemma_up_closed(root, dirty_start(root, canon, changed, is_dir, i)->0);
    }
}

/// Every change is walked again, not just some of them: a changed directory itself, of
/// any other changed path the directory that holds it, and every directory from there
/// up to the root.
pub proof fn law_every_change_is_walked_again(
    root: Seq<char>,
    canon: Option<Seq<char>>,
    changed: Seq<Seq<char>>,
    is_dir: Seq<bool>,
    i: int,
    at: Seq<char>,
)
    requires
        0 <= i < changed.len() == is_dir.len(),
        canon matches Some(c) ==> path::comps(c).len() > 0,
        happened_at(root, canon, changed[i], at),
    ensures
        ({
            let dirty = closure_upto(root, canon, changed, is_dir, changed.len());
            &&& is_dir[i] ==> dirty.contains(path::norm(at))
            &&& !is_dir[i] ==> (path::parent_of(at) matches Some(q) ==> dirty.contains(
                path::norm(q),
            ))
            &&& forall|d: Seq<char>|
                path::within(d, root) && path::within(at, d) && (is_dir[i] || !path::same(at, d))
                    ==> #[trigger] dirty.contains(path::norm(d))
        }),
{
    let n = changed.len();
    let dirty = closure_upto(root, canon, changed, is_dir, n);
    lemma_mapped_is_where(root, canon, changed[i]);
    let m = mapped(root, canon, changed[i])->0;
    lemma_same_up(root, at, m);
    let start = dirty_start(root, canon, changed, is_dir, i);
    if let Some(q) = start {
        lemma_start_is_visited(root, canon, changed, is_dir, n, i);
        path::lemma_norm_same(at, m);
    }
    assert forall|d: Seq<char>|
        path::within(d, root) && path::within(at, d) && (is_dir[i] || !path::same(at, d)) implies #[trigger] dirty.contains(
        path::norm(d),
    ) by {
        let (cm, cd) = (path::comps(m), path::comps(d));
        if path::same(d, root) {
            lemma_root_is_visited(root, canon, changed, is_dir, n);
            path::lemma_norm_same(d, root);
        } else if is_dir[i] {
            law_ways_to_changes_are_visited(root, canon, changed, is_dir, n, i, d);
        } else {
            assert(cd.len() > 0) by {
                if cd.len() == 0 {
                    assert(cd =~= path::comps(root));
                }
            }
            assert(cd.len() < cm.len()) by {
                if cd.len() == cm.len() {
                    assert(cd =~= cm);
                }
            }
            path::lemma_comps_valid(m);
            assert(path::parent_of(m) is Some) by {
                if cm.last() == path::root_comp() && cm.len() > 1 {
                    assert(path::plain(cm[cm.len() - 1]));
                    assert(path::root_comp()[0] == '/');
                    assert(!path::is_sep(cm[cm.len() - 1][0]));
                }
            }
            let q = path::parent_of(m)->0;
            crate::builder::lemma_parent_comps(m);
            assert(cd =~= path::comps(q).take(cd.len() as int)) by {
                assert(cd =~= cm.take(cd.len() as int));
            }
            law_ways_to_changes_are_visited(root, canon, changed, is_dir, n, i, d);
        }
    }
}

/// Nothing is walked again without a change: what is visited besides the root has a
/// changed directory at or below it, or some other changed path below it.
pub proof fn law_nothing_is_walked_without_a_change(
    root: Seq<char>,
    canon: Option<Seq<char>>,
    changed: Seq<Seq<char>>,
    is_dir: Seq<bool>,
    d: Seq<char>,
) -> (i: int)
    requires
        changed.len() == is_dir.len(),
        canon matches Some(c) ==> path::comps(c).len() > 0,
        closure_upto(root, canon, changed, is_dir, changed.len()).contains(path::norm(d)),
        !path::same(d, root),
    ensures
        0 <= i < changed.len(),
        exists|at: Seq<char>|
            #[trigger] happened_at(root, canon, changed[i], at) && path::within(at, d) && (is_dir[i]
                || !path::same(at, d)),
{
    let n = changed.len();
    law_only_ways_to_changes_are_visited(root, canon, changed, is_dir, n, d);
    let i = choose|i: int|
        0 <= i < n && (#[trigger] dirty_start(root, canon, changed, is_dir, i) matches Some(s)
            && path::within(s, d));
    lemma_mapped_is_where(root, canon, changed[i]);
    let m = mapped(root, canon, changed[i])->0;
    assert(happened_at(root, canon, changed[i], m));
    if !is_dir[i] {
        crate::builder::lemma_parent_comps(m);
        let q = path::parent_of(m)->0;
        let (cm, cd) = (path::comps(m), path::comps(d));
        assert(cd =~= cm.take(cd.len() as int)) by {
            assert(cd =~= cm.drop_last().take(cd.len() as int));
        }
        assert(cd.len() < cm.len());
    }
    i
}

/// As many changes are counted as lie below the root, under its own name or under its
/// canonical one.
pub proof fn law_changes_below_the_root_are_counted(
    root: Seq<char>,
    canon: Option<Seq<char>>,
    changed: Seq<Seq<char>>,
)
    ensures
        matched_upto(root, canon, changed, changed.len()) == changed.filter(
            |p: Seq<char>|
                path::within(p, root) || (canon matches Some(c) && path::within(p, c)),
        ).len(),
{
    let f = |p: Seq<char>|
        path::within(p, root) || (canon matches Some(c) && path::within(p, c));
    lemma_counted(root, canon, changed, f, changed.len());
    assert(changed.take(changed.len() as int) =~= changed);
}

proof fn lemma_counted(
    root: Seq<char>,
    canon: Option<Seq<char>>,
    changed: Seq<Seq<char>>,
    f: spec_fn(Seq<char>) -> bool,
    k: nat,
)
    requires
        k <= changed.len(),
        f == (|p: Seq<char>|
            path::within(p, root) || (canon matches Some(c) && path::within(p, c))),
    ensures
        matched_upto(root, canon, changed, k) == changed.take(k as int).filter(f).len(),
    decreases k,
{
    let head = changed.take(k as int);
    if k == 0 {
        reveal_with_fuel(Seq::filter, 1);
    } else {
        lemma_counted(root, canon, changed, f, (k - 1) as nat);
        assert(head.drop_last() =~= changed.take(k - 1));
        assert(head.last() == changed[k - 1]);
        text::lemma_filter_last(head, f);
    }
}

} // verus!
