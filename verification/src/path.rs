//! File-system paths as text, compared by their components.
//!
//! A path is a string. What it names is the sequence of its components: a
//! leading `/`, then the names between the separators. Repeated separators, a
//! separator at the end and `.` components (but one at the very front of a
//! relative path) add nothing, so `/a//b/` and `/a/./b` name the same path.

use vstd::hash_set::StringHashSet;
use vstd::prelude::*;

use crate::text;
use crate::text::{chars_of, str_eq};

verus! {

/// The component that stands for the file-system root.
pub open spec fn root_comp() -> Seq<char> {
    seq!['/']
}

/// The component of the current directory.
pub open spec fn dot() -> Seq<char> {
    seq!['.']
}

/// The component of the parent directory.
pub open spec fn dot_dot() -> Seq<char> {
    seq!['.', '.']
}

pub open spec fn is_sep(c: char) -> bool {
    c == '/'
}

/// Whether a piece between two separators is a component of its own.
pub open spec fn counts(p: Seq<char>) -> bool {
    p.len() > 0 && p != dot()
}

/// The first component, where it is the root or a leading `.`.
pub open spec fn head(t: Seq<char>) -> Seq<Seq<char>> {
    if t.len() > 0 && is_sep(t[0]) {
        seq![root_comp()]
    } else if text::pieces(t, |c: char| is_sep(c))[0] == dot() {
        seq![dot()]
    } else {
        Seq::empty()
    }
}

/// The components of the path `t`.
pub open spec fn comps(t: Seq<char>) -> Seq<Seq<char>> {
    head(t) + text::pieces(t, |c: char| is_sep(c)).filter(|p: Seq<char>| counts(p))
}

/// The names joined by separators.
pub open spec fn joined(cs: Seq<Seq<char>>) -> Seq<char>
    decreases cs.len(),
{
    if cs.len() == 0 {
        Seq::empty()
    } else if cs.len() == 1 {
        cs[0]
    } else {
        joined(cs.drop_last()).push('/') + cs.last()
    }
}

/// The shortest text of the path with the components `cs`.
pub open spec fn render(cs: Seq<Seq<char>>) -> Seq<char> {
    if cs.len() > 0 && cs[0] == root_comp() {
        root_comp() + joined(cs.skip(1))
    } else {
        joined(cs)
    }
}

/// The shortest text of the path `t`: two paths are the same exactly when these
/// texts are.
pub open spec fn norm(t: Seq<char>) -> Seq<char> {
    render(comps(t))
}

/// Whether `a` and `b` name the same path.
pub open spec fn same(a: Seq<char>, b: Seq<char>) -> bool {
    comps(a) == comps(b)
}

/// Whether `p` is `base` or lies below it.
pub open spec fn within(p: Seq<char>, base: Seq<char>) -> bool {
    comps(base).is_prefix_of(comps(p))
}

/// `base` followed by `name`: `name` alone where it is absolute.
pub open spec fn join_text(base: Seq<char>, name: Seq<char>) -> Seq<char> {
    if name.len() > 0 && is_sep(name[0]) {
        name
    } else if base.len() == 0 || is_sep(base.last()) {
        base + name
    } else {
        base.push('/') + name
    }
}

/// Whether no separator stands in `c`.
pub open spec fn sep_free(c: Seq<char>) -> bool {
    forall|j: int| 0 <= j < c.len() ==> !is_sep(#[trigger] c[j])
}

/// Whether `c` may stand as a component behind the first one.
pub open spec fn plain(c: Seq<char>) -> bool {
    counts(c) && sep_free(c)
}

/// Whether `cs` are the components of some path.
pub open spec fn valid_comps(cs: Seq<Seq<char>>) -> bool {
    &&& forall|k: int| 1 <= k < cs.len() ==> plain(#[trigger] cs[k])
    &&& cs.len() > 0 ==> cs[0] == root_comp() || cs[0] == dot() || plain(cs[0])
}

/// The components of a path are the components of a path.
pub proof fn lemma_comps_valid(t: Seq<char>)
    ensures
        valid_comps(comps(t)),
{
    let sep = |c: char| is_sep(c);
    let f = |p: Seq<char>| counts(p);
    let ps = text::pieces(t, sep);
    let body = ps.filter(f);
    assert forall|k: int| 0 <= k < body.len() implies plain(#[trigger] body[k]) by {
        text::lemma_filter_members(ps, f, k);
        let i = choose|i: int| 0 <= i < ps.len() && ps[i] == body[k];
        assert forall|j: int| 0 <= j < body[k].len() implies !is_sep(#[trigger] body[k][j]) by {
            text::lemma_pieces_free(t, sep, i, j);
        }
    }
    let cs = comps(t);
    assert forall|k: int| 1 <= k < cs.len() implies plain(#[trigger] cs[k]) by {
        assert(cs[k] == body[k - head(t).len()]);
    }
    if cs.len() > 0 && head(t).len() == 0 {
        assert(cs[0] == body[0]);
    }
}

proof fn lemma_pieces_joined(cs: Seq<Seq<char>>)
    requires
        cs.len() > 0,
        forall|k: int| 0 <= k < cs.len() ==> sep_free(#[trigger] cs[k]),
    ensures
        text::pieces(joined(cs), |c: char| is_sep(c)) == cs,
    decreases cs.len(),
{
    let sep = |c: char| is_sep(c);
    if cs.len() == 1 {
        text::lemma_pieces_single(cs[0], sep);
        assert(seq![cs[0]] =~= cs);
    } else {
        let front = cs.drop_last();
        assert forall|k: int| 0 <= k < front.len() implies sep_free(#[trigger] front[k]) by {
            assert(front[k] == cs[k]);
        }
        lemma_pieces_joined(front);
        let last = cs.last();
        assert(sep_free(cs[cs.len() - 1]));
        text::lemma_pieces_extend(joined(front), '/', last, sep);
        assert(front.push(last) =~= cs);
    }
}

proof fn lemma_filter_all<T>(s: Seq<T>, f: spec_fn(T) -> bool)
    requires
        forall|k: int| 0 <= k < s.len() ==> f(#[trigger] s[k]),
    ensures
        s.filter(f) == s,
    decreases s.len(),
{
    reveal_with_fuel(Seq::filter, 2);
    if s.len() > 0 {
        let front = s.drop_last();
        assert forall|k: int| 0 <= k < front.len() implies f(#[trigger] front[k]) by {
            assert(front[k] == s[k]);
        }
        lemma_filter_all(front, f);
        assert(f(s[s.len() - 1]));
        assert(front.push(s.last()) =~= s);
    } else {
        assert(s.filter(f) =~= s);
    }
}

proof fn lemma_filter_first<T>(s: Seq<T>, f: spec_fn(T) -> bool)
    requires
        s.len() > 0,
        !f(s[0]),
    ensures
        s.filter(f) == s.skip(1).filter(f),
    decreases s.len(),
{
    reveal_with_fuel(Seq::filter, 2);
    if s.len() == 1 {
        assert(s.skip(1) =~= Seq::<T>::empty());
        assert(s.drop_last() =~= Seq::<T>::empty());
    } else {
        lemma_filter_first(s.drop_last(), f);
        assert(s.drop_last().skip(1) =~= s.skip(1).drop_last());
        text::lemma_filter_last(s, f);
        text::lemma_filter_last(s.skip(1), f);
    }
}

proof fn lemma_pieces_leading(t: Seq<char>)
    ensures
        text::pieces(root_comp() + t, |c: char| is_sep(c)) == seq![Seq::<char>::empty()] + text::pieces(
            t,
            |c: char| is_sep(c),
        ),
    decreases t.len(),
{
    let sep = |c: char| is_sep(c);
    let s = root_comp() + t;
    let e = seq![Seq::<char>::empty()];
    if t.len() == 0 {
        assert(s.drop_last() =~= Seq::<char>::empty());
        assert(s.last() == '/');
        assert(t =~= Seq::<char>::empty());
        assert(text::pieces(t, sep) =~= e);
        assert(text::pieces(s.drop_last(), sep) =~= e);
        assert(text::pieces(s, sep) =~= e.push(Seq::<char>::empty()));
        assert(e.push(Seq::<char>::empty()) =~= e + text::pieces(t, sep));
    } else {
        lemma_pieces_leading(t.drop_last());
        text::lemma_pieces_nonempty(t.drop_last(), sep);
        assert(s.drop_last() =~= root_comp() + t.drop_last());
        let before = text::pieces(t.drop_last(), sep);
        assert(s.last() == t.last());
        if sep(t.last()) {
            assert(text::pieces(s, sep) =~= e + text::pieces(t, sep));
        } else {
            assert((e + before).drop_last() =~= e + before.drop_last());
            assert(text::pieces(s, sep) =~= e + text::pieces(t, sep));
        }
    }
}

pub proof fn lemma_comps_empty()
    ensures
        comps(Seq::<char>::empty()) == Seq::<Seq<char>>::empty(),
        text::pieces(Seq::<char>::empty(), |c: char| is_sep(c)).filter(|p: Seq<char>| counts(p))
            == Seq::<Seq<char>>::empty(),
{
    let sep = |c: char| is_sep(c);
    let f = |p: Seq<char>| counts(p);
    let ps = text::pieces(Seq::<char>::empty(), sep);
    assert(ps =~= seq![Seq::<char>::empty()]);
    lemma_filter_first(ps, f);
    assert(ps.skip(1) =~= Seq::<Seq<char>>::empty());
    lemma_filter_all(ps.skip(1), f);
    assert(ps[0].len() == 0);
    assert(dot().len() == 1);
}

proof fn lemma_comps_render_rooted(cs: Seq<Seq<char>>)
    requires
        valid_comps(cs),
        cs.len() > 0,
        cs[0] == root_comp(),
    ensures
        comps(render(cs)) == cs,
{
    let sep = |c: char| is_sep(c);
    let f = |p: Seq<char>| counts(p);
    let t = render(cs);
    let rest = cs.skip(1);
    lemma_pieces_leading(joined(rest));
    let ps = text::pieces(joined(rest), sep);
    let e = seq![Seq::<char>::empty()];
    lemma_filter_first(e + ps, f);
    assert((e + ps).skip(1) =~= ps);
    assert forall|k: int| 0 <= k < rest.len() implies plain(#[trigger] rest[k]) by {
        assert(rest[k] == cs[k + 1]);
    }
    if rest.len() == 0 {
        assert(joined(rest) =~= Seq::<char>::empty());
        lemma_comps_empty();
        assert(rest =~= Seq::<Seq<char>>::empty());
    } else {
        lemma_pieces_joined(rest);
        lemma_filter_all(rest, f);
    }
    assert(ps.filter(f) == rest);
    assert(t[0] == '/');
    assert(seq![root_comp()] + rest =~= cs);
}

proof fn lemma_comps_render_relative(cs: Seq<Seq<char>>)
    requires
        valid_comps(cs),
        cs.len() > 0,
        cs[0] != root_comp(),
    ensures
        comps(render(cs)) == cs,
{
    let sep = |c: char| is_sep(c);
    let f = |p: Seq<char>| counts(p);
    let t = render(cs);
    assert forall|k: int| 0 <= k < cs.len() implies sep_free(#[trigger] cs[k]) by {
        if k >= 1 {
            assert(plain(cs[k]));
        }
    }
    lemma_pieces_joined(cs);
    lemma_joined_front(cs);
    assert(!is_sep(t[0]));
    if cs[0] == dot() {
        let rest = cs.skip(1);
        lemma_filter_first(cs, f);
        assert forall|k: int| 0 <= k < rest.len() implies f(#[trigger] rest[k]) by {
            assert(plain(cs[k + 1]));
        }
        lemma_filter_all(rest, f);
        assert(seq![dot()] + rest =~= cs);
    } else {
        assert forall|k: int| 0 <= k < cs.len() implies f(#[trigger] cs[k]) by {
            if k >= 1 {
                assert(plain(cs[k]));
            }
        }
        lemma_filter_all(cs, f);
        assert(Seq::<Seq<char>>::empty() + cs =~= cs);
    }
}

/// The text that `render` gives for the components of a path has just these
/// components.
pub proof fn lemma_comps_render(cs: Seq<Seq<char>>)
    requires
        valid_comps(cs),
    ensures
        comps(render(cs)) == cs,
{
    if cs.len() == 0 {
        lemma_comps_empty();
        assert(cs =~= Seq::<Seq<char>>::empty());
    } else if cs[0] == root_comp() {
        lemma_comps_render_rooted(cs);
    } else {
        lemma_comps_render_relative(cs);
    }
}

proof fn lemma_joined_front(cs: Seq<Seq<char>>)
    requires
        cs.len() > 0,
        cs[0].len() > 0,
    ensures
        joined(cs).len() > 0,
        joined(cs)[0] == cs[0][0],
    decreases cs.len(),
{
    if cs.len() > 1 {
        lemma_joined_front(cs.drop_last());
    }
}

/// Two paths have the same shortest text exactly when they are the same path.
pub proof fn lemma_norm_same(a: Seq<char>, b: Seq<char>)
    ensures
        norm(a) == norm(b) <==> same(a, b),
        same(norm(a), a),
{
    lemma_comps_valid(a);
    lemma_comps_valid(b);
    lemma_comps_render(comps(a));
    lemma_comps_render(comps(b));
}

// ---- executable -------------------------------------------------------------

/// Joining a name to a path adds a component.
pub proof fn lemma_comps_join(base: Seq<char>, name: Seq<char>)
    requires
        base.len() > 0,
        plain(name),
    ensures
        comps(join_text(base, name)) == comps(base).push(name),
{
    let sep = |c: char| is_sep(c);
    let f = |p: Seq<char>| counts(p);
    let t = join_text(base, name);
    let x = if is_sep(base.last()) {
        base.drop_last()
    } else {
        base
    };
    let ps = text::pieces(x, sep);
    assert(!is_sep(name[0]));
    assert(t =~= x.push('/') + name);
    text::lemma_pieces_nonempty(x, sep);
    text::lemma_pieces_extend(x, '/', name, sep);
    assert(ps.push(name).drop_last() =~= ps);
    text::lemma_filter_last(ps.push(name), f);
    if is_sep(base.last()) {
        let e = Seq::<char>::empty();
        assert(base =~= x.push('/'));
        assert(text::pieces(base, sep) == ps.push(e));
        assert(ps.push(e).drop_last() =~= ps);
        text::lemma_filter_last(ps.push(e), f);
    }
    assert(t[0] == base[0]);
    assert(text::pieces(t, sep)[0] == ps[0]);
    assert(text::pieces(base, sep)[0] == ps[0]);
    assert(head(t) == head(base));
    assert(comps(t) =~= comps(base).push(name));
}


/// A separator at the end adds no component.
proof fn lemma_comps_slash(base: Seq<char>)
    requires
        base.len() > 0,
        !is_sep(base.last()),
    ensures
        comps(base.push('/')) == comps(base),
{
    let sep = |c: char| is_sep(c);
    let f = |p: Seq<char>| counts(p);
    let e = Seq::<char>::empty();
    let t = base.push('/');
    let ps = text::pieces(base, sep);
    text::lemma_pieces_nonempty(base, sep);
    assert(t.drop_last() =~= base);
    assert(text::pieces(t, sep) == ps.push(e));
    assert(ps.push(e).drop_last() =~= ps);
    text::lemma_filter_last(ps.push(e), f);
    assert(t[0] == base[0]);
    assert(text::pieces(t, sep)[0] == ps[0]);
    assert(head(t) == head(base));
}

/// Joining names to a path adds them as components.
pub proof fn lemma_comps_join_all(base: Seq<char>, cs: Seq<Seq<char>>)
    requires
        base.len() > 0,
        forall|k: int| 0 <= k < cs.len() ==> plain(#[trigger] cs[k]),
    ensures
        comps(join_text(base, joined(cs))) == comps(base) + cs,
        cs.len() > 0 ==> !is_sep(join_text(base, joined(cs)).last()),
        join_text(base, joined(cs)).len() > 0,
    decreases cs.len(),
{
    if cs.len() == 0 {
        let t = join_text(base, joined(cs));
        if is_sep(base.last()) {
            assert(t =~= base);
        } else {
            assert(t =~= base.push('/'));
            lemma_comps_slash(base);
        }
        assert(comps(base) + cs =~= comps(base));
    } else {
        let last = cs.last();
        assert(plain(cs[cs.len() - 1]));
        assert(!is_sep(last[last.len() - 1]));
        if cs.len() == 1 {
            lemma_comps_join(base, last);
            assert(comps(base).push(last) =~= comps(base) + cs);
            assert(join_text(base, joined(cs)).last() == last.last());
        } else {
            let front = cs.drop_last();
            assert forall|k: int| 0 <= k < front.len() implies plain(#[trigger] front[k]) by {
                assert(front[k] == cs[k]);
            }
            lemma_comps_join_all(base, front);
            let x = join_text(base, joined(front));
            assert(plain(front[0]));
            lemma_joined_front(front);
            lemma_joined_front(cs);
            assert(!is_sep(front[0][0]));
            assert(!is_sep(last[0]));
            assert(join_text(base, joined(cs)) =~= join_text(x, last));
            lemma_comps_join(x, last);
            assert((comps(base) + front).push(last) =~= comps(base) + cs);
            assert(join_text(x, last).last() == last.last());
        }
    }
}

/// The components of the path `t`.
pub fn components(t: &str) -> (r: Vec<String>)
    ensures
        text::strs(r@) == comps(t@),
{
    let ghost sep = |c: char| is_sep(c);
    let ghost f = |p: Seq<char>| counts(p);
    let cs = chars_of(t);
    let mut out: Vec<String> = Vec::new();
    let mut cur = String::new();
    let mut i: usize = 0;
    let rooted = cs.len() > 0 && cs[0] == '/';
    let mut first = true;
    if rooted {
        let mut r = String::new();
        r.push('/');
        assert(r@ =~= root_comp());
        out.push(r);
    }
    let ghost base = text::strs(out@);
    assert(rooted ==> base =~= seq![root_comp()]);
    assert(!rooted ==> base =~= Seq::<Seq<char>>::empty());
    assert(t@.take(0) =~= Seq::<char>::empty());
    proof {
        reveal_with_fuel(Seq::filter, 1);
    }
    assert(text::pieces(t@.take(0), sep).drop_last() =~= Seq::<Seq<char>>::empty());
    assert(text::strs(out@) =~= base + text::pieces(t@.take(0), sep).drop_last().filter(f));
    let n: usize = cs.len();
    let mut done = false;
    while !done
        invariant
            i <= n,
            n == cs@.len(),
            cs@ == t@,
            sep == (|c: char| is_sep(c)),
            f == (|p: Seq<char>| counts(p)),
            rooted == (t@.len() > 0 && t@[0] == '/'),
            base == (if rooted {
                seq![root_comp()]
            } else {
                Seq::<Seq<char>>::empty()
            }),
            !done ==> ({
                let ps = text::pieces(t@.take(i as int), sep);
                &&& ps.len() > 0
                &&& cur@ == ps.last()
                &&& first == (ps.len() == 1)
                &&& text::strs(out@) == (if !rooted && !first && ps[0] == dot() {
                    seq![dot()]
                } else {
                    base
                }) + ps.drop_last().filter(f)
            }),
            done ==> text::strs(out@) == comps(t@),
        decreases
            n - i + (if done {
                0int
            } else {
                1int
            }),
    {
        let ghost t0 = t@.take(i as int);
        let ghost p0 = text::pieces(t0, sep);
        if i == n || cs[i] == '/' {
            let is_dot = cur_is_dot(&cur);
            proof {
                text::lemma_filter_last(p0, f);
            }
            let ghost before = out@;
            let ghost c0 = cur@;
            if is_dot {
                if first && !rooted {
                    out.push(cur);
                    assert(text::strs(out@) =~= text::strs(before).push(c0));
                    assert(p0.drop_last() =~= Seq::<Seq<char>>::empty());
                    assert(text::strs(out@) =~= seq![dot()] + p0.filter(f));
                }
            } else if !cur.as_str().is_empty() {
                out.push(cur);
                assert(text::strs(out@) =~= text::strs(before).push(c0));
                assert(p0.filter(f) == p0.drop_last().filter(f).push(c0));
                assert(text::strs(out@) =~= (if !rooted && p0[0] == dot() {
                    seq![dot()]
                } else {
                    base
                }) + p0.filter(f));
            }
            assert(text::strs(out@) == (if !rooted && p0[0] == dot() {
                seq![dot()]
            } else {
                base
            }) + p0.filter(f));
            cur = String::new();
            first = false;
            if i < n {
                assert(t@.take(i + 1).drop_last() =~= t0);
                assert(text::pieces(t@.take(i + 1), sep) == p0.push(Seq::empty()));
                assert(text::pieces(t@.take(i + 1), sep).drop_last() =~= p0);
            } else {
                assert(t0 =~= t@);
            }
        } else {
            let c = cs[i];
            let ghost t1 = t@.take(i + 1);
            assert(t1.drop_last() =~= t0);
            assert(t1.last() == c);
            assert(text::pieces(t1, sep).drop_last() =~= p0.drop_last());
            if !first {
                assert(text::pieces(t1, sep)[0] == p0[0]);
            }
            cur.push(c);
        }
        if i < n {
            i += 1;
        } else {
            done = true;
        }
    }
    out
}

/// Whether `s` is `.`.
fn cur_is_dot(s: &String) -> (r: bool)
    ensures
        r == (s@ == dot()),
{
    proof {
        reveal_strlit(".");
    }
    assert("."@ =~= dot());
    str_eq(s.as_str(), ".")
}

/// Whether the path components `a` start with all of `b`.
pub(crate) fn comps_start_with(a: &Vec<String>, b: &Vec<String>) -> (r: bool)
    ensures
        r == text::strs(b@).is_prefix_of(text::strs(a@)),
{
    if b.len() > a.len() {
        return false;
    }
    let mut i: usize = 0;
    while i < b.len()
        invariant
            i <= b@.len() <= a@.len(),
            forall|j: int| 0 <= j < i ==> #[trigger] a@[j]@ == b@[j]@,
        decreases b@.len() - i,
    {
        if !str_eq(a[i].as_str(), b[i].as_str()) {
            assert(text::strs(a@)[i as int] != text::strs(b@)[i as int]);
            return false;
        }
        i += 1;
    }
    assert(text::strs(b@) =~= text::strs(a@).take(b@.len() as int));
    true
}

/// Whether `a` and `b` name the same path.
pub fn same_path(a: &str, b: &str) -> (r: bool)
    ensures
        r == same(a@, b@),
{
    let ca = components(a);
    let cb = components(b);
    if ca.len() != cb.len() {
        assert(text::strs(ca@).len() != text::strs(cb@).len());
        return false;
    }
    let r = comps_start_with(&ca, &cb);
    assert(r ==> text::strs(ca@) =~= text::strs(cb@));
    r
}

/// Whether `p` is `base` or lies below it.
pub fn path_starts_with(p: &str, base: &str) -> (r: bool)
    ensures
        r == within(p@, base@),
{
    comps_start_with(&components(p), &components(base))
}

/// The text of the components of `cs` from `from` on, separated by `/`.
fn join_names(cs: &Vec<String>, from: usize) -> (r: String)
    requires
        from <= cs@.len(),
    ensures
        r@ == joined(text::strs(cs@).skip(from as int)),
{
    let mut out = String::new();
    let mut i: usize = from;
    let ghost all = text::strs(cs@).skip(from as int);
    assert(all.take(0) =~= Seq::<Seq<char>>::empty());
    while i < cs.len()
        invariant
            from <= i <= cs@.len(),
            all == text::strs(cs@).skip(from as int),
            out@ == joined(all.take(i - from)),
        decreases cs@.len() - i,
    {
        let ghost upto = all.take(i - from + 1);
        assert(upto.drop_last() =~= all.take(i - from));
        assert(upto.last() == cs@[i as int]@);
        if i > from {
            out.push('/');
        } else {
            assert(all.take(0) =~= Seq::<Seq<char>>::empty());
            assert(out@ =~= Seq::<char>::empty());
        }
        out.append(cs[i].as_str());
        assert(out@ =~= joined(upto));
        i += 1;
    }
    assert(all.take(all.len() as int) =~= all);
    out
}

/// The shortest text of the path with the components `cs`.
pub fn rendered(cs: &Vec<String>) -> (r: String)
    ensures
        r@ == render(text::strs(cs@)),
{
    proof {
        reveal_strlit("/");
    }
    assert("/"@ =~= root_comp());
    if cs.len() > 0 {
        assert(text::strs(cs@)[0] == cs@[0]@);
        if str_eq(cs[0].as_str(), "/") {
            let mut out = String::new();
            out.push('/');
            let rest = join_names(cs, 1);
            out.append(rest.as_str());
            assert(out@ =~= root_comp() + rest@);
            return out;
        }
    }
    assert(text::strs(cs@).skip(0) =~= text::strs(cs@));
    join_names(cs, 0)
}

/// The shortest text of the path `t`.
pub fn normalized(t: &str) -> (r: String)
    ensures
        r@ == norm(t@),
{
    rendered(&components(t))
}

/// Whether the path starts at the file-system root.
pub open spec fn absolute(t: Seq<char>) -> bool {
    t.len() > 0 && is_sep(t[0])
}

/// Whether the path starts at the file-system root.
pub fn is_absolute(t: &str) -> (r: bool)
    ensures
        r == absolute(t@),
{
    let cs = chars_of(t);
    cs.len() > 0 && cs[0] == '/'
}

/// The path one level up: all components but the last. The root and the empty
/// path have none.
pub open spec fn parent_of(t: Seq<char>) -> Option<Seq<char>> {
    let cs = comps(t);
    if cs.len() == 0 || cs.last() == root_comp() {
        None
    } else {
        Some(render(cs.drop_last()))
    }
}

/// The path one level up, or `None` for the root and the empty path.
pub fn parent(t: &str) -> (r: Option<String>)
    ensures
        (r matches Some(p) ==> parent_of(t@) == Some(p@)),
        r is None <==> parent_of(t@) is None,
{
    let mut cs = components(t);
    proof {
        reveal_strlit("/");
    }
    assert("/"@ =~= root_comp());
    let n: usize = cs.len();
    if n == 0 {
        return None;
    }
    assert(text::strs(cs@).last() == cs@[n - 1]@);
    if str_eq(cs[n - 1].as_str(), "/") {
        return None;
    }
    let ghost all = text::strs(cs@);
    let _ = cs.pop();
    assert(text::strs(cs@) =~= all.drop_last());
    Some(rendered(&cs))
}

/// The last component, where it is a name (not the root, `.` or `..`).
pub open spec fn name_of(t: Seq<char>) -> Option<Seq<char>> {
    let cs = comps(t);
    if cs.len() == 0 || cs.last() == root_comp() || cs.last() == dot() || cs.last() == dot_dot() {
        None
    } else {
        Some(cs.last())
    }
}

/// The last component of the path, where it is a name.
pub fn file_name(t: &str) -> (r: Option<String>)
    ensures
        (r matches Some(p) ==> name_of(t@) == Some(p@)),
        r is None <==> name_of(t@) is None,
{
    let cs = components(t);
    proof {
        reveal_strlit("/");
        reveal_strlit(".");
        reveal_strlit("..");
    }
    assert("/"@ =~= root_comp());
    assert("."@ =~= dot());
    assert(".."@ =~= dot_dot());
    let n: usize = cs.len();
    if n == 0 {
        return None;
    }
    assert(text::strs(cs@).last() == cs@[n - 1]@);
    let last = cs[n - 1].as_str();
    if str_eq(last, "/") || str_eq(last, ".") || str_eq(last, "..") {
        return None;
    }
    Some(last.to_owned())
}

/// What is left of `p` below `base`, or `None` where `p` does not lie there.
pub fn strip_prefix(p: &str, base: &str) -> (r: Option<String>)
    ensures
        r is Some <==> within(p@, base@),
        (r matches Some(t) ==> t@ == joined(comps(p@).skip(comps(base@).len() as int))),
{
    let cp = components(p);
    let cb = components(base);
    if comps_start_with(&cp, &cb) {
        Some(join_names(&cp, cb.len()))
    } else {
        None
    }
}

/// `base` followed by `name`.
pub fn join(base: &str, name: &str) -> (r: String)
    ensures
        r@ == join_text(base@, name@),
{
    if is_absolute(name) {
        return name.to_owned();
    }
    let cs = chars_of(base);
    let n: usize = cs.len();
    let mut out = base.to_owned();
    if n > 0 && cs[n - 1] != '/' {
        out.push('/');
    }
    out.append(name);
    out
}

// ---- sets of paths --------------------------------------------------------------

/// A set of paths. Two texts of one path are the same member.
pub struct PathSet {
    set: StringHashSet,
}

impl View for PathSet {
    type V = Set<Seq<char>>;

    /// The shortest texts of the members.
    closed spec fn view(&self) -> Set<Seq<char>> {
        self.set@
    }
}

impl PathSet {
    /// A set with nothing in it.
    pub fn new() -> (r: PathSet)
        ensures
            r@ == Set::<Seq<char>>::empty(),
    {
        PathSet { set: StringHashSet::new() }
    }

    /// Add the path `p`, and say whether it was new.
    pub fn insert(&mut self, p: &str) -> (r: bool)
        ensures
            final(self)@ == old(self)@.insert(norm(p@)),
            r == !old(self)@.contains(norm(p@)),
    {
        self.set.insert(normalized(p))
    }

    /// Whether the path `p` is a member.
    pub fn contains(&self, p: &str) -> (r: bool)
        ensures
            r == self@.contains(norm(p@)),
    {
        self.set.contains(normalized(p).as_str())
    }

    /// The number of members.
    pub fn len(&self) -> (r: usize)
        ensures
            r == self@.len(),
    {
        self.set.len()
    }
}

} // verus!
