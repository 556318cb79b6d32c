//! What paths promise, in terms of their texts.

use vstd::prelude::*;

use crate::path;
use crate::text;

verus! {

/// Whether `name` is a name as a directory holds it, or `..`.
pub open spec fn entry_name(name: Seq<char>) -> bool {
    &&& name.len() > 0
    &&& forall|i: int| 0 <= i < name.len() ==> #[trigger] name[i] != '/'
    &&& name != "."@
}

proof fn lemma_entry_name(name: Seq<char>)
    ensures
        entry_name(name) <==> path::plain(name),
{
    reveal_strlit(".");
    assert("."@ =~= path::dot());
    if path::plain(name) {
        assert forall|i: int| 0 <= i < name.len() implies #[trigger] name[i] != '/' by {
            assert(!path::is_sep(name[i]));
        }
    }
    if entry_name(name) {
        assert forall|i: int| 0 <= i < name.len() implies !path::is_sep(#[trigger] name[i]) by {
        }
    }
}

/// A path is its names from the top down: the empty path has none, the root is its own,
/// and what is joined to a path adds one, with one separator between the two where there
/// is none.
pub proof fn law_joining_adds_a_name(base: Seq<char>, name: Seq<char>)
    requires
        base.len() > 0,
        entry_name(name),
    ensures
        path::comps(Seq::<char>::empty()) == Seq::<Seq<char>>::empty(),
        path::comps("/"@) == seq!["/"@],
        path::comps(name) == seq![name],
        path::comps(path::join_text(base, name)) == path::comps(base).push(name),
        path::join_text(base, name) == (if base.last() == '/' {
            base + name
        } else {
            base + "/"@ + name
        }),
        path::absolute(path::join_text(base, name)) <==> path::absolute(base),
{
    reveal_strlit("/");
    assert("/"@ =~= path::root_comp());
    lemma_entry_name(name);
    path::lemma_comps_empty();
    path::lemma_comps_join(base, name);
    path::lemma_comps_render(seq![path::root_comp()]);
    assert(path::render(seq![path::root_comp()]) =~= path::root_comp()) by {
        assert(seq![path::root_comp()].skip(1) =~= Seq::<Seq<char>>::empty());
    }
    let one = seq![name];
    assert(path::valid_comps(one));
    path::lemma_comps_render(one);
    assert(name != path::root_comp()) by {
        assert(name[0] != '/');
    }
    assert(path::render(one) =~= name);
    assert(path::join_text(base, name) =~= (if base.last() == '/' {
        base + name
    } else {
        base + "/"@ + name
    }));
    assert(path::join_text(base, name)[0] == base[0]);
}

/// What is joined to a path from the root down is taken as it is.
pub proof fn law_joining_a_rooted_path_replaces(base: Seq<char>, p: Seq<char>)
    requires
        p.len() > 0,
        p[0] == '/',
    ensures
        path::join_text(base, p) == p,
        path::absolute(p),
{
}

/// A separator more at the end of a path changes nothing.
pub proof fn law_trailing_separators_do_not_count(p: Seq<char>)
    requires
        p.len() > 0,
    ensures
        path::comps(p.push('/')) == path::comps(p),
        path::norm(p.push('/')) == path::norm(p),
{
    let sep = |c: char| path::is_sep(c);
    let f = |q: Seq<char>| path::counts(q);
    let e = Seq::<char>::empty();
    let t = p.push('/');
    let ps = text::pieces(p, sep);
    text::lemma_pieces_nonempty(p, sep);
    assert(t.drop_last() =~= p);
    assert(text::pieces(t, sep) == ps.push(e));
    assert(ps.push(e).drop_last() =~= ps);
    text::lemma_filter_last(ps.push(e), f);
    assert(t[0] == p[0]);
    assert(text::pieces(t, sep)[0] == ps[0]);
    assert(path::head(t) == path::head(p));
}

/// What lies in a directory has that directory as its parent and its own name as its
/// name; the root and the empty path have neither.
pub proof fn law_parent_and_name(base: Seq<char>, name: Seq<char>)
    requires
        base.len() > 0,
        entry_name(name),
    ensures
        path::parent_of(path::join_text(base, name)) matches Some(p) && path::same(p, base),
        path::name_of(path::join_text(base, name)) == (if name == ".."@ {
            None
        } else {
            Some(name)
        }),
        path::parent_of("/"@) is None,
        path::name_of("/"@) is None,
        path::parent_of(Seq::<char>::empty()) is None,
        path::name_of(Seq::<char>::empty()) is None,
{
    reveal_strlit("/");
    reveal_strlit("..");
    assert("/"@ =~= path::root_comp());
    assert(".."@ =~= path::dot_dot());
    law_joining_adds_a_name(base, name);
    lemma_entry_name(name);
    let t = path::join_text(base, name);
    let cs = path::comps(t);
    assert(cs.last() == name);
    assert(cs.drop_last() =~= path::comps(base));
    assert(name != path::root_comp()) by {
        assert(name[0] != '/');
    }
    path::lemma_comps_valid(base);
    path::lemma_comps_render(path::comps(base));
}

/// A parent has one name less, and what has a parent lies strictly below it.
pub proof fn law_parents_lie_above(p: Seq<char>)
    ensures
        path::parent_of(p) matches Some(up) ==> {
            &&& path::within(p, up)
            &&& !path::same(p, up)
            &&& path::comps(up).len() + 1 == path::comps(p).len()
        },
        path::parent_of(p) is None <==> path::comps(p).len() == 0 || path::same(p, "/"@),
{
    reveal_strlit("/");
    assert("/"@ =~= path::root_comp());
    let cs = path::comps(p);
    path::lemma_comps_valid(p);
    path::lemma_comps_render(seq![path::root_comp()]);
    assert(path::render(seq![path::root_comp()]) =~= path::root_comp()) by {
        assert(seq![path::root_comp()].skip(1) =~= Seq::<Seq<char>>::empty());
    }
    if cs.len() > 0 {
        let front = cs.drop_last();
        assert(path::valid_comps(front));
        path::lemma_comps_render(front);
        assert(cs.take(front.len() as int) =~= front);
        if cs.last() == path::root_comp() {
            if cs.len() > 1 {
                assert(path::plain(cs[cs.len() - 1]));
                assert(path::root_comp()[0] == '/');
                assert(!path::is_sep(cs.last()[0]));
            }
            assert(cs =~= seq![path::root_comp()]);
        }
    }
}

/// A path lies in itself, in what lies in between, and in what the names above it lead
/// to: names count as a whole, so of two entries of a directory neither lies in the other.
pub proof fn law_within_goes_by_whole_names(
    a: Seq<char>,
    b: Seq<char>,
    c: Seq<char>,
    base: Seq<char>,
    x: Seq<char>,
    y: Seq<char>,
)
    requires
        base.len() > 0,
        entry_name(x),
        entry_name(y),
    ensures
        path::within(a, a),
        path::within(a, b) && path::within(b, c) ==> path::within(a, c),
        path::within(a, b) && path::within(b, a) <==> path::same(a, b),
        path::within(path::join_text(base, x), base),
        !path::within(base, path::join_text(base, x)),
        path::within(path::join_text(base, x), path::join_text(base, y)) <==> x == y,
        path::within(path::join_text(a, x), b) && a.len() > 0 ==> path::within(a, b) || path::same(
            path::join_text(a, x),
            b,
        ),
{
    let (ca, cb, cc) = (path::comps(a), path::comps(b), path::comps(c));
    assert(ca.take(ca.len() as int) =~= ca);
    assert(cb.take(cb.len() as int) =~= cb);
    if path::within(a, b) && path::within(b, c) {
        assert(ca.take(cc.len() as int) =~= cb.take(cc.len() as int));
    }
    if path::within(a, b) && path::within(b, a) {
        assert(ca =~= cb);
    }
    law_joining_adds_a_name(base, x);
    law_joining_adds_a_name(base, y);
    let cs = path::comps(base);
    assert(cs.push(x).take(cs.len() as int) =~= cs);
    if path::within(path::join_text(base, x), path::join_text(base, y)) {
        assert(cs.push(x).last() == cs.push(y).last()) by {
            assert(cs.push(x).take(cs.push(y).len() as int) =~= cs.push(x));
        }
    }
    if x == y {
        assert(cs.push(x).take(cs.push(y).len() as int) =~= cs.push(x));
    }
    if a.len() > 0 {
        law_joining_adds_a_name(a, x);
        if path::within(path::join_text(a, x), b) {
            if cb.len() <= ca.len() {
                assert(ca.push(x).take(cb.len() as int) =~= ca.take(cb.len() as int));
            } else {
                assert(ca.push(x).take(cb.len() as int) =~= ca.push(x));
            }
        }
    }
}

/// What is left of a path below another one leads from there back to it.
pub proof fn law_stripping_is_undone_by_joining(p: Seq<char>, base: Seq<char>)
    requires
        base.len() > 0,
        path::comps(base).len() > 0,
        path::within(p, base),
    ensures
        path::same(
            path::join_text(base, path::joined(path::comps(p).skip(path::comps(base).len() as int))),
            p,
        ),
{
    let n = path::comps(base).len() as int;
    let rest = path::comps(p).skip(n);
    path::lemma_comps_valid(p);
    assert forall|k: int| 0 <= k < rest.len() implies path::plain(#[trigger] rest[k]) by {
        assert(rest[k] == path::comps(p)[k + n]);
    }
    path::lemma_comps_join_all(base, rest);
    assert(path::comps(base) + rest =~= path::comps(p)) by {
        assert(path::comps(p).take(n) =~= path::comps(base));
    }
}

/// The shortest text of a path names the same path, and of two paths it is the same text
/// just where they are the same path.
pub proof fn law_shortest_text_tells_paths_apart(a: Seq<char>, b: Seq<char>)
    ensures
        path::same(path::norm(a), a),
        path::norm(path::norm(a)) == path::norm(a),
        path::norm(a) == path::norm(b) <==> path::same(a, b),
{
    path::lemma_norm_same(a, b);
    path::lemma_norm_same(path::norm(a), a);
}

} // verus!
