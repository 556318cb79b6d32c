//! Trees in an arena: each node knows its parent and its children.

use vstd::prelude::*;

use crate::text;

verus! {

/// The links of an arena: the children and the parent of each node.
#[verifier::ext_equal]
pub struct Forest {
    pub kids: Seq<Seq<usize>>,
    pub par: Seq<Option<usize>>,
}

/// Whether `r` numbers the nodes so that each has a larger number than its
/// parent, none above `top`.
pub open spec fn ranked(f: Forest, r: Seq<nat>, top: nat) -> bool {
    &&& r.len() == f.par.len()
    &&& forall|x: int| 0 <= x < r.len() ==> #[trigger] r[x] <= top
    &&& forall|x: int|
        0 <= x < r.len() ==> (#[trigger] f.par[x] matches Some(p) ==> p < r.len() && r[p as int]
            < r[x])
}

impl Forest {
    pub open spec fn len(self) -> nat {
        self.par.len()
    }

    /// No node is above itself.
    pub open spec fn acyclic(self) -> bool {
        exists|r: Seq<nat>, top: nat| ranked(self, r, top)
    }

    /// The two kinds of link agree, no child is listed twice, and no node is
    /// above itself.
    pub open spec fn wf(self) -> bool {
        &&& self.kids.len() == self.par.len()
        &&& forall|i: int, k: int|
            0 <= i < self.len() && 0 <= k < self.kids[i].len() ==> {
                let c = #[trigger] self.kids[i][k];
                c < self.len() && self.par[c as int] == Some(i as usize)
            }
        &&& forall|i: int| 0 <= i < self.len() ==> (#[trigger] self.kids[i]).no_duplicates()
        &&& forall|x: int|
            0 <= x < self.len() ==> (#[trigger] self.par[x] matches Some(p) ==> p < self.len()
                && self.kids[p as int].contains(x as usize))
        &&& self.acyclic()
        &&& self.len() <= usize::MAX
    }
}

/// Some numbering with [`ranked`].
pub open spec fn ranking(f: Forest) -> (Seq<nat>, nat) {
    choose|r: Seq<nat>, top: nat| ranked(f, r, top)
}

pub open spec fn rank(f: Forest, x: int) -> nat {
    ranking(f).0[x]
}

pub open spec fn height(f: Forest, x: int) -> nat {
    (ranking(f).1 - ranking(f).0[x]) as nat
}

pub proof fn lemma_rank(f: Forest)
    requires
        f.acyclic(),
    ensures
        ranked(f, ranking(f).0, ranking(f).1),
{
    let (r, top) = choose|r: Seq<nat>, top: nat| ranked(f, r, top);
    assert(ranked(f, r, top));
}

/// A child is below its parent.
pub proof fn lemma_kid(f: Forest, i: int, k: int)
    requires
        f.wf(),
        0 <= i < f.len(),
        0 <= k < f.kids[i].len(),
    ensures
        f.kids[i][k] < f.len(),
        f.par[f.kids[i][k] as int] == Some(i as usize),
        rank(f, i) < rank(f, f.kids[i][k] as int),
        height(f, f.kids[i][k] as int) < height(f, i),
{
    lemma_rank(f);
    let c = f.kids[i][k] as int;
    assert(f.par[c] == Some(i as usize));
    assert(ranking(f).0[c] <= ranking(f).1);
}

/// The node `x` and what is below it: the node itself, then the trees of its
/// children, the last one first.
pub open spec fn walk(f: Forest, x: int) -> Seq<usize>
    decreases height(f, x), f.kids[x].len() + 1,
    when f.wf() && 0 <= x < f.len()
    via walk_decreases
{
    seq![x as usize] + kids_walk(f, x, f.kids[x].len())
}

/// The trees of the first `k` children of `x`, the last one first.
pub open spec fn kids_walk(f: Forest, x: int, k: nat) -> Seq<usize>
    decreases height(f, x), k,
    when f.wf() && 0 <= x < f.len() && k <= f.kids[x].len()
    via kids_walk_decreases
{
    if k == 0 {
        Seq::empty()
    } else {
        walk(f, f.kids[x][k - 1] as int) + kids_walk(f, x, (k - 1) as nat)
    }
}

#[via_fn]
proof fn walk_decreases(f: Forest, x: int) {
}

#[via_fn]
proof fn kids_walk_decreases(f: Forest, x: int, k: nat) {
    if k > 0 {
        lemma_kid(f, x, k - 1);
    }
}

/// The trees of the nodes of `st`, the last one first.
pub open spec fn stack_walk(f: Forest, st: Seq<usize>) -> Seq<usize>
    decreases st.len(),
{
    if st.len() == 0 {
        Seq::empty()
    } else {
        walk(f, st.last() as int) + stack_walk(f, st.drop_last())
    }
}

/// The sum of the weights `w` of `x` and of all that is below it.
pub open spec fn total(f: Forest, w: Seq<nat>, x: int) -> nat
    decreases height(f, x), f.kids[x].len() + 1,
    when f.wf() && 0 <= x < f.len()
    via total_decreases
{
    w[x] + kids_total(f, w, x, f.kids[x].len())
}

/// The totals of the first `k` children of `x`, added up.
pub open spec fn kids_total(f: Forest, w: Seq<nat>, x: int, k: nat) -> nat
    decreases height(f, x), k,
    when f.wf() && 0 <= x < f.len() && k <= f.kids[x].len()
    via kids_total_decreases
{
    if k == 0 {
        0
    } else {
        kids_total(f, w, x, (k - 1) as nat) + total(f, w, f.kids[x][k - 1] as int)
    }
}

#[via_fn]
proof fn total_decreases(f: Forest, w: Seq<nat>, x: int) {
}

#[via_fn]
proof fn kids_total_decreases(f: Forest, w: Seq<nat>, x: int, k: nat) {
    if k > 0 {
        lemma_kid(f, x, k - 1);
    }
}

/// The nodes from the top down to `x`.
pub open spec fn lineage(f: Forest, x: int) -> Seq<usize>
    decreases rank(f, x),
    when f.acyclic() && 0 <= x < f.len()
    via lineage_decreases
{
    match f.par[x] {
        Some(p) => lineage(f, p as int).push(x as usize),
        None => seq![x as usize],
    }
}

#[via_fn]
proof fn lineage_decreases(f: Forest, x: int) {
    lemma_rank(f);
}

/// Pushing the children of a node on a stack adds their trees in front.
pub proof fn lemma_stack_push(f: Forest, st: Seq<usize>, x: int, k: nat)
    requires
        f.wf(),
        0 <= x < f.len(),
        k <= f.kids[x].len(),
    ensures
        stack_walk(f, st + f.kids[x].take(k as int)) == kids_walk(f, x, k) + stack_walk(f, st),
    decreases k,
{
    let s = st + f.kids[x].take(k as int);
    if k == 0 {
        assert(s =~= st);
        assert(kids_walk(f, x, k) + stack_walk(f, st) =~= stack_walk(f, st));
    } else {
        lemma_stack_push(f, st, x, (k - 1) as nat);
        assert(s.drop_last() =~= st + f.kids[x].take(k - 1));
        assert(s.last() == f.kids[x][k - 1]);
        let w = walk(f, f.kids[x][k - 1] as int);
        assert(w + (kids_walk(f, x, (k - 1) as nat) + stack_walk(f, st)) =~= (w + kids_walk(
            f,
            x,
            (k - 1) as nat,
        )) + stack_walk(f, st));
    }
}

/// What a walk from `x` meets is in range and not above `x`; all but `x` itself
/// hang below a node that it meets too.
pub proof fn lemma_walk_member(f: Forest, x: int, j: int)
    requires
        f.wf(),
        0 <= x < f.len(),
        0 <= j < walk(f, x).len(),
    ensures
        walk(f, x)[j] < f.len(),
        rank(f, x) <= rank(f, walk(f, x)[j] as int),
        j > 0 ==> rank(f, x) < rank(f, walk(f, x)[j] as int) && (f.par[walk(f, x)[j] as int] matches Some(
            p,
        ) && walk(f, x).contains(p)),
    decreases height(f, x), f.kids[x].len() + 1,
{
    let n = f.kids[x].len();
    if j > 0 {
        lemma_kids_walk_member(f, x, n, j - 1);
        assert(walk(f, x)[j] == kids_walk(f, x, n)[j - 1]);
        let p = f.par[walk(f, x)[j] as int]->0;
        if p == x as usize {
            assert(walk(f, x)[0] == p);
        } else {
            let k = choose|k: int| 0 <= k < kids_walk(f, x, n).len() && kids_walk(f, x, n)[k] == p;
            assert(walk(f, x)[k + 1] == p);
        }
    }
}

proof fn lemma_kids_walk_member(f: Forest, x: int, k: nat, j: int)
    requires
        f.wf(),
        0 <= x < f.len(),
        k <= f.kids[x].len(),
        0 <= j < kids_walk(f, x, k).len(),
    ensures
        kids_walk(f, x, k)[j] < f.len(),
        rank(f, x) < rank(f, kids_walk(f, x, k)[j] as int),
        f.par[kids_walk(f, x, k)[j] as int] matches Some(p) && (p == x as usize || kids_walk(
            f,
            x,
            k,
        ).contains(p)),
    decreases height(f, x), k,
{
    lemma_kid(f, x, k - 1);
    let c = f.kids[x][k - 1] as int;
    let w = walk(f, c);
    let rest = kids_walk(f, x, (k - 1) as nat);
    let all = kids_walk(f, x, k);
    if j < w.len() {
        lemma_walk_member(f, c, j);
        if j > 0 {
            let p = f.par[w[j] as int]->0;
            let m = choose|m: int| 0 <= m < w.len() && w[m] == p;
            assert(all[m] == p);
        }
    } else {
        lemma_kids_walk_member(f, x, (k - 1) as nat, j - w.len());
        let p = f.par[rest[j - w.len()] as int]->0;
        if p != x as usize {
            let m = choose|m: int| 0 <= m < rest.len() && rest[m] == p;
            assert(all[m + w.len()] == p);
        }
    }
}

/// The trees of two children of one node have nothing in common.
proof fn lemma_siblings_apart(f: Forest, i: int, a: int, b: int, x: usize)
    requires
        f.wf(),
        0 <= i < f.len(),
        0 <= a < f.len(),
        0 <= b < f.len(),
        a != b,
        f.par[a] == Some(i as usize),
        f.par[b] == Some(i as usize),
        x < f.len(),
    ensures
        !(walk(f, a).contains(x) && walk(f, b).contains(x)),
    decreases rank(f, x as int),
{
    lemma_rank(f);
    if walk(f, a).contains(x) && walk(f, b).contains(x) {
        let ja = choose|j: int| 0 <= j < walk(f, a).len() && walk(f, a)[j] == x;
        let jb = choose|j: int| 0 <= j < walk(f, b).len() && walk(f, b)[j] == x;
        lemma_walk_member(f, a, ja);
        lemma_walk_member(f, b, jb);
        if ja == 0 && jb == 0 {
            assert(walk(f, a)[0] == a as usize && walk(f, b)[0] == b as usize);
        } else if ja == 0 {
            let p = f.par[x as int]->0;
            assert(x == a as usize);
            let jp = choose|j: int| 0 <= j < walk(f, b).len() && walk(f, b)[j] == p;
            lemma_walk_member(f, b, jp);
        } else if jb == 0 {
            let p = f.par[x as int]->0;
            assert(x == b as usize);
            let jp = choose|j: int| 0 <= j < walk(f, a).len() && walk(f, a)[j] == p;
            lemma_walk_member(f, a, jp);
        } else {
            let p = f.par[x as int]->0;
            lemma_siblings_apart(f, i, a, b, p);
        }
    }
}

/// A walk meets each node once.
pub proof fn lemma_walk_distinct(f: Forest, x: int)
    requires
        f.wf(),
        0 <= x < f.len(),
    ensures
        walk(f, x).no_duplicates(),
    decreases height(f, x), f.kids[x].len() + 1,
{
    let n = f.kids[x].len();
    let w = walk(f, x);
    lemma_kids_walk_distinct(f, x, n);
    assert forall|a: int, b: int| 0 <= a < w.len() && 0 <= b < w.len() && a != b implies w[a]
        != w[b] by {
        if a > 0 {
            lemma_walk_member(f, x, a);
        }
        if b > 0 {
            lemma_walk_member(f, x, b);
        }
        if a > 0 && b > 0 {
            assert(kids_walk(f, x, n)[a - 1] != kids_walk(f, x, n)[b - 1]);
        }
    }
}

proof fn lemma_kids_walk_of(f: Forest, x: int, k: nat, j: int) -> (l: int)
    requires
        f.wf(),
        0 <= x < f.len(),
        k <= f.kids[x].len(),
        0 <= j < kids_walk(f, x, k).len(),
    ensures
        0 <= l < k,
        walk(f, f.kids[x][l] as int).contains(kids_walk(f, x, k)[j]),
    decreases k,
{
    let w = walk(f, f.kids[x][k - 1] as int);
    if j < w.len() {
        assert(w[j] == kids_walk(f, x, k)[j]);
        k - 1
    } else {
        lemma_kids_walk_of(f, x, (k - 1) as nat, j - w.len())
    }
}

proof fn lemma_kids_walk_distinct(f: Forest, x: int, k: nat)
    requires
        f.wf(),
        0 <= x < f.len(),
        k <= f.kids[x].len(),
    ensures
        kids_walk(f, x, k).no_duplicates(),
    decreases height(f, x), k,
{
    if k > 0 {
        lemma_kid(f, x, k - 1);
        let c = f.kids[x][k - 1] as int;
        let w = walk(f, c);
        let rest = kids_walk(f, x, (k - 1) as nat);
        let all = kids_walk(f, x, k);
        lemma_walk_distinct(f, c);
        lemma_kids_walk_distinct(f, x, (k - 1) as nat);
        assert forall|a: int, b: int| 0 <= a < all.len() && 0 <= b < all.len() && a != b implies all[a]
            != all[b] by {
            if a < w.len() && b < w.len() {
            } else if a >= w.len() && b >= w.len() {
                assert(rest[a - w.len()] != rest[b - w.len()]);
            } else {
                let lo = if a < b {
                    a
                } else {
                    b
                };
                let hi = if a < b {
                    b
                } else {
                    a
                };
                if all[a] == all[b] {
                    let l = lemma_kids_walk_of(f, x, (k - 1) as nat, hi - w.len());
                    lemma_kid(f, x, l);
                    lemma_walk_member(f, c, lo);
                    assert(w[lo] == all[lo]);
                    assert(f.kids[x][l] != f.kids[x][k - 1]);
                    lemma_siblings_apart(f, x, c, f.kids[x][l] as int, all[lo]);
                }
            }
        }
    }
}

/// A walk meets the children of a node after the node itself.
pub proof fn lemma_walk_kid_after(f: Forest, x: int, j: int, k: int) -> (m: int)
    requires
        f.wf(),
        0 <= x < f.len(),
        0 <= j < walk(f, x).len(),
        0 <= k < f.kids[walk(f, x)[j] as int].len(),
    ensures
        j < m < walk(f, x).len(),
        walk(f, x)[m] == f.kids[walk(f, x)[j] as int][k],
    decreases height(f, x), f.kids[x].len() + 1,
{
    let n = f.kids[x].len();
    if j == 0 {
        let m = lemma_kids_walk_has(f, x, n, k);
        m + 1
    } else {
        let m = lemma_kids_walk_kid_after(f, x, n, j - 1, k);
        m + 1
    }
}

proof fn lemma_kids_walk_has(f: Forest, x: int, n: nat, k: int) -> (m: int)
    requires
        f.wf(),
        0 <= x < f.len(),
        n <= f.kids[x].len(),
        0 <= k < n,
    ensures
        0 <= m < kids_walk(f, x, n).len(),
        kids_walk(f, x, n)[m] == f.kids[x][k],
    decreases n,
{
    lemma_kid(f, x, n - 1);
    let w = walk(f, f.kids[x][n - 1] as int);
    if k == n - 1 {
        assert(w[0] == f.kids[x][k]);
        0
    } else {
        let m = lemma_kids_walk_has(f, x, (n - 1) as nat, k);
        m + w.len()
    }
}

proof fn lemma_kids_walk_kid_after(f: Forest, x: int, n: nat, j: int, k: int) -> (m: int)
    requires
        f.wf(),
        0 <= x < f.len(),
        n <= f.kids[x].len(),
        0 <= j < kids_walk(f, x, n).len(),
        0 <= k < f.kids[kids_walk(f, x, n)[j] as int].len(),
    ensures
        j < m < kids_walk(f, x, n).len(),
        kids_walk(f, x, n)[m] == f.kids[kids_walk(f, x, n)[j] as int][k],
    decreases height(f, x), n,
{
    lemma_kid(f, x, n - 1);
    let c = f.kids[x][n - 1] as int;
    let w = walk(f, c);
    if j < w.len() {
        lemma_walk_kid_after(f, c, j, k)
    } else {
        let m = lemma_kids_walk_kid_after(f, x, (n - 1) as nat, j - w.len(), k);
        m + w.len()
    }
}

/// The total of a child is no more than the total of its parent.
pub proof fn lemma_kids_total_bound(f: Forest, w: Seq<nat>, x: int, k: nat, l: nat)
    requires
        f.wf(),
        0 <= x < f.len(),
        l <= k <= f.kids[x].len(),
    ensures
        kids_total(f, w, x, l) <= kids_total(f, w, x, k),
        l < k ==> kids_total(f, w, x, l) + total(f, w, f.kids[x][l as int] as int) <= kids_total(
            f,
            w,
            x,
            k,
        ),
    decreases k,
{
    if l < k {
        lemma_kids_total_bound(f, w, x, (k - 1) as nat, l);
    }
}

/// What a walk from `x` meets has a total no larger than that of `x`.
pub proof fn lemma_walk_total_bound(f: Forest, w: Seq<nat>, x: int, j: int)
    requires
        f.wf(),
        0 <= x < f.len(),
        0 <= j < walk(f, x).len(),
    ensures
        total(f, w, walk(f, x)[j] as int) <= total(f, w, x),
    decreases height(f, x), f.kids[x].len() + 1,
{
    if j > 0 {
        lemma_kids_walk_total_bound(f, w, x, f.kids[x].len(), j - 1);
    }
}

proof fn lemma_kids_walk_total_bound(f: Forest, w: Seq<nat>, x: int, k: nat, j: int)
    requires
        f.wf(),
        0 <= x < f.len(),
        k <= f.kids[x].len(),
        0 <= j < kids_walk(f, x, k).len(),
    ensures
        total(f, w, kids_walk(f, x, k)[j] as int) <= kids_total(f, w, x, k),
    decreases height(f, x), k,
{
    lemma_kid(f, x, k - 1);
    let c = f.kids[x][k - 1] as int;
    if j < walk(f, c).len() {
        lemma_walk_total_bound(f, w, c, j);
    } else {
        lemma_kids_walk_total_bound(f, w, x, (k - 1) as nat, j - walk(f, c).len());
    }
}

/// The lineage of a node ends in the node, and each of its members is the parent
/// of the next.
pub proof fn lemma_lineage(f: Forest, x: int)
    requires
        f.acyclic(),
        f.len() <= usize::MAX,
        0 <= x < f.len(),
    ensures
        lineage(f, x).len() > 0,
        lineage(f, x).last() == x as usize,
        forall|j: int| 0 <= j < lineage(f, x).len() ==> #[trigger] lineage(f, x)[j] < f.len(),
        forall|j: int|
            0 <= j < lineage(f, x).len() - 1 ==> rank(f, #[trigger] lineage(f, x)[j] as int) < rank(
                f,
                x,
            ),
        lineage(f, x).no_duplicates(),
    decreases rank(f, x),
{
    lemma_rank(f);
    if let Some(p) = f.par[x] {
        lemma_lineage(f, p as int);
        let up = lineage(f, p as int);
        let l = lineage(f, x);
        assert forall|j: int| 0 <= j < l.len() - 1 implies rank(f, #[trigger] l[j] as int) < rank(
            f,
            x,
        ) by {
            assert(l[j] == up[j]);
            if j == up.len() - 1 {
                assert(up.last() == p);
            }
        }
        assert(l.no_duplicates()) by {
            assert forall|a: int, b: int| 0 <= a < l.len() && 0 <= b < l.len() && a != b implies l[a]
                != l[b] by {
                if a < l.len() - 1 && b < l.len() - 1 {
                    assert(up[a] != up[b]);
                } else if a < l.len() - 1 {
                    assert(rank(f, l[a] as int) < rank(f, x));
                } else {
                    assert(rank(f, l[b] as int) < rank(f, x));
                }
            }
        }
    }
}

/// Where only `x` has no parent, everything is below it.
pub proof fn lemma_all_below(f: Forest, x: int, i: int)
    requires
        f.wf(),
        0 <= x < f.len(),
        0 <= i < f.len(),
        forall|j: int| 0 <= j < f.len() && j != x ==> (#[trigger] f.par[j]) is Some,
    ensures
        walk(f, x).contains(i as usize),
    decreases rank(f, i),
{
    let w = walk(f, x);
    if i == x {
        assert(w[0] == x as usize);
    } else {
        lemma_rank(f);
        let p = f.par[i]->0;
        lemma_all_below(f, x, p as int);
        let j = choose|j: int| 0 <= j < w.len() && w[j] == p;
        assert(f.kids[p as int].contains(i as usize));
        let k = choose|k: int| 0 <= k < f.kids[p as int].len() && f.kids[p as int][k] == i as usize;
        let m = lemma_walk_kid_after(f, x, j, k);
        assert(w[m] == i as usize);
    }
}

/// The weights of the nodes that `s` lists, added up.
pub open spec fn weight_of(w: Seq<nat>, s: Seq<usize>) -> nat
    decreases s.len(),
{
    if s.len() == 0 {
        0
    } else {
        weight_of(w, s.drop_last()) + w[s.last() as int]
    }
}

pub proof fn lemma_weight_add(w: Seq<nat>, a: Seq<usize>, b: Seq<usize>)
    ensures
        weight_of(w, a + b) == weight_of(w, a) + weight_of(w, b),
    decreases b.len(),
{
    if b.len() == 0 {
        assert(a + b =~= a);
    } else {
        lemma_weight_add(w, a, b.drop_last());
        assert((a + b).drop_last() =~= a + b.drop_last());
        assert((a + b).last() == b.last());
    }
}

/// The total of a node is the sum of the weights of what a walk from it meets.
pub proof fn lemma_total_is_weight(f: Forest, w: Seq<nat>, x: int)
    requires
        f.wf(),
        0 <= x < f.len(),
    ensures
        total(f, w, x) == weight_of(w, walk(f, x)),
    decreases height(f, x), f.kids[x].len() + 1,
{
    let n = f.kids[x].len();
    lemma_kids_total_is_weight(f, w, x, n);
    lemma_weight_add(w, seq![x as usize], kids_walk(f, x, n));
    assert(seq![x as usize].drop_last() =~= Seq::<usize>::empty());
    assert(weight_of(w, seq![x as usize]) == weight_of(w, seq![x as usize].drop_last()) + w[x]);
}

proof fn lemma_kids_total_is_weight(f: Forest, w: Seq<nat>, x: int, k: nat)
    requires
        f.wf(),
        0 <= x < f.len(),
        k <= f.kids[x].len(),
    ensures
        kids_total(f, w, x, k) == weight_of(w, kids_walk(f, x, k)),
    decreases height(f, x), k,
{
    if k > 0 {
        lemma_kid(f, x, k - 1);
        let c = f.kids[x][k - 1] as int;
        lemma_total_is_weight(f, w, c);
        lemma_kids_total_is_weight(f, w, x, (k - 1) as nat);
        lemma_weight_add(w, walk(f, c), kids_walk(f, x, (k - 1) as nat));
    }
}

/// Where every node keeps its first children and no weight becomes less, no total
/// becomes less.
pub proof fn lemma_total_grows(f: Forest, g: Forest, w: Seq<nat>, v: Seq<nat>, x: int)
    requires
        f.wf(),
        g.wf(),
        f.len() <= g.len(),
        forall|i: int| 0 <= i < f.len() ==> (#[trigger] f.kids[i]).is_prefix_of(g.kids[i]),
        forall|i: int| 0 <= i < f.len() ==> #[trigger] w[i] <= v[i],
        0 <= x < f.len(),
    ensures
        total(f, w, x) <= total(g, v, x),
    decreases height(f, x), f.kids[x].len() + 1,
{
    let n = f.kids[x].len();
    assert(f.kids[x].is_prefix_of(g.kids[x]));
    lemma_kids_total_grows(f, g, w, v, x, n);
    lemma_kids_total_bound(g, v, x, g.kids[x].len(), n);
    assert(w[x] <= v[x]);
}

proof fn lemma_kids_total_grows(f: Forest, g: Forest, w: Seq<nat>, v: Seq<nat>, x: int, k: nat)
    requires
        f.wf(),
        g.wf(),
        f.len() <= g.len(),
        forall|i: int| 0 <= i < f.len() ==> (#[trigger] f.kids[i]).is_prefix_of(g.kids[i]),
        forall|i: int| 0 <= i < f.len() ==> #[trigger] w[i] <= v[i],
        0 <= x < f.len(),
        k <= f.kids[x].len(),
    ensures
        kids_total(f, w, x, k) <= kids_total(g, v, x, k),
    decreases height(f, x), k,
{
    assert(f.kids[x].is_prefix_of(g.kids[x]));
    if k > 0 {
        lemma_kid(f, x, k - 1);
        let c = f.kids[x][k - 1];
        assert(g.kids[x].take(f.kids[x].len() as int)[k - 1] == c);
        lemma_total_grows(f, g, w, v, c as int);
        lemma_kids_total_grows(f, g, w, v, x, (k - 1) as nat);
    }
}

/// The links between the nodes that are kept: the others have no parent and are
/// nobody's children.
pub open spec fn pruned(f: Forest, keep: spec_fn(usize) -> bool) -> Forest {
    Forest {
        kids: f.kids.map_values(|k: Seq<usize>| k.filter(keep)),
        par: Seq::new(
            f.par.len(),
            |x: int|
                if keep(x as usize) {
                    f.par[x]
                } else {
                    None
                },
        ),
    }
}

/// What is left of trees are trees.
pub proof fn lemma_pruned_wf(f: Forest, keep: spec_fn(usize) -> bool)
    requires
        f.wf(),
    ensures
        pruned(f, keep).wf(),
{
    let g = pruned(f, keep);
    lemma_rank(f);
    assert forall|i: int| 0 <= i < f.len() implies {
        &&& (#[trigger] g.kids[i]).no_duplicates()
        &&& forall|c: usize| #[trigger]
            g.kids[i].contains(c) <==> f.kids[i].contains(c) && keep(c)
    } by {
        assert(g.kids[i] == f.kids[i].filter(keep));
        assert(f.kids[i].no_duplicates());
        text::lemma_filter_distinct(f.kids[i], keep);
        assert forall|c: usize| #[trigger]
            g.kids[i].contains(c) <==> f.kids[i].contains(c) && keep(c) by {
            if g.kids[i].contains(c) {
                let k = choose|k: int| 0 <= k < g.kids[i].len() && g.kids[i][k] == c;
                text::lemma_filter_members(f.kids[i], keep, k);
            }
            if f.kids[i].contains(c) && keep(c) {
                let k = choose|k: int| 0 <= k < f.kids[i].len() && f.kids[i][k] == c;
                text::lemma_filter_keeps(f.kids[i], keep, k);
            }
        }
    }
    assert forall|i: int, k: int| 0 <= i < g.len() && 0 <= k < g.kids[i].len() implies {
        let c = #[trigger] g.kids[i][k];
        c < g.len() && g.par[c as int] == Some(i as usize)
    } by {
        let c = g.kids[i][k];
        assert(g.kids[i].contains(c));
        let m = choose|m: int| 0 <= m < f.kids[i].len() && f.kids[i][m] == c;
        assert(f.par[f.kids[i][m] as int] == Some(i as usize));
    }
    assert forall|x: int| 0 <= x < g.len() implies (#[trigger] g.par[x] matches Some(p) ==> p
        < g.len() && g.kids[p as int].contains(x as usize)) by {
        if keep(x as usize) {
            assert(g.par[x] == f.par[x]);
        }
    }
    assert(ranked(g, ranking(f).0, ranking(f).1));
}

} // verus!
