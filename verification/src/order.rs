//! Putting positions in order, and items by a key, largest first.

use vstd::prelude::*;
use vstd::set_lib::*;

verus! {

// ---- positions ----------------------------------------------------------------------

/// Positions that can be put in order.
pub trait Positions {
    /// How many there are.
    spec fn count(&self) -> nat;

    /// Whether the position `a` comes before the position `b`.
    spec fn precedes(&self, a: int, b: int) -> bool;

    /// What comes before a position comes before all that it comes before.
    proof fn lemma_chain(&self, a: int, b: int, c: int)
        requires
            self.precedes(a, b),
            self.precedes(b, c),
        ensures
            self.precedes(a, c),
    ;

    /// Of two positions one comes before the other.
    proof fn lemma_either(&self, a: int, b: int)
        requires
            0 <= a < self.count(),
            0 <= b < self.count(),
            a != b,
        ensures
            self.precedes(a, b) || self.precedes(b, a),
    ;

    /// Whether the position `a` comes before the position `b`.
    fn is_before(&self, a: usize, b: usize) -> (r: bool)
        requires
            a < self.count(),
            b < self.count(),
        ensures
            r == self.precedes(a as int, b as int),
    ;
}

/// Whether `r` lists the positions from `lo` to `hi`, in order.
pub open spec fn run<S: Positions>(s: S, r: Seq<usize>, lo: int, hi: int) -> bool {
    &&& r.len() == hi - lo
    &&& forall|i: int| 0 <= i < r.len() ==> lo <= #[trigger] r[i] < hi
    &&& forall|i: int, j: int|
        0 <= i < j < r.len() ==> s.precedes(#[trigger] r[i] as int, #[trigger] r[j] as int)
}

/// Two neighbouring runs made one.
fn merge<S: Positions>(s: &S, a: &Vec<usize>, b: &Vec<usize>, lo: usize, mid: usize, hi: usize) -> (r:
    Vec<usize>)
    requires
        lo <= mid <= hi <= s.count(),
        run(*s, a@, lo as int, mid as int),
        run(*s, b@, mid as int, hi as int),
    ensures
        run(*s, r@, lo as int, hi as int),
{
    let mut out: Vec<usize> = Vec::new();
    let mut i: usize = 0;
    let mut j: usize = 0;
    while i < a.len() || j < b.len()
        invariant
            lo <= mid <= hi <= s.count(),
            run(*s, a@, lo as int, mid as int),
            run(*s, b@, mid as int, hi as int),
            i <= a@.len(),
            j <= b@.len(),
            out@.len() == i + j,
            forall|k: int| 0 <= k < out@.len() ==> lo <= #[trigger] out@[k] < hi,
            forall|k: int, l: int|
                0 <= k < l < out@.len() ==> s.precedes(
                    #[trigger] out@[k] as int,
                    #[trigger] out@[l] as int,
                ),
            forall|k: int, l: int|
                0 <= k < out@.len() && i <= l < a@.len() ==> s.precedes(
                    #[trigger] out@[k] as int,
                    #[trigger] a@[l] as int,
                ),
            forall|k: int, l: int|
                0 <= k < out@.len() && j <= l < b@.len() ==> s.precedes(
                    #[trigger] out@[k] as int,
                    #[trigger] b@[l] as int,
                ),
        decreases a@.len() - i + b@.len() - j,
    {
        let left = if i < a.len() && j < b.len() {
            s.is_before(a[i], b[j])
        } else {
            i < a.len()
        };
        proof {
            if i < a@.len() && j < b@.len() {
                assert(a@[i as int] < mid <= b@[j as int]);
                s.lemma_either(a@[i as int] as int, b@[j as int] as int);
            }
        }
        if left {
            assert forall|l: int| j <= l < b@.len() implies s.precedes(
                a@[i as int] as int,
                #[trigger] b@[l] as int,
            ) by {
                if l > j {
                    s.lemma_chain(a@[i as int] as int, b@[j as int] as int, b@[l] as int);
                }
            }
            out.push(a[i]);
            i += 1;
        } else {
            assert forall|l: int| i <= l < a@.len() implies s.precedes(
                b@[j as int] as int,
                #[trigger] a@[l] as int,
            ) by {
                if l > i {
                    s.lemma_chain(b@[j as int] as int, a@[i as int] as int, a@[l] as int);
                }
            }
            out.push(b[j]);
            j += 1;
        }
    }
    out
}

/// The positions from `lo` to `hi`, in order.
pub fn sort_run<S: Positions>(s: &S, lo: usize, hi: usize) -> (r: Vec<usize>)
    requires
        lo <= hi <= s.count(),
    ensures
        run(*s, r@, lo as int, hi as int),
    decreases hi - lo,
{
    let mut out: Vec<usize> = Vec::new();
    if hi - lo == 0 {
        return out;
    }
    if hi - lo == 1 {
        out.push(lo);
        return out;
    }
    let mid: usize = lo + (hi - lo) / 2;
    let a = sort_run(s, lo, mid);
    let b = sort_run(s, mid, hi);
    merge(s, &a, &b, lo, mid, hi)
}

/// As many distinct positions as there are, are all of them.
pub proof fn lemma_distinct_covers(p: Seq<usize>)
    requires
        p.no_duplicates(),
        forall|i: int| 0 <= i < p.len() ==> #[trigger] p[i] < p.len(),
    ensures
        forall|x: usize| x < p.len() ==> p.contains(x),
{
    let q = p.map_values(|i: usize| i as int);
    assert(q.no_duplicates()) by {
        assert forall|i: int, j: int| 0 <= i < q.len() && 0 <= j < q.len() && i != j implies q[i]
            != q[j] by {
            assert(p[i] != p[j]);
        }
    }
    q.unique_seq_to_set();
    let all = set_int_range(0, p.len() as int);
    lemma_int_range(0, p.len() as int);
    assert(q.to_set().subset_of(all)) by {
        assert forall|x: int| q.to_set().contains(x) implies all.contains(x) by {
            let i = choose|i: int| 0 <= i < q.len() && q[i] == x;
            assert(p[i] < p.len());
        }
    }
    lemma_subset_equality(q.to_set(), all);
    assert forall|x: usize| x < p.len() implies p.contains(x) by {
        assert(q.to_set().contains(x as int));
        let i = choose|i: int| 0 <= i < q.len() && q[i] == x as int;
        assert(p[i] == x);
    }
}

// ---- by a key -----------------------------------------------------------------------

/// Whether position `a` comes before position `b`: a larger key first, and among
/// equal keys the earlier position first.
pub open spec fn before(keys: Seq<u64>, a: int, b: int) -> bool {
    keys[a] > keys[b] || (keys[a] == keys[b] && a < b)
}

/// Whether `p` lists the positions of `keys`, each once, largest key first and
/// equal keys in their own order.
pub open spec fn is_order(keys: Seq<u64>, p: Seq<usize>) -> bool {
    &&& p.len() == keys.len()
    &&& forall|i: int| 0 <= i < p.len() ==> #[trigger] p[i] < keys.len()
    &&& forall|i: int, j: int|
        0 <= i < j < p.len() ==> before(keys, #[trigger] p[i] as int, #[trigger] p[j] as int)
}

/// The items of `s` in the order `p`.
pub open spec fn arranged<T>(s: Seq<T>, p: Seq<usize>) -> Seq<T> {
    p.map_values(|i: usize| s[i as int])
}

/// Whether `r` holds the items of `s`, largest key first and items of equal keys
/// in the order that they have in `s`.
pub open spec fn sorted_desc<T>(s: Seq<T>, keys: Seq<u64>, r: Seq<T>) -> bool {
    exists|p: Seq<usize>| #[trigger] is_order(keys, p) && r == arranged(s, p)
}

/// Every position occurs in an order, and just once.
pub proof fn lemma_order_covers(keys: Seq<u64>, p: Seq<usize>)
    requires
        is_order(keys, p),
    ensures
        p.no_duplicates(),
        forall|x: usize| x < keys.len() ==> p.contains(x),
{
    assert(p.no_duplicates()) by {
        assert forall|i: int, j: int| 0 <= i < p.len() && 0 <= j < p.len() && i != j implies p[i]
            != p[j] by {
            if i < j {
                assert(before(keys, p[i] as int, p[j] as int));
            } else {
                assert(before(keys, p[j] as int, p[i] as int));
            }
        }
    }
    lemma_distinct_covers(p);
}

/// Sorting keeps the items: the same ones occur, and none becomes double.
pub proof fn lemma_sorted_keeps<T>(s: Seq<T>, keys: Seq<u64>, r: Seq<T>)
    requires
        s.len() == keys.len(),
        s.len() <= usize::MAX,
        sorted_desc(s, keys, r),
    ensures
        r.len() == s.len(),
        forall|x: T| r.contains(x) <==> s.contains(x),
        s.no_duplicates() ==> r.no_duplicates(),
{
    let p = choose|p: Seq<usize>| #[trigger] is_order(keys, p) && r == arranged(s, p);
    lemma_order_covers(keys, p);
    assert forall|x: T| r.contains(x) <==> s.contains(x) by {
        if r.contains(x) {
            let i = choose|i: int| 0 <= i < r.len() && r[i] == x;
            assert(s[p[i] as int] == x);
        }
        if s.contains(x) {
            let i = choose|i: int| 0 <= i < s.len() && s[i] == x;
            assert(p.contains(i as usize));
            let j = choose|j: int| 0 <= j < p.len() && p[j] == i as usize;
            assert(r[j] == x);
        }
    }
    if s.no_duplicates() {
        assert forall|a: int, b: int| 0 <= a < r.len() && 0 <= b < r.len() && a != b implies r[a]
            != r[b] by {
            assert(p[a] != p[b]);
            assert(p[a] < s.len() && p[b] < s.len());
            assert(s[p[a] as int] != s[p[b] as int]);
        }
    }
}

/// Sorted items stand with the largest key first.
pub proof fn law_sorted_is_descending<T>(s: Seq<T>, keys: Seq<u64>, r: Seq<T>, key: spec_fn(T) -> u64)
    requires
        s.len() == keys.len(),
        forall|i: int| 0 <= i < s.len() ==> keys[i] == key(#[trigger] s[i]),
        sorted_desc(s, keys, r),
    ensures
        forall|a: int, b: int| 0 <= a <= b < r.len() ==> key(#[trigger] r[a]) >= key(#[trigger] r[b]),
{
    let p = choose|p: Seq<usize>| #[trigger] is_order(keys, p) && r == arranged(s, p);
    assert forall|a: int, b: int| 0 <= a <= b < r.len() implies key(#[trigger] r[a]) >= key(
        #[trigger] r[b],
    ) by {
        assert(r[a] == s[p[a] as int] && r[b] == s[p[b] as int]);
        if a < b {
            assert(before(keys, p[a] as int, p[b] as int));
        }
    }
}

/// Sorted items stand in their own order where their keys are equal, and one with a larger
/// key stands before one with a smaller key.
pub proof fn law_sorting_keeps_equal_items_in_order<T>(
    s: Seq<T>,
    keys: Seq<u64>,
    r: Seq<T>,
    i: int,
    j: int,
)
    requires
        s.len() == keys.len(),
        s.len() <= usize::MAX,
        sorted_desc(s, keys, r),
        0 <= i < s.len(),
        0 <= j < s.len(),
        keys[i] > keys[j] || (keys[i] == keys[j] && i < j),
    ensures
        exists|a: int, b: int|
            0 <= a < b < r.len() && #[trigger] r[a] == s[i] && #[trigger] r[b] == s[j],
{
    let p = choose|p: Seq<usize>| #[trigger] is_order(keys, p) && r == arranged(s, p);
    lemma_order_covers(keys, p);
    assert(p.contains(i as usize) && p.contains(j as usize));
    let a = choose|a: int| 0 <= a < p.len() && p[a] == i as usize;
    let b = choose|b: int| 0 <= b < p.len() && p[b] == j as usize;
    if b < a {
        assert(before(keys, p[b] as int, p[a] as int));
    }
    assert(r[a] == s[i] && r[b] == s[j]);
}

/// Positions by their keys, largest key first.
struct ByKey<'a> {
    keys: &'a Vec<u64>,
}

impl<'a> Positions for ByKey<'a> {
    closed spec fn count(&self) -> nat {
        self.keys@.len()
    }

    closed spec fn precedes(&self, a: int, b: int) -> bool {
        before(self.keys@, a, b)
    }

    proof fn lemma_chain(&self, a: int, b: int, c: int) {
    }

    proof fn lemma_either(&self, a: int, b: int) {
    }

    fn is_before(&self, a: usize, b: usize) -> (r: bool) {
        self.keys[a] > self.keys[b] || (self.keys[a] == self.keys[b] && a < b)
    }
}

/// The positions of `keys`, largest key first and equal keys in their own order.
pub fn order_desc(keys: &Vec<u64>) -> (p: Vec<usize>)
    ensures
        is_order(keys@, p@),
{
    sort_run(&ByKey { keys }, 0, keys.len())
}

/// The items of `v` in the order `p`.
pub fn arrange<T>(v: Vec<T>, keys: &Vec<u64>, p: &Vec<usize>) -> (r: Vec<T>)
    requires
        v@.len() == keys@.len(),
        is_order(keys@, p@),
    ensures
        r@ == arranged(v@, p@),
{
    let ghost all = v@;
    let n: usize = v.len();
    let mut rest = v;
    let mut slots: Vec<Option<T>> = Vec::new();
    let mut i: usize = 0;
    // Fill the slots from the back of the list, then turn them round.
    while i < n
        invariant
            i <= n,
            n == all.len(),
            rest@ == all.take(n - i),
            slots@.len() == i,
            forall|x: int| 0 <= x < i ==> #[trigger] slots@[x] == Some(all[n - 1 - x]),
        decreases n - i,
    {
        let last = rest.pop();
        assert(last == Some(all[n - 1 - i]));
        slots.push(last);
        i += 1;
        assert(rest@ =~= all.take(n - i));
    }
    proof {
        lemma_order_covers(keys@, p@);
    }
    let mut out: Vec<T> = Vec::new();
    let mut k: usize = 0;
    while k < n
        invariant
            k <= n,
            n == all.len(),
            n == keys@.len(),
            is_order(keys@, p@),
            p@.no_duplicates(),
            slots@.len() == n,
            out@ == arranged(all, p@).take(k as int),
            forall|j: int|
                k <= j < n ==> slots@[n - 1 - #[trigger] p@[j]] == Some(all[p@[j] as int]),
        decreases n - k,
    {
        let at: usize = p[k];
        assert(at < n);
        assert(slots@[n - 1 - p@[k as int]] == Some(all[p@[k as int] as int]));
        let ghost pre = slots@;
        let mut got: Option<T> = None;
        std::mem::swap(&mut slots[n - 1 - at], &mut got);
        if let Some(x) = got {
            out.push(x);
        }
        assert forall|j: int| k + 1 <= j < n implies slots@[n - 1 - #[trigger] p@[j]] == Some(
            all[p@[j] as int],
        ) by {
            assert(p@[j] != p@[k as int]);
            assert(p@[j] < n);
            assert(pre[n - 1 - p@[j]] == Some(all[p@[j] as int]));
        }
        k += 1;
        assert(out@ =~= arranged(all, p@).take(k as int));
    }
    assert(out@ =~= arranged(all, p@));
    out
}

/// The items of `v`, largest key first and items of equal keys in their own order.
pub fn sort_desc<T>(v: Vec<T>, keys: &Vec<u64>) -> (r: Vec<T>)
    requires
        v@.len() == keys@.len(),
    ensures
        sorted_desc(v@, keys@, r@),
{
    let p = order_desc(keys);
    arrange(v, keys, &p)
}

} // verus!
