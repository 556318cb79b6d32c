//! What texts, numbers in words and sums promise.

use vstd::prelude::*;

use crate::text;
use crate::util;

verus! {

// ---- numbers ----------------------------------------------------------------------------

/// The character of a digit is as far from `0` as the digit counts.
proof fn lemma_digit(d: nat)
    requires
        d < 10,
    ensures
        '0' <= text::digit(d) <= '9',
        text::digit(d) as nat - '0' as nat == d,
{
}

proof fn lemma_decimal(n: nat)
    ensures
        text::decimal(n).len() > 0,
        text::all_digits(text::decimal(n)),
        text::digits_value(text::decimal(n)) == n,
        n > 0 ==> text::decimal(n)[0] != '0',
    decreases n,
{
    let s = text::decimal(n);
    lemma_digit(n % 10);
    if n < 10 {
        lemma_digit(n);
        assert(s.drop_last() =~= Seq::<char>::empty());
        assert(text::digits_value(s.drop_last()) == 0);
    } else {
        lemma_decimal(n / 10);
        assert(s.drop_last() =~= text::decimal(n / 10));
        assert forall|i: int| 0 <= i < s.len() implies '0' <= #[trigger] s[i] <= '9' by {
            if i < s.len() - 1 {
                assert(s[i] == text::decimal(n / 10)[i]);
            }
        }
        assert(s[0] == text::decimal(n / 10)[0]);
    }
}

/// A number is written in digits without a leading zero, and read back from them; a `+`
/// before it changes nothing, a `-` its sign. Different numbers are written differently.
pub proof fn law_numbers_are_read_back(n: nat, m: nat)
    ensures
        text::unsigned_value(text::decimal(n)) == Some(n),
        text::unsigned_value(seq!['+'] + text::decimal(n)) == Some(n),
        text::unsigned_value(seq!['-'] + text::decimal(n)) is None,
        text::signed_value(text::signed_decimal(n as int)) == Some(n as int),
        text::signed_value(text::signed_decimal(-(n as int))) == Some(-(n as int)),
        text::decimal(n) == text::decimal(m) <==> n == m,
        forall|i: int|
            0 <= i < text::decimal(n).len() ==> '0' <= #[trigger] text::decimal(n)[i] <= '9',
        n >= 10 ==> text::decimal(n)[0] != '0',
        text::decimal(10 * n + m % 10) == (if n == 0 {
            text::decimal(m % 10)
        } else {
            text::decimal(n) + text::decimal(m % 10)
        }),
{
    lemma_decimal(n);
    lemma_decimal(m);
    let s = text::decimal(n);
    assert('0' <= s[0] <= '9');
    assert((seq!['+'] + s).skip(1) =~= s);
    assert((seq!['-'] + s).skip(1) =~= s);
    let neg = seq!['-'] + s;
    assert(!text::all_digits(neg)) by {
        assert(neg[0] == '-');
    }
    assert((10 * n + m % 10) / 10 == n && (10 * n + m % 10) % 10 == m % 10) by (nonlinear_arith);
    if n > 0 {
        assert(text::decimal(10 * n + m % 10) =~= text::decimal(n) + text::decimal(m % 10));
    }
}

/// Text without a digit, or with anything but digits behind the sign, is no number.
pub proof fn law_only_digits_are_numbers(s: Seq<char>)
    ensures
        text::unsigned_value(s) matches Some(n) ==> s.len() > 0 && forall|i: int|
            0 <= i < s.len() ==> '0' <= #[trigger] s[i] <= '9' || (i == 0 && s[i] == '+' && s.len()
                > 1),
        text::signed_value(s) matches Some(n) ==> s.len() > 0 && forall|i: int|
            0 <= i < s.len() ==> '0' <= #[trigger] s[i] <= '9' || (i == 0 && (s[i] == '+' || s[i]
                == '-') && s.len() > 1),
        text::unsigned_value(Seq::<char>::empty()) is None,
        text::signed_value(Seq::<char>::empty()) is None,
{
    if s.len() > 0 && (s[0] == '+' || s[0] == '-') {
        let d = s.skip(1);
        assert forall|i: int| 0 < i < s.len() && text::all_digits(d) implies '0'
            <= #[trigger] s[i] <= '9' by {
            assert(s[i] == d[i - 1]);
        }
    }
    let e = Seq::<char>::empty();
    assert(e.skip(0) =~= e);
}

// ---- words and lines --------------------------------------------------------------------

/// White space ends a word, and what follows it without white space is the next one.
pub proof fn law_white_space_parts_words(s: Seq<char>, c: char, w: Seq<char>)
    requires
        text::is_white(c),
        forall|i: int| 0 <= i < w.len() ==> !text::is_white(#[trigger] w[i]),
    ensures
        text::words(s.push(c) + w) == (if w.len() == 0 {
            text::words(s)
        } else {
            text::words(s).push(w)
        }),
        text::words(w) == (if w.len() == 0 {
            Seq::empty()
        } else {
            seq![w]
        }),
        text::is_white(' ') && text::is_white('\t') && text::is_white('\n') && text::is_white('\r'),
{
    let sep = |c: char| text::is_white(c);
    let f = |p: Seq<char>| p.len() > 0;
    assert forall|j: int| 0 <= j < w.len() implies !sep(#[trigger] w[j]) by {}
    text::lemma_pieces_extend(s, c, w, sep);
    let ps = text::pieces(s, sep);
    assert(ps.push(w).drop_last() =~= ps);
    text::lemma_filter_last(ps.push(w), f);
    text::lemma_pieces_single(w, sep);
    let one = seq![w];
    assert(one.drop_last() =~= Seq::<Seq<char>>::empty());
    text::lemma_filter_last(one, f);
    reveal_with_fuel(Seq::filter, 2);
    assert(one.drop_last().filter(f) =~= Seq::<Seq<char>>::empty());
    assert(Seq::<Seq<char>>::empty().push(w) =~= one);
}

/// A line feed ends a line, and takes a carriage return before it with it; what follows the
/// last one is a line where there is something.
pub proof fn law_line_feeds_end_lines(s: Seq<char>, l: Seq<char>)
    requires
        forall|i: int| 0 <= i < l.len() ==> #[trigger] l[i] != '\n',
    ensures
        text::lines(Seq::<char>::empty()) == Seq::<Seq<char>>::empty(),
        text::lines(l) == (if l.len() == 0 {
            Seq::empty()
        } else {
            seq![l]
        }),
        text::lines(l.push('\n')) == seq![
            if l.len() > 0 && l.last() == '\r' {
                l.drop_last()
            } else {
                l
            },
        ],
        text::lines(s.push('\n') + l) == (if l.len() == 0 {
            text::lines(s.push('\n'))
        } else {
            text::lines(s.push('\n')).push(l)
        }),
        text::lines((s.push('\n') + l).push('\n')) == text::lines(s.push('\n')).push(
            if l.len() > 0 && l.last() == '\r' {
                l.drop_last()
            } else {
                l
            },
        ),
{
    let sep = |c: char| c == '\n';
    let cut = |l: Seq<char>| text::strip_cr(l);
    let e = Seq::<char>::empty();
    text::lemma_pieces_single(e, sep);
    text::lemma_pieces_single(l, sep);
    assert(text::lines(e) =~= Seq::<Seq<char>>::empty());
    assert(seq![l].drop_last().map_values(cut) =~= Seq::<Seq<char>>::empty());
    assert(text::lines(l) =~= if l.len() == 0 {
        Seq::empty()
    } else {
        seq![l]
    });
    let ln = l.push('\n');
    text::lemma_pieces_extend(l, '\n', e, sep);
    assert(ln + e =~= ln);
    assert(text::pieces(ln, sep) =~= seq![l, e]);
    assert(seq![l, e].drop_last().map_values(cut) =~= seq![cut(l)]);
    // behind other lines
    let ps = text::pieces(s, sep);
    text::lemma_pieces_nonempty(s, sep);
    let sn = s.push('\n');
    text::lemma_pieces_extend(s, '\n', e, sep);
    assert(sn + e =~= sn);
    assert(ps.push(e).drop_last() =~= ps);
    text::lemma_pieces_extend(s, '\n', l, sep);
    assert(ps.push(l).drop_last() =~= ps);
    assert(text::lines(sn) =~= ps.map_values(cut));
    let all = (sn + l).push('\n');
    text::lemma_pieces_extend(sn + l, '\n', e, sep);
    assert(all + e =~= all);
    assert(ps.push(l).push(e).drop_last() =~= ps.push(l));
    assert(ps.push(l).map_values(cut) =~= ps.map_values(cut).push(cut(l)));
}

/// Trimming takes white space off both ends, and nothing else.
pub proof fn law_trimming_takes_white_space(s: Seq<char>)
    ensures
        exists|a: Seq<char>, b: Seq<char>|
            s == #[trigger] (a + text::trimmed(s) + b) && all_white(a) && all_white(b),
        text::trimmed(s).len() > 0 ==> !text::is_white(text::trimmed(s)[0]) && !text::is_white(
            text::trimmed(s).last(),
        ),
{
    let (a, m) = lemma_trim_start(s);
    let b = lemma_trim_end(m);
    assert(s =~= a + text::trimmed(s) + b);
    if text::trimmed(s).len() > 0 {
        assert(text::trimmed(s)[0] == m[0]);
    }
}

/// Whether every character is white space.
pub open spec fn all_white(s: Seq<char>) -> bool {
    forall|i: int| 0 <= i < s.len() ==> text::is_white(#[trigger] s[i])
}

proof fn lemma_trim_start(s: Seq<char>) -> (r: (Seq<char>, Seq<char>))
    ensures
        r.1 == text::trim_start(s),
        s == r.0 + r.1,
        all_white(r.0),
        r.1.len() > 0 ==> !text::is_white(r.1[0]),
    decreases s.len(),
{
    if s.len() > 0 && text::is_white(s[0]) {
        let (a, m) = lemma_trim_start(s.skip(1));
        let r = seq![s[0]] + a;
        assert(s =~= r + m) by {
            assert(s =~= seq![s[0]] + s.skip(1));
        }
        (r, m)
    } else {
        assert(s =~= Seq::<char>::empty() + s);
        (Seq::empty(), s)
    }
}

proof fn lemma_trim_end(s: Seq<char>) -> (b: Seq<char>)
    ensures
        s == text::trim_end(s) + b,
        all_white(b),
        text::trim_end(s).len() > 0 ==> !text::is_white(text::trim_end(s).last()),
    decreases s.len(),
{
    if s.len() > 0 && text::is_white(s.last()) {
        let b = lemma_trim_end(s.drop_last());
        let r = b.push(s.last());
        assert(s =~= text::trim_end(s) + r) by {
            assert(s =~= s.drop_last().push(s.last()));
        }
        r
    } else {
        assert(s =~= s + Seq::<char>::empty());
        Seq::empty()
    }
}

// ---- searching, order and layout ----------------------------------------------------------

/// What is found is where the text sought stands first.
pub proof fn law_first_is_found(s: Seq<char>, needle: Seq<char>, from: nat)
    requires
        from <= s.len(),
    ensures
        match text::first_at(s, needle, from) {
            Some(i) => {
                &&& from <= i
                &&& i + needle.len() <= s.len()
                &&& s.subrange(i as int, (i + needle.len()) as int) == needle
                &&& forall|j: int|
                    from <= j < i ==> #[trigger] s.subrange(j, j + needle.len()) != needle
            },
            None => forall|j: int|
                from <= j && j + needle.len() <= s.len() ==> #[trigger] s.subrange(
                    j,
                    j + needle.len(),
                ) != needle,
        },
    decreases s.len() + 1 - from,
{
    if from + needle.len() <= s.len() {
        if !text::occurs_at(s, needle, from as int) {
            if from < s.len() {
                law_first_is_found(s, needle, from + 1);
            }
        }
    }
}

/// Texts come one before the other as their first different characters do, and a text
/// before all that it begins.
pub proof fn law_texts_are_ordered(a: Seq<char>, b: Seq<char>, p: Seq<char>, x: char, y: char)
    ensures
        text::text_lt(a, b) || text::text_lt(b, a) || a == b,
        !(text::text_lt(a, b) && text::text_lt(b, a)),
        (x as u32) < (y as u32) ==> text::text_lt(p.push(x) + a, p.push(y) + b),
        text::text_lt(p, p.push(x) + a),
    decreases p.len(),
{
    text::lemma_text_total(a, b);
    let q = p.push(x) + a;
    let r = p.push(y) + b;
    if p.len() == 0 {
        assert(q[0] == x && r[0] == y);
    } else {
        law_texts_are_ordered(a, b, p.skip(1), x, y);
        assert(q.skip(1) =~= p.skip(1).push(x) + a);
        assert(r.skip(1) =~= p.skip(1).push(y) + b);
        assert(q[0] == p[0] && r[0] == p[0]);
    }
}

/// Case only matters for the letters from `A` to `Z`, which fall on those from `a` to `z`.
pub proof fn law_lower_case(s: Seq<char>)
    ensures
        text::lowered(s).len() == s.len(),
        text::lowered(text::lowered(s)) == text::lowered(s),
        forall|i: int|
            0 <= i < s.len() ==> {
                let c = s[i];
                let d = #[trigger] text::lowered(s)[i];
                &&& 'A' <= c <= 'Z' ==> 'a' <= d <= 'z' && d as nat - 'a' as nat == c as nat
                    - 'A' as nat
                &&& !('A' <= c <= 'Z') ==> d == c
            },
{
    assert forall|i: int| 0 <= i < s.len() implies {
        let c = s[i];
        let d = #[trigger] text::lowered(s)[i];
        &&& 'A' <= c <= 'Z' ==> 'a' <= d <= 'z' && d as nat - 'a' as nat == c as nat - 'A' as nat
        &&& !('A' <= c <= 'Z') ==> d == c
    } by {
        let c = s[i];
        assert(text::lowered(s)[i] == text::lower(c));
    }
    assert(text::lowered(text::lowered(s)) =~= text::lowered(s));
}

/// Joined texts stand in order, with the separator between two of them and nowhere else.
pub proof fn law_joining_puts_a_separator_between(
    v: Seq<Seq<char>>,
    x: Seq<char>,
    sep: Seq<char>,
)
    ensures
        text::joined_by(Seq::<Seq<char>>::empty(), sep) == Seq::<char>::empty(),
        text::joined_by(v.push(x), sep) == (if v.len() == 0 {
            x
        } else {
            text::joined_by(v, sep) + sep + x
        }),
{
    assert(v.push(x).drop_last() =~= v);
}

/// A text that is aligned to the right stands at the end of its column, with spaces before
/// it, and is never cut.
pub proof fn law_aligned_to_the_right(s: Seq<char>, n: nat)
    ensures
        text::right_aligned(s, n).len() == (if n <= s.len() {
            s.len()
        } else {
            n
        }),
        s.is_suffix_of(text::right_aligned(s, n)),
        forall|i: int|
            0 <= i < text::right_aligned(s, n).len() - s.len() ==> #[trigger] text::right_aligned(
                s,
                n,
            )[i] == ' ',
    decreases n,
{
    let r = text::right_aligned(s, n);
    if n <= s.len() {
        assert(r.subrange(0, r.len() as int) =~= s);
    } else {
        law_aligned_to_the_right(s, (n - 1) as nat);
        let before = text::right_aligned(s, (n - 1) as nat);
        assert(r.subrange(r.len() - s.len(), r.len() as int) =~= before.subrange(
            before.len() - s.len(),
            before.len() as int,
        ));
        assert forall|i: int| 0 <= i < r.len() - s.len() implies #[trigger] r[i] == ' ' by {
            if i > 0 {
                assert(r[i] == before[i - 1]);
            }
        }
    }
}

// ---- sums and sizes -----------------------------------------------------------------------

/// A sum counts every number once: that of no numbers is nothing, and that of two lists
/// one after the other is the sum of both.
pub proof fn law_sums_add_up(a: Seq<u64>, b: Seq<u64>, x: u64)
    ensures
        util::sum(Seq::<u64>::empty()) == 0,
        util::sum(seq![x]) == x,
        util::sum(a + b) == util::sum(a) + util::sum(b),
    decreases b.len(),
{
    let one = seq![x];
    assert(one.drop_last() =~= Seq::<u64>::empty());
    assert(util::sum(one.drop_last()) == 0);
    if b.len() == 0 {
        assert(a + b =~= a);
    } else {
        law_sums_add_up(a, b.drop_last(), x);
        assert((a + b).drop_last() =~= a + b.drop_last());
        assert((a + b).last() == b.last());
    }
}

/// Of `k` in the list none is more than the sum.
pub proof fn law_sum_holds_each(v: Seq<u64>, k: int)
    requires
        0 <= k < v.len(),
    ensures
        v[k] <= util::sum(v),
    decreases v.len(),
{
    if k < v.len() - 1 {
        law_sum_holds_each(v.drop_last(), k);
    }
}

/// How many times 1024 is multiplied by itself.
pub open spec fn kilo(u: nat) -> nat
    decreases u,
{
    if u == 0 {
        1
    } else {
        1024 * kilo((u - 1) as nat)
    }
}

/// Tenths with one decimal, and the unit they count.
pub open spec fn in_words(t: nat, unit: Seq<char>) -> Seq<char> {
    text::decimal(t / 10) + "."@ + text::decimal(t % 10) + " "@ + unit
}

/// Whether `h` is the whole number nearest to `a / d`, the even one of two that are.
pub open spec fn nearest(a: nat, d: nat, h: nat) -> bool {
    let off = a as int - (h * d) as int;
    &&& -(d as int) <= 2 * off <= d
    &&& 2 * off == d || 2 * off == -(d as int) ==> h % 2 == 0
}

proof fn lemma_nearest(a: nat, d: nat)
    requires
        d > 0,
    ensures
        nearest(a, d, util::half_even(a, d)),
{
    let q = a / d;
    let r = a % d;
    let h = util::half_even(a, d);
    vstd::arithmetic::div_mod::lemma_fundamental_div_mod(a as int, d as int);
    assert(d * q == q * d) by (nonlinear_arith);
    assert((q + 1) * d == q * d + d) by (nonlinear_arith);
    vstd::arithmetic::div_mod::lemma_mod_bound(a as int, d as int);
    if h == q {
        assert(a - h * d == r);
        if 2 * r == d {
            assert(q % 2 == 0);
        }
    } else {
        assert(a - h * d == r - d);
        assert((q + 1) % 2 == 0 || q % 2 == 0);
    }
}

/// The gap between neighbouring numbers of 53 bits is one as far as all numbers have so
/// many, and otherwise as large as the last of their bits counts.
proof fn lemma_gap(b: nat)
    ensures
        util::step(b) > 0,
        b < 0x20_0000_0000_0000 ==> util::step(b) == 1,
        b >= 0x20_0000_0000_0000 ==> util::step(b) * 0x10_0000_0000_0000 <= b < util::step(b)
            * 0x20_0000_0000_0000,
    decreases b,
{
    if b >= 0x20_0000_0000_0000 {
        lemma_gap(b / 2);
        let s = util::step(b / 2);
        if b / 2 < 0x20_0000_0000_0000 {
            assert(s == 1);
        }
        assert(2 * s * 0x10_0000_0000_0000 == 2 * (s * 0x10_0000_0000_0000));
        assert(2 * s * 0x20_0000_0000_0000 == 2 * (s * 0x20_0000_0000_0000));
    }
}

/// Whether `v` is the count `bytes`, taken to 53 significant bits.
pub open spec fn kept(bytes: nat, v: nat) -> bool {
    if bytes < 0x20_0000_0000_0000 {
        v == bytes
    } else {
        exists|gap: nat, h: nat|
            #[trigger] nearest(bytes, gap, h) && v == h * gap && gap * 0x10_0000_0000_0000 <= bytes
                < gap * 0x20_0000_0000_0000
    }
}

/// Whether a count is told in the largest unit that it holds one of, up to the fifth,
/// rounded to tenths.
pub open spec fn told_in(v: nat, t: nat, u: nat, unit: Seq<char>) -> bool {
    &&& nearest(10 * v, kilo(u), t)
    &&& kilo(u) <= v
    &&& v < kilo(u + 1) || u == 5
    &&& 1 <= u <= 5
    &&& u == 1 ==> unit == "KB"@
    &&& u == 2 ==> unit == "MB"@
    &&& u == 3 ==> unit == "GB"@
    &&& u == 4 ==> unit == "TB"@
    &&& u == 5 ==> unit == "PB"@
}

/// Fewer than 1024 bytes are told as they are. More are told with one decimal in the largest
/// unit that fits, the nearest one, after the count was taken to 53 significant bits.
pub proof fn law_sizes_are_told_to_the_nearest_tenth(bytes: u64)
    ensures
        bytes < 1024 ==> util::human_size(bytes) == text::decimal(bytes as nat) + " B"@,
        bytes >= 1024 ==> exists|v: nat, t: nat, u: nat, unit: Seq<char>|
            util::human_size(bytes) == in_words(t, unit) && #[trigger] told_in(v, t, u, unit)
                && kept(bytes as nat, v),
{
    if bytes >= 1024 {
        let b = bytes as nat;
        let v = util::round53(b);
        let gap = util::step(b);
        lemma_gap(b);
        lemma_nearest(b, gap);
        let h = util::half_even(b, gap);
        if b < 0x20_0000_0000_0000 {
            assert(b / 1 == b && b % 1 == 0);
            assert(v == b);
        } else {
            assert(nearest(b, gap, h));
        }
        assert(kept(b, v));
        assert(v >= 1024) by {
            if b >= 0x20_0000_0000_0000 {
                assert(gap * 0x10_0000_0000_0000 <= b);
            }
        }
        let u = util::unit(v);
        let unit = util::unit_name(u);
        reveal_with_fuel(kilo, 7);
        assert(util::unit_bytes(u) == kilo(u));
        let t = util::half_even(v * 10, util::unit_bytes(u));
        lemma_nearest(v * 10, util::unit_bytes(u));
        assert(v * 10 == 10 * v);
        assert(told_in(v, t, u, unit));
        assert(util::human_size(bytes) =~= in_words(t, unit));
    }
}

/// `df` is read from its second line: the second column is the size and the fourth what is
/// free, in blocks of 1024 bytes; without two such numbers nothing is known.
pub proof fn law_df_is_read_by_columns(out: Seq<char>)
    ensures
        util::df_usage(out) matches Some((total, free)) ==> {
            let cols = text::words(text::lines(out)[1]);
            &&& text::lines(out).len() >= 2
            &&& cols.len() > 3
            &&& text::unsigned_value(cols[1]) matches Some(a) && (a * 1024 <= u64::MAX ==> total
                == a * 1024)
            &&& text::unsigned_value(cols[3]) matches Some(b) && (b * 1024 <= u64::MAX ==> free
                == b * 1024)
        },
        ({
            let cols = text::words(text::lines(out)[1]);
            text::lines(out).len() >= 2 && cols.len() > 3 && text::unsigned_value(
                cols[1],
            ) is Some && text::unsigned_value(cols[1])->0 <= u64::MAX && text::unsigned_value(
                cols[3],
            ) is Some && text::unsigned_value(cols[3])->0 <= u64::MAX
        }) ==> util::df_usage(out) is Some,
        text::lines(out).len() < 2 ==> util::df_usage(out) is None,
{
}

/// A hue is one of 360 degrees, and found byte by byte: each is mixed into what was found
/// for those before it.
pub proof fn law_hues_are_mixed_byte_by_byte(b: Seq<u8>, x: u8)
    ensures
        util::fnv32(Seq::<u8>::empty()) == 2166136261,
        util::fnv32(b.push(x)) == ((util::fnv32(b) ^ (x as u32)) * 16777619) % 0x1_0000_0000,
{
    assert(b.push(x).drop_last() =~= b);
}

/// A text begins with its front.
pub proof fn lemma_front(a: Seq<char>, b: Seq<char>)
    ensures
        a.is_prefix_of(a + b),
{
    assert((a + b).take(a.len() as int) =~= a);
}

/// What begins a text begins it with more behind it.
pub proof fn lemma_longer(a: Seq<char>, b: Seq<char>, c: Seq<char>)
    requires
        a.is_prefix_of(b),
    ensures
        a.is_prefix_of(b + c),
{
    assert((b + c).take(a.len() as int) =~= b.take(a.len() as int));
}

/// White space is that of Unicode, by code points: in ASCII the blank and what lies from the
/// tab to the carriage return.
pub proof fn law_white_space_is_that_of_unicode(c: char)
    ensures
        text::is_white(c) <==> {
            let n = c as u32;
            ||| 9 <= n <= 13
            ||| n == 32
            ||| n == 133
            ||| n == 160
            ||| n == 5760
            ||| 8192 <= n <= 8202
            ||| n == 8232
            ||| n == 8233
            ||| n == 8239
            ||| n == 8287
            ||| n == 12288
        },
{
}

} // verus!
