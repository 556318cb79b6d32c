//! Character-level helpers on strings, stated over `Seq<char>`.

use vstd::prelude::*;

verus! {

/// `String::push` appends one character to the end of the string.
pub assume_specification[ String::push ](s: &mut String, c: char)
    ensures
        final(s)@ == old(s)@.push(c),
;

/// `==` on `str` holds exactly when both hold the same characters.
pub assume_specification[ <str as PartialEq>::eq ](a: &str, b: &str) -> (r: bool)
    ensures
        r == (a@ == b@),
;

/// The characters of `s`, in order.
pub fn chars_of(s: &str) -> (r: Vec<char>)
    ensures
        r@ == s@,
{
    let mut out: Vec<char> = Vec::new();
    for c in it: s.chars()
        invariant
            out@ == it.seq().take(it.index() as int),
            it.seq() == s@,
    {
        out.push(c);
    }
    out
}

/// The string made of the characters of `cs`, in order.
pub fn string_of(cs: &[char]) -> (r: String)
    ensures
        r@ == cs@,
{
    let mut out = String::new();
    let mut i: usize = 0;
    while i < cs.len()
        invariant
            i <= cs@.len(),
            out@ == cs@.take(i as int),
        decreases cs@.len() - i,
    {
        out.push(cs[i]);
        i += 1;
    }
    out
}

/// Whether `a` and `b` hold the same characters.
pub fn str_eq(a: &str, b: &str) -> (r: bool)
    ensures
        r == (a@ == b@),
{
    *a == *b
}

/// The characters of each string of `v`.
pub open spec fn strs(v: Seq<String>) -> Seq<Seq<char>> {
    v.map_values(|s: String| s@)
}

/// The characters of each string slice of `v`.
pub open spec fn slices(v: Seq<&str>) -> Seq<Seq<char>> {
    v.map_values(|s: &str| s@)
}

/// Whether `needle` occurs in `s` at position `i`.
pub open spec fn occurs_at(s: Seq<char>, needle: Seq<char>, i: int) -> bool {
    0 <= i && i + needle.len() <= s.len() && s.subrange(i, i + needle.len()) == needle
}

/// Whether `needle` occurs somewhere in `s`.
pub open spec fn occurs_in(s: Seq<char>, needle: Seq<char>) -> bool {
    exists|i: int| occurs_at(s, needle, i)
}

/// Whether the characters of `needle` stand in `s` from position `at` on.
pub fn matches_at(s: &[char], needle: &[char], at: usize) -> (r: bool)
    ensures
        r == occurs_at(s@, needle@, at as int),
{
    if needle.len() > s.len() || at > s.len() - needle.len() {
        return false;
    }
    let n: usize = s.len();
    let mut i: usize = 0;
    while i < needle.len()
        invariant
            i <= needle@.len(),
            n == s@.len(),
            at + needle@.len() <= n,
            forall|j: int| 0 <= j < i ==> s@[at + j] == needle@[j],
        decreases needle@.len() - i,
    {
        if s[at + i] != needle[i] {
            assert(s@.subrange(at as int, at + needle@.len())[i as int] != needle@[i as int]);
            return false;
        }
        i += 1;
    }
    assert(s@.subrange(at as int, at + needle@.len()) =~= needle@);
    true
}

/// Whether `s` begins with `prefix`.
pub fn starts_with(s: &str, prefix: &str) -> (r: bool)
    ensures
        r == prefix@.is_prefix_of(s@),
{
    let sc = chars_of(s);
    let pc = chars_of(prefix);
    let r = matches_at(sc.as_slice(), pc.as_slice(), 0);
    proof {
        if prefix@.len() <= s@.len() {
            assert(s@.subrange(0, prefix@.len() as int) =~= s@.take(prefix@.len() as int));
        }
    }
    r
}

/// Whether `s` ends with `suffix`.
pub fn ends_with(s: &str, suffix: &str) -> (r: bool)
    ensures
        r == suffix@.is_suffix_of(s@),
{
    let sc = chars_of(s);
    let pc = chars_of(suffix);
    if pc.len() > sc.len() {
        return false;
    }
    let at: usize = sc.len() - pc.len();
    let r = matches_at(sc.as_slice(), pc.as_slice(), at);
    proof {
        assert(s@.subrange(at as int, at + suffix@.len()) =~= s@.skip(at as int));
    }
    r
}

/// Whether `needle` occurs in `s`.
pub fn contains(s: &str, needle: &str) -> (r: bool)
    ensures
        r == occurs_in(s@, needle@),
{
    let sc = chars_of(s);
    let nc = chars_of(needle);
    let mut i: usize = 0;
    while i < sc.len()
        invariant
            sc@ == s@,
            nc@ == needle@,
            i <= sc@.len(),
            forall|j: int| 0 <= j < i ==> !occurs_at(s@, needle@, j),
        decreases sc@.len() - i,
    {
        if matches_at(sc.as_slice(), nc.as_slice(), i) {
            return true;
        }
        i += 1;
    }
    let r = matches_at(sc.as_slice(), nc.as_slice(), i);
    proof {
        if !r {
            assert forall|j: int| !occurs_at(s@, needle@, j) by {
                if 0 <= j < i {
                } else if j > i {
                }
            }
        }
    }
    r
}

/// Where `needle` first occurs in `s`, from the position `from` on.
pub open spec fn first_at(s: Seq<char>, needle: Seq<char>, from: nat) -> Option<nat>
    decreases s.len() + 1 - from,
{
    if from + needle.len() > s.len() {
        None
    } else if occurs_at(s, needle, from as int) {
        Some(from)
    } else {
        first_at(s, needle, from + 1)
    }
}

/// Where `needle` first occurs in `s`.
pub fn find(s: &[char], needle: &[char]) -> (r: Option<usize>)
    ensures
        match r {
            Some(i) => first_at(s@, needle@, 0) == Some(i as nat) && i <= s@.len(),
            None => first_at(s@, needle@, 0) is None,
        },
{
    if needle.len() > s.len() {
        return None;
    }
    let n: usize = s.len() - needle.len();
    let mut i: usize = 0;
    while i < n
        invariant
            n + needle@.len() == s@.len(),
            i <= n,
            first_at(s@, needle@, 0) == first_at(s@, needle@, i as nat),
        decreases n - i,
    {
        if matches_at(s, needle, i) {
            return Some(i);
        }
        i += 1;
    }
    if matches_at(s, needle, n) {
        Some(n)
    } else {
        assert(first_at(s@, needle@, n as nat + 1) is None);
        None
    }
}

// ---- splitting --------------------------------------------------------------

/// The pieces of `s` between the characters that satisfy `sep`, in order. There
/// is always one piece more than there are separators.
pub open spec fn pieces(s: Seq<char>, sep: spec_fn(char) -> bool) -> Seq<Seq<char>>
    decreases s.len(),
{
    if s.len() == 0 {
        seq![Seq::<char>::empty()]
    } else {
        let before = pieces(s.drop_last(), sep);
        if sep(s.last()) {
            before.push(Seq::empty())
        } else {
            before.drop_last().push(before.last().push(s.last()))
        }
    }
}

pub proof fn lemma_pieces_nonempty(s: Seq<char>, sep: spec_fn(char) -> bool)
    ensures
        pieces(s, sep).len() > 0,
    decreases s.len(),
{
    if s.len() > 0 {
        lemma_pieces_nonempty(s.drop_last(), sep);
    }
}

/// No piece holds a separator.
pub proof fn lemma_pieces_free(s: Seq<char>, sep: spec_fn(char) -> bool, k: int, j: int)
    requires
        0 <= k < pieces(s, sep).len(),
        0 <= j < pieces(s, sep)[k].len(),
    ensures
        !sep(pieces(s, sep)[k][j]),
    decreases s.len(),
{
    if s.len() > 0 {
        let before = pieces(s.drop_last(), sep);
        lemma_pieces_nonempty(s.drop_last(), sep);
        if sep(s.last()) {
            if k < before.len() {
                lemma_pieces_free(s.drop_last(), sep, k, j);
            }
        } else {
            if k < before.len() - 1 {
                lemma_pieces_free(s.drop_last(), sep, k, j);
            } else if j < before.last().len() {
                lemma_pieces_free(s.drop_last(), sep, k, j);
            }
        }
    }
}

/// A separator and a separator-free run add one piece.
pub proof fn lemma_pieces_extend(x: Seq<char>, c: char, y: Seq<char>, sep: spec_fn(char) -> bool)
    requires
        sep(c),
        forall|j: int| 0 <= j < y.len() ==> !sep(#[trigger] y[j]),
    ensures
        pieces(x.push(c) + y, sep) == pieces(x, sep).push(y),
    decreases y.len(),
{
    let s = x.push(c) + y;
    if y.len() == 0 {
        assert(s =~= x.push(c));
        assert(s.drop_last() =~= x);
        assert(y =~= Seq::<char>::empty());
    } else {
        let y0 = y.drop_last();
        assert(s.drop_last() =~= x.push(c) + y0);
        assert forall|j: int| 0 <= j < y0.len() implies !sep(#[trigger] y0[j]) by {
            assert(y0[j] == y[j]);
        }
        lemma_pieces_extend(x, c, y0, sep);
        let before = pieces(s.drop_last(), sep);
        assert(before == pieces(x, sep).push(y0));
        assert(s.last() == y.last());
        assert(!sep(y[y.len() - 1]));
        assert(y0.push(y.last()) =~= y);
        assert(before.drop_last() =~= pieces(x, sep));
    }
}

/// A separator-free run is one piece.
pub proof fn lemma_pieces_single(y: Seq<char>, sep: spec_fn(char) -> bool)
    requires
        forall|j: int| 0 <= j < y.len() ==> !sep(#[trigger] y[j]),
    ensures
        pieces(y, sep) == seq![y],
    decreases y.len(),
{
    if y.len() == 0 {
        assert(y =~= Seq::<char>::empty());
    } else {
        let y0 = y.drop_last();
        assert forall|j: int| 0 <= j < y0.len() implies !sep(#[trigger] y0[j]) by {
            assert(y0[j] == y[j]);
        }
        lemma_pieces_single(y0, sep);
        assert(!sep(y[y.len() - 1]));
        assert(y0.push(y.last()) =~= y);
        assert(pieces(y, sep) =~= seq![y]);
    }
}

// ---- numbers ----------------------------------------------------------------

/// The character of the digit `d`.
pub open spec fn digit(d: nat) -> char {
    ('0' as u32 + d) as char
}

/// `n` in base ten, with no leading zero.
pub open spec fn decimal(n: nat) -> Seq<char>
    decreases n,
{
    if n < 10 {
        seq![digit(n)]
    } else {
        decimal(n / 10).push(digit(n % 10))
    }
}

/// The character of the digit `d`.
fn digit_char(d: u64) -> (c: char)
    requires
        d < 10,
    ensures
        c == digit(d as nat),
{
    match d {
        0 => '0',
        1 => '1',
        2 => '2',
        3 => '3',
        4 => '4',
        5 => '5',
        6 => '6',
        7 => '7',
        8 => '8',
        _ => '9',
    }
}

/// `n` in base ten.
pub fn decimal_string(n: u64) -> (r: String)
    ensures
        r@ == decimal(n as nat),
    decreases n,
{
    if n < 10 {
        let mut out = String::new();
        out.push(digit_char(n));
        assert(out@ =~= seq![digit(n as nat)]);
        out
    } else {
        let mut out = decimal_string(n / 10);
        out.push(digit_char(n % 10));
        out
    }
}

/// Whether every character of `s` is a decimal digit.
pub open spec fn all_digits(s: Seq<char>) -> bool {
    forall|i: int| 0 <= i < s.len() ==> '0' <= #[trigger] s[i] <= '9'
}

/// The number that the digits of `s` write in base ten.
pub open spec fn digits_value(s: Seq<char>) -> nat
    decreases s.len(),
{
    if s.len() == 0 {
        0
    } else {
        digits_value(s.drop_last()) * 10 + (s.last() as nat - '0' as nat) as nat
    }
}

/// The number that `s` writes as an unsigned decimal: one or more digits, after
/// at most one `+`.
pub open spec fn unsigned_value(s: Seq<char>) -> Option<nat> {
    let digits = if s.len() > 0 && s[0] == '+' {
        s.skip(1)
    } else {
        s
    };
    if digits.len() > 0 && all_digits(digits) {
        Some(digits_value(digits))
    } else {
        None
    }
}

/// The number that `s` writes as a signed decimal: one or more digits, after at
/// most one `+` or `-`.
pub open spec fn signed_value(s: Seq<char>) -> Option<int> {
    if s.len() > 0 && s[0] == '-' {
        let digits = s.skip(1);
        if digits.len() > 0 && all_digits(digits) {
            Some(-(digits_value(digits) as int))
        } else {
            None
        }
    } else {
        match unsigned_value(s) {
            Some(n) => Some(n as int),
            None => None,
        }
    }
}

/// The value of the digits of `cs` from `from` on, where they are digits, at
/// least one, and the value fits.
fn digits_from(cs: &Vec<char>, from: usize) -> (r: Option<u64>)
    requires
        from <= cs@.len(),
    ensures
        ({
            let d = cs@.skip(from as int);
            match r {
                Some(v) => d.len() > 0 && all_digits(d) && digits_value(d) == v,
                None => d.len() == 0 || !all_digits(d) || digits_value(d) > u64::MAX,
            }
        }),
{
    let ghost d = cs@.skip(from as int);
    if from == cs.len() {
        return None;
    }
    let mut v: u64 = 0;
    let mut over: bool = false;
    let mut i: usize = from;
    while i < cs.len()
        invariant
            from <= i <= cs@.len(),
            d == cs@.skip(from as int),
            all_digits(d.take(i - from)),
            over ==> digits_value(d.take(i - from)) > u64::MAX,
            !over ==> digits_value(d.take(i - from)) == v,
        decreases cs@.len() - i,
    {
        let c = cs[i];
        assert(c == d[i - from]);
        if c < '0' || c > '9' {
            return None;
        }
        let k: u64 = (c as u32 - '0' as u32) as u64;
        assert(d.take(i + 1 - from).drop_last() =~= d.take(i - from));
        assert(d.take(i + 1 - from).last() == c);
        assert forall|j: int| 0 <= j < i + 1 - from implies '0' <= #[trigger] d.take(i + 1 - from)[j]
            <= '9' by {
            if j < i - from {
                assert(d.take(i + 1 - from)[j] == d.take(i - from)[j]);
            }
        }
        if !over {
            if v > u64::MAX / 10 || (v == u64::MAX / 10 && k > 5) {
                over = true;
            } else {
                v = v * 10 + k;
            }
        }
        i += 1;
    }
    assert(d.take(i - from) =~= d);
    if over {
        None
    } else {
        Some(v)
    }
}

/// Reads `s` as a `u64`, the way `str::parse` does: one or more decimal digits
/// after at most one `+`, not above `u64::MAX`.
pub fn parse_u64(s: &str) -> (r: Option<u64>)
    ensures
        match r {
            Some(v) => unsigned_value(s@) == Some(v as nat),
            None => unsigned_value(s@) matches Some(n) ==> n > u64::MAX,
        },
{
    let cs = chars_of(s);
    if cs.len() > 0 && cs[0] == '+' {
        digits_from(&cs, 1)
    } else {
        assert(s@.skip(0) =~= s@);
        digits_from(&cs, 0)
    }
}

/// Reads `s` as an `i32`, the way `str::parse` does: one or more decimal digits
/// after at most one `+` or `-`, within the range of `i32`.
pub fn parse_i32(s: &str) -> (r: Option<i32>)
    ensures
        match r {
            Some(v) => signed_value(s@) == Some(v as int),
            None => signed_value(s@) matches Some(n) ==> n < i32::MIN || n > i32::MAX,
        },
{
    let cs = chars_of(s);
    if cs.len() > 0 && cs[0] == '-' {
        match digits_from(&cs, 1) {
            Some(v) => if v > 2147483648 {
                None
            } else {
                Some((0 - v as i64) as i32)
            },
            None => None,
        }
    } else {
        match parse_u64(s) {
            Some(v) => if v > 2147483647 {
                None
            } else {
                Some(v as i32)
            },
            None => None,
        }
    }
}

// ---- whitespace and lines ---------------------------------------------------

/// Unicode `White_Space`.
pub open spec fn is_white(c: char) -> bool {
    ||| '\u{9}' <= c <= '\u{d}'
    ||| c == ' '
    ||| c == '\u{85}'
    ||| c == '\u{a0}'
    ||| c == '\u{1680}'
    ||| '\u{2000}' <= c <= '\u{200a}'
    ||| c == '\u{2028}'
    ||| c == '\u{2029}'
    ||| c == '\u{202f}'
    ||| c == '\u{205f}'
    ||| c == '\u{3000}'
}

/// Whether `c` is Unicode white space.
pub fn white(c: char) -> (r: bool)
    ensures
        r == is_white(c),
{
    ('\u{9}' <= c && c <= '\u{d}') || c == ' ' || c == '\u{85}' || c == '\u{a0}' || c == '\u{1680}'
        || ('\u{2000}' <= c && c <= '\u{200a}') || c == '\u{2028}' || c == '\u{2029}' || c
        == '\u{202f}' || c == '\u{205f}' || c == '\u{3000}'
}

/// The words of `s`: its runs of characters that are not white space.
pub open spec fn words(s: Seq<char>) -> Seq<Seq<char>> {
    pieces(s, |c: char| is_white(c)).filter(|p: Seq<char>| p.len() > 0)
}

/// Where `s`, read from the front, first shows a character that is not white.
pub open spec fn trim_start(s: Seq<char>) -> Seq<char>
    decreases s.len(),
{
    if s.len() > 0 && is_white(s[0]) {
        trim_start(s.skip(1))
    } else {
        s
    }
}

/// `s` without the white space at its end.
pub open spec fn trim_end(s: Seq<char>) -> Seq<char>
    decreases s.len(),
{
    if s.len() > 0 && is_white(s.last()) {
        trim_end(s.drop_last())
    } else {
        s
    }
}

/// `s` without the white space at either end.
pub open spec fn trimmed(s: Seq<char>) -> Seq<char> {
    trim_end(trim_start(s))
}

/// `s` without the white space at either end.
pub fn trim(s: &str) -> (r: String)
    ensures
        r@ == trimmed(s@),
{
    let cs = chars_of(s);
    let mut a: usize = 0;
    assert(s@.skip(0) =~= s@);
    while a < cs.len() && white(cs[a])
        invariant
            a <= cs@.len(),
            cs@ == s@,
            trim_start(s@) == trim_start(s@.skip(a as int)),
        decreases cs@.len() - a,
    {
        assert(s@.skip(a as int).skip(1) =~= s@.skip(a + 1));
        a += 1;
    }
    let ghost t = s@.skip(a as int);
    assert(trim_start(s@) == t);
    let mut b: usize = cs.len();
    assert(t =~= s@.subrange(a as int, b as int));
    while b > a && white(cs[b - 1])
        invariant
            a <= b <= cs@.len(),
            cs@ == s@,
            trim_end(t) == trim_end(s@.subrange(a as int, b as int)),
        decreases b,
    {
        assert(s@.subrange(a as int, b as int).drop_last() =~= s@.subrange(a as int, b - 1));
        b -= 1;
    }
    let r = string_of(&cs.as_slice()[a..b]);
    r
}

/// `s` without the white space at its end.
pub fn trim_right(s: &str) -> (r: String)
    ensures
        r@ == trim_end(s@),
{
    let cs = chars_of(s);
    let mut b: usize = cs.len();
    assert(s@.take(b as int) =~= s@);
    while b > 0 && white(cs[b - 1])
        invariant
            b <= cs@.len(),
            cs@ == s@,
            trim_end(s@) == trim_end(s@.take(b as int)),
        decreases b,
    {
        assert(s@.take(b as int).drop_last() =~= s@.take(b - 1));
        b -= 1;
    }
    assert(s@.subrange(0, b as int) =~= s@.take(b as int));
    string_of(&cs.as_slice()[0..b])
}

/// The words of `s`, in order.
pub fn split_words(s: &str) -> (r: Vec<String>)
    ensures
        strs(r@) == words(s@),
{
    let ghost sep = |c: char| is_white(c);
    let ghost full = |p: Seq<char>| p.len() > 0;
    let cs = chars_of(s);
    let mut out: Vec<String> = Vec::new();
    let mut cur = String::new();
    let mut i: usize = 0;
    assert(s@.take(0) =~= Seq::<char>::empty());
    assert(seq![Seq::<char>::empty()].drop_last() =~= Seq::<Seq<char>>::empty());
    proof {
        reveal_with_fuel(Seq::filter, 1);
    }
    assert(strs(out@) =~= Seq::<Seq<char>>::empty());
    while i < cs.len()
        invariant
            i <= cs@.len(),
            cs@ == s@,
            sep == (|c: char| is_white(c)),
            full == (|p: Seq<char>| p.len() > 0),
            pieces(s@.take(i as int), sep).len() > 0,
            cur@ == pieces(s@.take(i as int), sep).last(),
            strs(out@) == pieces(s@.take(i as int), sep).drop_last().filter(full),
        decreases cs@.len() - i,
    {
        let c = cs[i];
        let ghost t0 = s@.take(i as int);
        let ghost t1 = s@.take(i + 1);
        let ghost p0 = pieces(t0, sep);
        assert(t1.drop_last() =~= t0);
        assert(t1.last() == c);
        if white(c) {
            proof {
                assert(pieces(t1, sep) == p0.push(Seq::empty()));
                assert(pieces(t1, sep).drop_last() =~= p0);
                lemma_filter_last(p0, full);
            }
            if cur.as_str().is_empty() {
            } else {
                let ghost before = out@;
                out.push(cur);
                assert(strs(out@) =~= strs(before).push(cur@));
            }
            cur = String::new();
        } else {
            assert(pieces(t1, sep).drop_last() =~= p0.drop_last());
            cur.push(c);
        }
        i += 1;
    }
    assert(s@.take(i as int) =~= s@);
    let ghost p = pieces(s@, sep);
    proof {
        lemma_filter_last(p, full);
    }
    if !cur.as_str().is_empty() {
        let ghost before = out@;
        out.push(cur);
        assert(strs(out@) =~= strs(before).push(cur@));
    }
    out
}

/// Filtering a sequence keeps its last element exactly when the test holds of it.
pub proof fn lemma_filter_last<T>(s: Seq<T>, f: spec_fn(T) -> bool)
    requires
        s.len() > 0,
    ensures
        s.filter(f) == (if f(s.last()) {
            s.drop_last().filter(f).push(s.last())
        } else {
            s.drop_last().filter(f)
        }),
{
    reveal_with_fuel(Seq::filter, 2);
}

/// One line without its line feed: a carriage return right before the line feed
/// goes with it.
pub open spec fn strip_cr(line: Seq<char>) -> Seq<char> {
    if line.len() > 0 && line.last() == '\r' {
        line.drop_last()
    } else {
        line
    }
}

/// The lines of `s`: the pieces between line feeds, the last one only where it is
/// not empty.
pub open spec fn lines(s: Seq<char>) -> Seq<Seq<char>> {
    let p = pieces(s, |c: char| c == '\n');
    let whole = p.drop_last().map_values(|l: Seq<char>| strip_cr(l));
    if p.last().len() == 0 {
        whole
    } else {
        whole.push(p.last())
    }
}

/// The lines of `s`, in order, without their line ends.
pub fn split_lines(s: &str) -> (r: Vec<String>)
    ensures
        strs(r@) == lines(s@),
{
    let ghost sep = |c: char| c == '\n';
    let ghost cr = |l: Seq<char>| strip_cr(l);
    let cs = chars_of(s);
    let mut out: Vec<String> = Vec::new();
    let mut cur: Vec<char> = Vec::new();
    let mut i: usize = 0;
    assert(s@.take(0) =~= Seq::<char>::empty());
    assert(strs(out@) =~= pieces(s@.take(0), sep).drop_last().map_values(cr));
    while i < cs.len()
        invariant
            i <= cs@.len(),
            cs@ == s@,
            sep == (|c: char| c == '\n'),
            cr == (|l: Seq<char>| strip_cr(l)),
            pieces(s@.take(i as int), sep).len() > 0,
            cur@ == pieces(s@.take(i as int), sep).last(),
            strs(out@) == pieces(s@.take(i as int), sep).drop_last().map_values(cr),
        decreases cs@.len() - i,
    {
        let c = cs[i];
        let ghost t0 = s@.take(i as int);
        let ghost t1 = s@.take(i + 1);
        let ghost p0 = pieces(t0, sep);
        assert(t1.drop_last() =~= t0);
        assert(t1.last() == c);
        if c == '\n' {
            let n: usize = cur.len();
            let line = if n > 0 && cur[n - 1] == '\r' {
                assert(cur@.subrange(0, n - 1) =~= cur@.drop_last());
                string_of(&cur.as_slice()[0..n - 1])
            } else {
                string_of(cur.as_slice())
            };
            let ghost before = out@;
            out.push(line);
            assert(strs(out@) =~= strs(before).push(line@));
            assert(pieces(t1, sep).drop_last() =~= p0);
            assert(p0.map_values(cr) =~= p0.drop_last().map_values(cr).push(strip_cr(p0.last())));
            cur = Vec::new();
        } else {
            assert(pieces(t1, sep).drop_last() =~= p0.drop_last());
            cur.push(c);
        }
        i += 1;
    }
    assert(s@.take(i as int) =~= s@);
    if cur.len() > 0 {
        let last = string_of(cur.as_slice());
        let ghost before = out@;
        out.push(last);
        assert(strs(out@) =~= strs(before).push(last@));
    }
    out
}

// ---- case -------------------------------------------------------------------

/// `c` in lower case, where it is an ASCII letter.
pub open spec fn lower(c: char) -> char {
    if 'A' <= c <= 'Z' {
        (c as u32 + 32) as char
    } else {
        c
    }
}

/// `s` with its ASCII letters in lower case.
pub open spec fn lowered(s: Seq<char>) -> Seq<char> {
    s.map_values(|c: char| lower(c))
}

/// `s` with its ASCII letters in lower case.
pub fn to_lower(s: &str) -> (r: String)
    ensures
        r@ == lowered(s@),
{
    let cs = chars_of(s);
    let mut out = String::new();
    let mut i: usize = 0;
    while i < cs.len()
        invariant
            i <= cs@.len(),
            cs@ == s@,
            out@ == lowered(s@.take(i as int)),
        decreases cs@.len() - i,
    {
        let c = cs[i];
        let d = if 'A' <= c && c <= 'Z' {
            (c as u8 + 32) as char
        } else {
            c
        };
        out.push(d);
        assert(lowered(s@.take(i + 1)) =~= lowered(s@.take(i as int)).push(d));
        i += 1;
    }
    assert(s@.take(i as int) =~= s@);
    out
}

/// A filter keeps only items that pass it, all of them items of the sequence.
pub proof fn lemma_filter_members<T>(s: Seq<T>, f: spec_fn(T) -> bool, k: int)
    requires
        0 <= k < s.filter(f).len(),
    ensures
        f(s.filter(f)[k]),
        exists|i: int| 0 <= i < s.len() && s[i] == s.filter(f)[k],
    decreases s.len(),
{
    reveal_with_fuel(Seq::filter, 2);
    if s.len() > 0 {
        lemma_filter_last(s, f);
        let before = s.drop_last().filter(f);
        if k < before.len() {
            lemma_filter_members(s.drop_last(), f, k);
            let i = choose|i: int| 0 <= i < s.drop_last().len() && s.drop_last()[i] == before[k];
            assert(s[i] == s.filter(f)[k]);
        } else {
            assert(s[s.len() - 1] == s.filter(f)[k]);
        }
    }
}

/// A filter keeps every item that passes it.
pub proof fn lemma_filter_keeps<T>(s: Seq<T>, f: spec_fn(T) -> bool, i: int)
    requires
        0 <= i < s.len(),
        f(s[i]),
    ensures
        s.filter(f).contains(s[i]),
    decreases s.len(),
{
    lemma_filter_last(s, f);
    let kept = s.filter(f);
    if i == s.len() - 1 {
        assert(kept[kept.len() - 1] == s[i]);
    } else {
        lemma_filter_keeps(s.drop_last(), f, i);
        let before = s.drop_last().filter(f);
        let k = choose|k: int| 0 <= k < before.len() && before[k] == s[i];
        assert(kept[k] == s[i]);
    }
}

/// A filter makes no item double.
pub proof fn lemma_filter_distinct<T>(s: Seq<T>, f: spec_fn(T) -> bool)
    requires
        s.no_duplicates(),
    ensures
        s.filter(f).no_duplicates(),
    decreases s.len(),
{
    reveal_with_fuel(Seq::filter, 1);
    if s.len() > 0 {
        lemma_filter_last(s, f);
        lemma_filter_distinct(s.drop_last(), f);
        let before = s.drop_last().filter(f);
        let kept = s.filter(f);
        assert forall|a: int, b: int|
            0 <= a < kept.len() && 0 <= b < kept.len() && a != b implies kept[a] != kept[b] by {
            if a < before.len() {
                lemma_filter_members(s.drop_last(), f, a);
            }
            if b < before.len() {
                lemma_filter_members(s.drop_last(), f, b);
            }
        }
    }
}

// ---- order ----------------------------------------------------------------------

/// Whether `a` comes before `b`, character by character.
pub open spec fn text_lt(a: Seq<char>, b: Seq<char>) -> bool
    decreases a.len(),
{
    if b.len() == 0 {
        false
    } else if a.len() == 0 {
        true
    } else {
        (a[0] as u32) < (b[0] as u32) || (a[0] == b[0] && text_lt(a.skip(1), b.skip(1)))
    }
}

/// Of two texts one comes first, or they are equal.
pub proof fn lemma_text_total(a: Seq<char>, b: Seq<char>)
    ensures
        text_lt(a, b) || text_lt(b, a) || a == b,
        !(text_lt(a, b) && text_lt(b, a)),
        a == b ==> !text_lt(a, b),
    decreases a.len(),
{
    if a.len() > 0 && b.len() > 0 {
        lemma_text_total(a.skip(1), b.skip(1));
        vstd::utf8::char_u32_cast(a[0], a[0] as u32);
        vstd::utf8::char_u32_cast(b[0], b[0] as u32);
        if a[0] == b[0] && a.skip(1) == b.skip(1) {
            assert(a =~= seq![a[0]] + a.skip(1));
            assert(b =~= seq![b[0]] + b.skip(1));
        }
    } else if a.len() == 0 && b.len() == 0 {
        assert(a =~= b);
    }
}

/// The order is transitive.
pub proof fn lemma_text_trans(a: Seq<char>, b: Seq<char>, c: Seq<char>)
    requires
        text_lt(a, b),
        text_lt(b, c),
    ensures
        text_lt(a, c),
    decreases a.len(),
{
    if a.len() > 0 && b.len() > 0 && c.len() > 0 && a[0] == b[0] && b[0] == c[0] {
        lemma_text_trans(a.skip(1), b.skip(1), c.skip(1));
    }
}

/// Whether `a` comes before `b`, character by character.
pub fn comes_before(a: &str, b: &str) -> (r: bool)
    ensures
        r == text_lt(a@, b@),
{
    let x = chars_of(a);
    let y = chars_of(b);
    let mut i: usize = 0;
    assert(x@.skip(0) =~= a@);
    assert(y@.skip(0) =~= b@);
    while i < x.len() && i < y.len() && x[i] == y[i]
        invariant
            x@ == a@,
            y@ == b@,
            i <= x@.len(),
            i <= y@.len(),
            text_lt(a@, b@) == text_lt(x@.skip(i as int), y@.skip(i as int)),
        decreases x@.len() - i,
    {
        assert(x@.skip(i as int).skip(1) =~= x@.skip(i + 1));
        assert(y@.skip(i as int).skip(1) =~= y@.skip(i + 1));
        i += 1;
    }
    if i >= y.len() {
        false
    } else if i >= x.len() {
        true
    } else {
        (x[i] as u32) < (y[i] as u32)
    }
}

// ---- layout ---------------------------------------------------------------------

/// The texts, one after the other, with `sep` between them.
pub open spec fn joined_by(v: Seq<Seq<char>>, sep: Seq<char>) -> Seq<char>
    decreases v.len(),
{
    if v.len() == 0 {
        Seq::empty()
    } else if v.len() == 1 {
        v[0]
    } else {
        joined_by(v.drop_last(), sep) + sep + v.last()
    }
}

/// The texts, one after the other, with `sep` between them.
pub fn join_by(v: &Vec<String>, sep: &str) -> (r: String)
    ensures
        r@ == joined_by(strs(v@), sep@),
{
    let ghost all = strs(v@);
    let mut out = String::new();
    let mut i: usize = 0;
    assert(all.take(0) =~= Seq::<Seq<char>>::empty());
    while i < v.len()
        invariant
            all == strs(v@),
            i <= v@.len(),
            out@ == joined_by(all.take(i as int), sep@),
        decreases v@.len() - i,
    {
        assert(all.take(i + 1).drop_last() =~= all.take(i as int));
        if i > 0 {
            out.append(sep);
        }
        let ghost before = out@;
        out.append(v[i].as_str());
        assert(all.take(i + 1).last() == v@[i as int]@);
        if i == 0 {
            assert(out@ =~= v@[0]@);
        }
        i += 1;
    }
    assert(all.take(all.len() as int) =~= all);
    out
}

/// `s` with spaces before it, up to `n` characters.
pub open spec fn right_aligned(s: Seq<char>, n: nat) -> Seq<char>
    decreases n,
{
    if n <= s.len() {
        s
    } else {
        seq![' '] + right_aligned(s, (n - 1) as nat)
    }
}

/// `s` with spaces before it, up to `n` characters.
pub fn align_right(s: &str, n: usize) -> (r: String)
    ensures
        r@ == right_aligned(s@, n as nat),
    decreases n,
{
    let len: usize = chars_of(s).len();
    if n <= len {
        s.to_owned()
    } else {
        let mut out = String::new();
        out.push(' ');
        out.append(align_right(s, n - 1).as_str());
        assert(out@ =~= seq![' '] + right_aligned(s@, (n - 1) as nat));
        out
    }
}

/// The digits of `n` in base ten, after `-` where it is negative.
pub open spec fn signed_decimal(n: int) -> Seq<char> {
    if n < 0 {
        seq!['-'] + decimal((-n) as nat)
    } else {
        decimal(n as nat)
    }
}

/// The digits of `n` in base ten, after `-` where it is negative.
pub fn signed_decimal_string(n: i32) -> (r: String)
    ensures
        r@ == signed_decimal(n as int),
{
    if n < 0 {
        let mut out = String::new();
        out.push('-');
        out.append(decimal_string((-(n as i64)) as u64).as_str());
        assert(out@ =~= seq!['-'] + decimal((-n) as nat));
        out
    } else {
        decimal_string(n as u64)
    }
}

} // verus!
