//! Small shared helpers: human-readable sizes, sums, colors, the output of `df`.

use vstd::prelude::*;

use crate::text;
use crate::text::{decimal_string, parse_u64, split_lines, split_words};

verus! {

// ---- sums -----------------------------------------------------------------------

/// The numbers, added up.
pub open spec fn sum(v: Seq<u64>) -> nat
    decreases v.len(),
{
    if v.len() == 0 {
        0
    } else {
        sum(v.drop_last()) + v.last() as nat
    }
}

/// The sum in 64 bits, where larger sums wrap around.
#[verifier::opaque]
pub open spec fn sum64(v: Seq<u64>) -> u64 {
    (sum(v) % 0x1_0000_0000_0000_0000) as u64
}

/// The sum of numbers that fits in 64 bits is that sum.
pub proof fn law_sum_is_exact(v: Seq<u64>)
    requires
        sum(v) <= u64::MAX,
    ensures
        sum64(v) == sum(v),
{
    reveal(sum64);
}

/// The numbers, added up in 64 bits.
pub fn total(v: &Vec<u64>) -> (r: u64)
    ensures
        r == sum64(v@),
{
    let mut t: u64 = 0;
    let mut i: usize = 0;
    assert(v@.take(0).len() == 0);
    proof {
        reveal(sum64);
    }
    while i < v.len()
        invariant
            i <= v@.len(),
            t == sum64(v@.take(i as int)),
        decreases v@.len() - i,
    {
        proof {
            reveal(sum64);
            assert(v@.take(i + 1).drop_last() =~= v@.take(i as int));
        }
        t = t.wrapping_add(v[i]);
        i += 1;
    }
    assert(v@.take(v@.len() as int) =~= v@);
    t
}

// ---- sizes ----------------------------------------------------------------------

/// `a / d` to the nearest whole number, and halfway between two to the even one.
pub open spec fn half_even(a: nat, d: nat) -> nat {
    let q = a / d;
    let r = a % d;
    if 2 * r < d || (2 * r == d && q % 2 == 0) {
        q
    } else {
        q + 1
    }
}

/// The step between neighbouring numbers of 53 significant bits at `b`.
pub open spec fn step(b: nat) -> nat
    decreases b,
{
    if b < 0x20_0000_0000_0000 {
        1
    } else {
        2 * step(b / 2)
    }
}

/// `b` rounded to 53 significant bits.
pub open spec fn round53(b: nat) -> nat {
    half_even(b, step(b)) * step(b)
}

/// The unit that a number of bytes is shown in: how often it can be divided by
/// 1024, at most five times.
pub open spec fn unit(v: nat) -> nat {
    if v < 0x400 {
        0
    } else if v < 0x10_0000 {
        1
    } else if v < 0x4000_0000 {
        2
    } else if v < 0x100_0000_0000 {
        3
    } else if v < 0x4_0000_0000_0000 {
        4
    } else {
        5
    }
}

/// The bytes of one of a unit.
pub open spec fn unit_bytes(u: nat) -> nat {
    if u == 0 {
        1
    } else if u == 1 {
        0x400
    } else if u == 2 {
        0x10_0000
    } else if u == 3 {
        0x4000_0000
    } else if u == 4 {
        0x100_0000_0000
    } else {
        0x4_0000_0000_0000
    }
}

/// The name of a unit.
pub open spec fn unit_name(u: nat) -> Seq<char> {
    if u == 0 {
        "B"@
    } else if u == 1 {
        "KB"@
    } else if u == 2 {
        "MB"@
    } else if u == 3 {
        "GB"@
    } else if u == 4 {
        "TB"@
    } else {
        "PB"@
    }
}

/// A number of tenths with one decimal.
pub open spec fn with_tenths(t: nat) -> Seq<char> {
    text::decimal(t / 10) + "."@ + text::decimal(t % 10)
}

/// A byte count as a short human-readable string (base 1024): whole bytes below
/// 1024, else one decimal in the largest unit that fits. Counts are taken to 53
/// significant bits first.
pub open spec fn human_size(bytes: u64) -> Seq<char> {
    if bytes < 1024 {
        text::decimal(bytes as nat) + " B"@
    } else {
        let v = round53(bytes as nat);
        let u = unit(v);
        with_tenths(half_even(v * 10, unit_bytes(u))) + " "@ + unit_name(u)
    }
}

fn to_half_even(a: u128, d: u128) -> (r: u128)
    requires
        0 < d <= 0x1_0000_0000_0000_0000,
        a <= 0x1_0000_0000_0000_0000_0000_0000,
    ensures
        r == half_even(a as nat, d as nat),
        r <= a / d + 1,
{
    let q: u128 = a / d;
    let m: u128 = a % d;
    if 2 * m < d || (2 * m == d && q % 2 == 0) {
        q
    } else {
        assert(q <= a) by (nonlinear_arith)
            requires
                q == a / d,
                d > 0,
        ;
        q + 1
    }
}

fn step_of(b: u64) -> (r: u64)
    ensures
        r == step(b as nat),
        1 <= r <= 2048,
        b < 0x20_0000_0000_0000 * r,
    decreases b,
{
    if b < 0x20_0000_0000_0000 {
        1
    } else {
        let half: u64 = step_of(b / 2);
        proof {
            if half > 1024 {
                // `half` is a power of two above 1024 only for numbers beyond 64 bits.
                lemma_step_bound(b as nat / 2);
            }
        }
        2 * half
    }
}

proof fn lemma_step_bound(b: nat)
    requires
        b < 0x8000_0000_0000_0000,
    ensures
        step(b) <= 1024,
{
    reveal_with_fuel(step, 12);
}

fn rounded53(b: u64) -> (r: u128)
    ensures
        r == round53(b as nat),
        r <= 0x1_0000_0000_0000_0000,
        b >= 1024 ==> r >= 1024,
{
    let s: u64 = step_of(b);
    let q: u128 = to_half_even(b as u128, s as u128);
    proof {
        lemma_round53_range(b as nat, s as nat);
        assert(q * s <= 0x1_0000_0000_0000_0000);
    }
    q * s as u128
}

proof fn lemma_round53_range(b: nat, s: nat)
    requires
        b < 0x1_0000_0000_0000_0000,
        s == step(b),
    ensures
        half_even(b, s) * s <= 0x1_0000_0000_0000_0000,
        b >= 1024 ==> half_even(b, s) * s >= 1024,
{
    lemma_step_divides(b);
    let q = b / s;
    let top = 0x1_0000_0000_0000_0000nat;
    let k = choose|k: nat| #![trigger k * step(b)] k * step(b) == 0x1_0000_0000_0000_0000;
    assert(q < k) by (nonlinear_arith)
        requires
            q == b / s,
            b < top,
            k * s == top,
            s > 0,
    ;
    assert((q + 1) * s <= k * s) by (nonlinear_arith)
        requires
            q + 1 <= k,
    ;
    assert(q * s <= (q + 1) * s) by (nonlinear_arith);
    if b >= 1024 {
        if s == 1 {
            assert(q == b && b % s == 0) by (nonlinear_arith)
                requires
                    q == b / s,
                    s == 1,
            ;
            assert(q * s == b) by (nonlinear_arith)
                requires
                    q == b,
                    s == 1,
            ;
        } else {
            assert(q * s > b - s) by (nonlinear_arith)
                requires
                    q == b / s,
                    s > 0,
            ;
        }
    }
}

proof fn lemma_step_divides(b: nat)
    requires
        b < 0x1_0000_0000_0000_0000,
    ensures
        0 < step(b) <= 2048,
        exists|k: nat| #![trigger k * step(b)] k * step(b) == 0x1_0000_0000_0000_0000,
        step(b) > 1 ==> b >= 0x20_0000_0000_0000,
{
    reveal_with_fuel(step, 13);
    let s = step(b);
    let top = 0x1_0000_0000_0000_0000nat;
    assert(s == 1 || s == 2 || s == 4 || s == 8 || s == 16 || s == 32 || s == 64 || s == 128 || s == 256 || s == 512 || s == 1024 || s == 2048);
    if s == 1 {
        assert(18446744073709551616nat * s == top);
    }
    if s == 2 {
        assert(9223372036854775808nat * s == top);
    }
    if s == 4 {
        assert(4611686018427387904nat * s == top);
    }
    if s == 8 {
        assert(2305843009213693952nat * s == top);
    }
    if s == 16 {
        assert(1152921504606846976nat * s == top);
    }
    if s == 32 {
        assert(576460752303423488nat * s == top);
    }
    if s == 64 {
        assert(288230376151711744nat * s == top);
    }
    if s == 128 {
        assert(144115188075855872nat * s == top);
    }
    if s == 256 {
        assert(72057594037927936nat * s == top);
    }
    if s == 512 {
        assert(36028797018963968nat * s == top);
    }
    if s == 1024 {
        assert(18014398509481984nat * s == top);
    }
    if s == 2048 {
        assert(9007199254740992nat * s == top);
    }
}

/// Format a byte count as a short human-readable string (base 1024).
pub fn human(bytes: u64) -> (r: String)
    ensures
        r@ == human_size(bytes),
{
    if bytes < 1024 {
        let mut out = decimal_string(bytes);
        out.append(" B");
        return out;
    }
    let v: u128 = rounded53(bytes);
    let (div, name): (u128, &'static str) = if v < 0x10_0000 {
        (0x400, "KB")
    } else if v < 0x4000_0000 {
        (0x10_0000, "MB")
    } else if v < 0x100_0000_0000 {
        (0x4000_0000, "GB")
    } else if v < 0x4_0000_0000_0000 {
        (0x100_0000_0000, "TB")
    } else {
        (0x4_0000_0000_0000, "PB")
    };
    let tenths: u128 = to_half_even(v * 10, div);
    assert(tenths <= 0x1_0000_0000_0000_0000 * 10 / 0x400 + 1) by (nonlinear_arith)
        requires
            tenths <= (v * 10) / (div as int) + 1,
            v <= 0x1_0000_0000_0000_0000,
            div >= 0x400,
    ;
    let mut out = decimal_string((tenths / 10) as u64);
    out.append(".");
    out.append(decimal_string((tenths % 10) as u64).as_str());
    out.append(" ");
    out.append(name);
    assert(out@ =~= human_size(bytes));
    out
}

// ---- colors ---------------------------------------------------------------------

/// One step of FNV-1a in 32 bits.
pub open spec fn fnv32_step(h: u32, b: u8) -> u32 {
    (((h ^ (b as u32)) * 16777619) % 0x1_0000_0000) as u32
}

/// FNV-1a of the bytes, in 32 bits.
pub open spec fn fnv32(b: Seq<u8>) -> u32
    decreases b.len(),
{
    if b.len() == 0 {
        2166136261
    } else {
        fnv32_step(fnv32(b.drop_last()), b.last())
    }
}

/// The hue of a name in degrees, the same for the same name.
pub fn hue_of(s: &str) -> (r: u32)
    ensures
        r == fnv32(vstd::utf8::encode_utf8(s@)) % 360,
{
    let b = s.as_bytes();
    let ghost all = vstd::utf8::encode_utf8(s@);
    let mut h: u32 = 2166136261;
    let mut i: usize = 0;
    assert(all.take(0).len() == 0);
    while i < b.len()
        invariant
            b@ == all,
            i <= b@.len(),
            h == fnv32(all.take(i as int)),
        decreases b@.len() - i,
    {
        assert(all.take(i + 1).drop_last() =~= all.take(i as int));
        h = (h ^ (b[i] as u32)).wrapping_mul(16777619);
        i += 1;
    }
    assert(all.take(all.len() as int) =~= all);
    h % 360
}

/// Whether black text is the legible one on a background of the given color.
pub fn dark_text_on(r: u8, g: u8, b: u8) -> (dark: bool)
    ensures
        dark == (r + g + b > 380),
{
    r as u32 + g as u32 + b as u32 > 380
}

// ---- df ---------------------------------------------------------------------------

/// The bytes of a count of 1024-byte blocks, in 64 bits.
pub open spec fn block_bytes(n: nat) -> u64 {
    ((n * 1024) % 0x1_0000_0000_0000_0000) as u64
}

/// The number in one column of a line.
pub open spec fn column(line: Seq<char>, k: int) -> Option<nat> {
    let cols = text::words(line);
    if k < cols.len() {
        match text::unsigned_value(cols[k]) {
            Some(n) => if n <= u64::MAX {
                Some(n)
            } else {
                None
            },
            None => None,
        }
    } else {
        None
    }
}

/// Total and available bytes from what `df -k -P` printed: the second line has
/// the columns file system, 1024-blocks, used, available, capacity, mount point.
pub open spec fn df_usage(out: Seq<char>) -> Option<(u64, u64)> {
    let ls = text::lines(out);
    if ls.len() < 2 {
        None
    } else {
        match (column(ls[1], 1), column(ls[1], 3)) {
            (Some(t), Some(a)) => Some((block_bytes(t), block_bytes(a))),
            _ => None,
        }
    }
}

fn number_in(cols: &Vec<String>, k: usize) -> (r: Option<u64>)
    ensures
        r == (if k < cols@.len() {
            match text::unsigned_value(cols@[k as int]@) {
                Some(n) => if n <= u64::MAX {
                    Some(n as u64)
                } else {
                    None
                },
                None => None,
            }
        } else {
            None
        }),
{
    if k < cols.len() {
        parse_u64(cols[k].as_str())
    } else {
        None
    }
}

/// Total and available bytes from what `df -k -P` printed.
pub fn disk_usage(out: &str) -> (r: Option<(u64, u64)>)
    ensures
        r == df_usage(out@),
{
    let ls = split_lines(out);
    if ls.len() < 2 {
        return None;
    }
    assert(text::lines(out@)[1] == ls@[1]@);
    let cols = split_words(ls[1].as_str());
    assert(forall|k: int|
        0 <= k < cols@.len() ==> #[trigger] text::words(ls@[1]@)[k] == cols@[k]@);
    match (number_in(&cols, 1), number_in(&cols, 3)) {
        (Some(t), Some(a)) => Some((t.wrapping_mul(1024), a.wrapping_mul(1024))),
        _ => None,
    }
}

} // verus!
