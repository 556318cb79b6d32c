//! Little-endian numbers and length-prefixed strings: the building blocks of
//! the on-disk index.

use vstd::prelude::*;
use vstd::utf8::*;

verus! {

/// 256 to the power `n`.
pub open spec fn pow256(n: nat) -> nat
    decreases n,
{
    if n == 0 {
        1
    } else {
        256 * pow256((n - 1) as nat)
    }
}

/// The `n` low bytes of `v`, least significant first.
pub open spec fn le(v: nat, n: nat) -> Seq<u8>
    decreases n,
{
    if n == 0 {
        Seq::empty()
    } else {
        seq![(v % 256) as u8] + le(v / 256, (n - 1) as nat)
    }
}

/// The number whose bytes, least significant first, are `s`.
pub open spec fn le_value(s: Seq<u8>) -> nat
    decreases s.len(),
{
    if s.len() == 0 {
        0
    } else {
        s[0] as nat + 256 * le_value(s.skip(1))
    }
}

pub proof fn lemma_pow256()
    ensures
        pow256(1) == 0x100,
        pow256(4) == 0x1_0000_0000,
        pow256(8) == 0x1_0000_0000_0000_0000,
{
    reveal_with_fuel(pow256, 9);
}

pub proof fn lemma_le_len(v: nat, n: nat)
    ensures
        le(v, n).len() == n,
    decreases n,
{
    if n > 0 {
        lemma_le_len(v / 256, (n - 1) as nat);
    }
}

pub proof fn lemma_le_value_bound(s: Seq<u8>)
    ensures
        le_value(s) < pow256(s.len()),
    decreases s.len(),
{
    if s.len() > 0 {
        lemma_le_value_bound(s.skip(1));
    }
}

/// A number that fits in `n` bytes comes back from them.
pub proof fn lemma_value_of_le(v: nat, n: nat)
    requires
        v < pow256(n),
    ensures
        le_value(le(v, n)) == v,
    decreases n,
{
    if n > 0 {
        lemma_le_len(v / 256, (n - 1) as nat);
        lemma_value_of_le(v / 256, (n - 1) as nat);
        assert(le(v, n).skip(1) =~= le(v / 256, (n - 1) as nat));
    }
}

/// Bytes come back from the number that they stand for.
pub proof fn lemma_le_of_value(s: Seq<u8>)
    ensures
        le(le_value(s), s.len()) == s,
    decreases s.len(),
{
    if s.len() > 0 {
        lemma_le_of_value(s.skip(1));
        let v = le_value(s);
        let w = le_value(s.skip(1));
        assert(v / 256 == w && v % 256 == s[0]);
        assert(seq![s[0]] + s.skip(1) =~= s);
    } else {
        assert(s =~= Seq::<u8>::empty());
    }
}

/// The two's complement of `v` in 64 bits.
pub open spec fn twos(v: i64) -> nat {
    if v >= 0 {
        v as nat
    } else {
        (v + 0x1_0000_0000_0000_0000) as nat
    }
}

/// The signed number whose two's complement is `n`.
pub open spec fn signed(n: nat) -> int {
    if n < 0x8000_0000_0000_0000 {
        n as int
    } else {
        n - 0x1_0000_0000_0000_0000
    }
}

/// A string as its length in bytes (in four bytes, so modulo 2^32), then its
/// UTF-8 bytes.
pub open spec fn enc_str(s: Seq<char>) -> Seq<u8> {
    let b = encode_utf8(s);
    le(b.len() % 0x1_0000_0000, 4) + b
}

/// Whether the length of `s` can be written in four bytes.
pub open spec fn fits(s: Seq<char>) -> bool {
    encode_utf8(s).len() < 0x1_0000_0000
}

// ---- writing ----------------------------------------------------------------

/// Append the `n` low bytes of `v`.
fn put_le(out: &mut Vec<u8>, v: u64, n: usize)
    ensures
        final(out)@ == old(out)@ + le(v as nat, n as nat),
{
    let mut rest: u64 = v;
    let mut k: usize = 0;
    assert(out@ + le(rest as nat, (n - k) as nat) =~= old(out)@ + le(v as nat, n as nat));
    while k < n
        invariant
            k <= n,
            out@ + le(rest as nat, (n - k) as nat) == old(out)@ + le(v as nat, n as nat),
        decreases n - k,
    {
        let ghost before = out@;
        let b: u8 = (rest % 256) as u8;
        assert(le(rest as nat, (n - k) as nat) == seq![b] + le(
            (rest / 256) as nat,
            (n - k - 1) as nat,
        ));
        out.push(b);
        assert(before.push(b) + le((rest / 256) as nat, (n - k - 1) as nat) =~= before + (seq![b]
            + le((rest / 256) as nat, (n - k - 1) as nat)));
        rest = rest / 256;
        k += 1;
    }
    assert(out@ =~= out@ + le(rest as nat, 0));
}

pub(crate) fn put_u32(out: &mut Vec<u8>, v: u32)
    ensures
        final(out)@ == old(out)@ + le(v as nat, 4),
{
    put_le(out, v as u64, 4);
}

pub(crate) fn put_u64(out: &mut Vec<u8>, v: u64)
    ensures
        final(out)@ == old(out)@ + le(v as nat, 8),
{
    put_le(out, v, 8);
}

pub(crate) fn put_i64(out: &mut Vec<u8>, v: i64)
    ensures
        final(out)@ == old(out)@ + le(twos(v), 8),
{
    if v >= 0 {
        put_le(out, v as u64, 8);
    } else {
        put_le(out, (v - i64::MIN) as u64 + 0x8000_0000_0000_0000, 8);
    }
}

pub(crate) fn put_bytes(out: &mut Vec<u8>, b: &[u8])
    ensures
        final(out)@ == old(out)@ + b@,
{
    let mut i: usize = 0;
    assert(old(out)@ + b@.take(0) =~= old(out)@);
    while i < b.len()
        invariant
            i <= b@.len(),
            out@ == old(out)@ + b@.take(i as int),
        decreases b@.len() - i,
    {
        out.push(b[i]);
        i += 1;
        assert(out@ =~= old(out)@ + b@.take(i as int));
    }
    assert(b@.take(b@.len() as int) =~= b@);
}

pub(crate) fn put_str(out: &mut Vec<u8>, s: &str)
    ensures
        final(out)@ == old(out)@ + enc_str(s@),
{
    let b = s.as_bytes();
    let n: usize = b.len();
    let low: u64 = (n as u64) % 0x1_0000_0000;
    put_u32(out, low as u32);
    put_bytes(out, b);
    assert(out@ =~= old(out)@ + enc_str(s@));
}

// ---- reading ----------------------------------------------------------------

/// A number of `n` bytes at the front of `b`, and what follows it.
#[verifier::opaque]
pub open spec fn dec_le(b: Seq<u8>, n: nat) -> Option<(nat, Seq<u8>)> {
    if n <= b.len() {
        Some((le_value(b.take(n as int)), b.skip(n as int)))
    } else {
        None
    }
}

/// A string at the front of `b`, and what follows it.
#[verifier::opaque]
pub open spec fn dec_str(b: Seq<u8>) -> Option<(Seq<char>, Seq<u8>)> {
    match dec_le(b, 4) {
        Some((n, rest)) => if n <= rest.len() && valid_utf8(rest.take(n as int)) {
            Some((decode_utf8(rest.take(n as int)), rest.skip(n as int)))
        } else {
            None
        },
        None => None,
    }
}

pub proof fn lemma_dec_le_of_le(v: nat, n: nat, tail: Seq<u8>)
    requires
        v < pow256(n),
    ensures
        dec_le(le(v, n) + tail, n) == Some((v, tail)),
{
    reveal(dec_le);
    lemma_le_len(v, n);
    lemma_value_of_le(v, n);
    assert((le(v, n) + tail).take(n as int) =~= le(v, n));
    assert((le(v, n) + tail).skip(n as int) =~= tail);
}

pub proof fn lemma_dec_le_inverse(b: Seq<u8>, n: nat)
    requires
        dec_le(b, n) is Some,
    ensures
        dec_le(b, n) matches Some((v, rest)) && b == le(v, n) + rest && v < pow256(n),
{
    reveal(dec_le);
    lemma_le_of_value(b.take(n as int));
    lemma_le_value_bound(b.take(n as int));
    assert(b =~= b.take(n as int) + b.skip(n as int));
}

pub proof fn lemma_dec_str_of_enc(s: Seq<char>, tail: Seq<u8>)
    requires
        fits(s),
    ensures
        dec_str(enc_str(s) + tail) == Some((s, tail)),
{
    reveal(dec_le);
    reveal(dec_str);
    let b = encode_utf8(s);
    lemma_pow256();
    lemma_dec_le_of_le(b.len(), 4, b + tail);
    assert(enc_str(s) + tail =~= le(b.len(), 4) + (b + tail));
    assert((b + tail).take(b.len() as int) =~= b);
    assert((b + tail).skip(b.len() as int) =~= tail);
    encode_utf8_valid_utf8(s);
    encode_utf8_decode_utf8(s);
}

pub proof fn lemma_dec_str_inverse(b: Seq<u8>)
    requires
        dec_str(b) is Some,
    ensures
        dec_str(b) matches Some((s, rest)) && b == enc_str(s) + rest && fits(s),
{
    reveal(dec_le);
    reveal(dec_str);
    lemma_pow256();
    lemma_dec_le_inverse(b, 4);
    let (n, rest) = dec_le(b, 4)->0;
    let t = rest.take(n as int);
    decode_utf8_encode_utf8(t);
    assert(rest =~= t + rest.skip(n as int));
    assert(b =~= enc_str(decode_utf8(t)) + rest.skip(n as int));
}

/// `String::from_utf8` succeeds exactly on valid UTF-8, and gives the characters
/// that the bytes encode.
#[verifier::external_body]
fn from_utf8(bytes: Vec<u8>) -> (r: Option<String>)
    ensures
        r is Some <==> valid_utf8(bytes@),
        r matches Some(s) ==> s@ == decode_utf8(bytes@),
{
    String::from_utf8(bytes).ok()
}

/// A place in a byte buffer.
pub(crate) struct Cursor<'a> {
    pub buf: &'a [u8],
    pub pos: usize,
}

impl<'a> Cursor<'a> {
    pub open(crate) spec fn wf(&self) -> bool {
        self.pos <= self.buf@.len()
    }

    /// The bytes from the cursor on.
    pub open(crate) spec fn rest(&self) -> Seq<u8> {
        self.buf@.skip(self.pos as int)
    }

    /// The next `n` bytes, where the buffer holds that many.
    pub(crate) fn take(&mut self, n: usize) -> (r: Option<Vec<u8>>)
        requires
            old(self).wf(),
        ensures
            final(self).wf(),
            final(self).buf == old(self).buf,
            r is Some <==> n <= old(self).rest().len(),
            r matches Some(v) ==> v@ == old(self).rest().take(n as int) && final(self).rest()
                == old(self).rest().skip(n as int),
    {
        let len: usize = self.buf.len();
        if n > len - self.pos {
            return None;
        }
        let mut out: Vec<u8> = Vec::new();
        let mut k: usize = 0;
        while k < n
            invariant
                k <= n,
                len == self.buf@.len(),
                self.pos + n <= len,
                *self == *old(self),
                out@ == self.buf@.skip(self.pos as int).take(k as int),
            decreases n - k,
        {
            out.push(self.buf[self.pos + k]);
            k += 1;
            assert(out@ =~= self.buf@.skip(self.pos as int).take(k as int));
        }
        self.pos = self.pos + n;
        assert(self.rest() =~= old(self).rest().skip(n as int));
        Some(out)
    }

    /// The next `n` bytes as a number.
    fn number(&mut self, n: usize) -> (r: Option<u64>)
        requires
            old(self).wf(),
            n <= 8,
        ensures
            final(self).wf(),
            final(self).buf == old(self).buf,
            r is Some <==> dec_le(old(self).rest(), n as nat) is Some,
            r matches Some(v) ==> dec_le(old(self).rest(), n as nat) == Some(
                (v as nat, final(self).rest()),
            ),
    {
        proof {
            reveal(dec_le);
        }
        let bytes = match self.take(n) {
            Some(b) => b,
            None => {
                return None;
            },
        };
        let mut v: u64 = 0;
        let mut k: usize = n;
        assert(bytes@.skip(n as int) =~= Seq::<u8>::empty());
        while k > 0
            invariant
                k <= n <= 8,
                n == bytes@.len(),
                v == le_value(bytes@.skip(k as int)),
            decreases k,
        {
            let ghost s = bytes@.skip(k - 1);
            assert(s.skip(1) =~= bytes@.skip(k as int));
            assert(s[0] == bytes@[k - 1]);
            proof {
                lemma_le_value_bound(s);
                reveal_with_fuel(pow256, 9);
                assert(le_value(s) == s[0] as nat + 256 * le_value(s.skip(1)));
            }
            k -= 1;
            v = v * 256 + bytes[k] as u64;
        }
        assert(bytes@.skip(0) =~= bytes@);
        Some(v)
    }

    pub(crate) fn u8(&mut self) -> (r: Option<u8>)
        requires
            old(self).wf(),
        ensures
            final(self).wf(),
            final(self).buf == old(self).buf,
            r is Some <==> dec_le(old(self).rest(), 1) is Some,
            r matches Some(v) ==> dec_le(old(self).rest(), 1) == Some(
                (v as nat, final(self).rest()),
            ),
    {
        proof {
            reveal(dec_le);
        }
        match self.number(1) {
            Some(v) => {
                proof {
                    lemma_le_value_bound(old(self).rest().take(1));
                    lemma_pow256();
                }
                Some(v as u8)
            },
            None => None,
        }
    }

    pub(crate) fn u32(&mut self) -> (r: Option<u32>)
        requires
            old(self).wf(),
        ensures
            final(self).wf(),
            final(self).buf == old(self).buf,
            r is Some <==> dec_le(old(self).rest(), 4) is Some,
            r matches Some(v) ==> dec_le(old(self).rest(), 4) == Some(
                (v as nat, final(self).rest()),
            ),
    {
        proof {
            reveal(dec_le);
        }
        match self.number(4) {
            Some(v) => {
                proof {
                    lemma_le_value_bound(old(self).rest().take(4));
                    lemma_pow256();
                }
                Some(v as u32)
            },
            None => None,
        }
    }

    pub(crate) fn u64(&mut self) -> (r: Option<u64>)
        requires
            old(self).wf(),
        ensures
            final(self).wf(),
            final(self).buf == old(self).buf,
            r is Some <==> dec_le(old(self).rest(), 8) is Some,
            r matches Some(v) ==> dec_le(old(self).rest(), 8) == Some(
                (v as nat, final(self).rest()),
            ),
    {
        self.number(8)
    }

    pub(crate) fn i64(&mut self) -> (r: Option<i64>)
        requires
            old(self).wf(),
        ensures
            final(self).wf(),
            final(self).buf == old(self).buf,
            r is Some <==> dec_le(old(self).rest(), 8) is Some,
            r matches Some(v) ==> dec_le(old(self).rest(), 8) == Some(
                (twos(v), final(self).rest()),
            ),
    {
        proof {
            reveal(dec_le);
        }
        match self.number(8) {
            Some(v) => if v < 0x8000_0000_0000_0000 {
                Some(v as i64)
            } else {
                Some((v - 0x8000_0000_0000_0000) as i64 + i64::MIN)
            },
            None => None,
        }
    }

    pub(crate) fn string(&mut self) -> (r: Option<String>)
        requires
            old(self).wf(),
        ensures
            final(self).wf(),
            final(self).buf == old(self).buf,
            r is Some <==> dec_str(old(self).rest()) is Some,
            r matches Some(s) ==> dec_str(old(self).rest()) == Some((s@, final(self).rest())),
    {
        proof {
            reveal(dec_le);
            reveal(dec_str);
        }
        let n: u32 = match self.u32() {
            Some(n) => n,
            None => {
                return None;
            },
        };
        match self.take(n as usize) {
            Some(b) => from_utf8(b),
            None => None,
        }
    }
}

} // verus!
