//! The bytes of an index.
//!
//! A little-endian binary blob. What [`Index::encode`] writes is given by
//! [`encoding`]; [`Index::decode`] accepts exactly what starts with such an
//! encoding.

use vstd::prelude::*;

use crate::codec;
use crate::codec::{put_i64, put_str, put_u32, put_u64, Cursor};
use crate::index;
use crate::index::{DirView, IndexView};
use crate::index::{DirRec, Index, Mode};

verus! {

/// The version of the layout below.
pub const FORMAT_VERSION: u32 = 2;

/// Stands for "no parent" (the root record).
pub const NO_PARENT: u32 = 0xffff_ffff;

/// The byte that stands for a mode.
pub open spec fn mode_byte(m: Mode) -> u8 {
    match m {
        Mode::Full => 0,
        Mode::Mtime => 1,
        Mode::Events => 2,
    }
}

/// The mode that a byte stands for; an unknown one means a full scan.
pub open spec fn mode_of(b: u8) -> Mode {
    if b == 1 {
        Mode::Mtime
    } else if b == 2 {
        Mode::Events
    } else {
        Mode::Full
    }
}

impl Mode {
    fn to_u8(self) -> (r: u8)
        ensures
            r == mode_byte(self),
    {
        match self {
            Mode::Full => 0,
            Mode::Mtime => 1,
            Mode::Events => 2,
        }
    }

    fn from_u8(b: u8) -> (r: Mode)
        ensures
            r == mode_of(b),
    {
        match b {
            1 => Mode::Mtime,
            2 => Mode::Events,
            _ => Mode::Full,
        }
    }
}

/// The bytes that every index starts with: `DSCR`.
pub open spec fn magic() -> Seq<u8> {
    seq![0x44u8, 0x53u8, 0x43u8, 0x52u8]
}

/// The file records `fs`, followed by `tail`.
pub open spec fn enc_files(fs: Seq<(Seq<char>, u64)>, tail: Seq<u8>) -> Seq<u8>
    decreases fs.len(),
{
    if fs.len() == 0 {
        tail
    } else {
        codec::enc_str(fs[0].0) + (codec::le(fs[0].1 as nat, 8) + enc_files(fs.skip(1), tail))
    }
}

/// The numbers `ns`, followed by `tail`.
pub open spec fn enc_list(ns: Seq<u64>, tail: Seq<u8>) -> Seq<u8>
    decreases ns.len(),
{
    if ns.len() == 0 {
        tail
    } else {
        codec::le(ns[0] as nat, 8) + enc_list(ns.skip(1), tail)
    }
}

/// The number written for a parent.
pub open spec fn parent_num(p: Option<u32>) -> nat {
    match p {
        Some(p) => p as nat,
        None => NO_PARENT as nat,
    }
}

/// The sizes of the record `d`: its own, then those of all that is below it,
/// followed by `tail`.
pub open spec fn enc_sums(d: DirView, tail: Seq<u8>) -> Seq<u8> {
    codec::le(d.own_bytes as nat, 8) + (codec::le(d.own_files as nat, 8) + (codec::le(
        d.own_private as nat,
        8,
    ) + (codec::le(d.subtree_bytes as nat, 8) + (codec::le(d.subtree_files as nat, 8) + (codec::le(
        d.subtree_private as nat,
        8,
    ) + tail)))))
}

/// The large files of the record `d`: how many, each one, and likewise what is
/// unshared of them, followed by `tail`.
pub open spec fn enc_large(d: DirView, tail: Seq<u8>) -> Seq<u8> {
    codec::le(d.large.len() % 0x1_0000_0000, 4) + enc_files(
        d.large,
        codec::le(d.large_private.len() % 0x1_0000_0000, 4) + enc_list(d.large_private, tail),
    )
}

/// The directory record `d`, followed by `tail`.
pub open spec fn enc_dir(d: DirView, tail: Seq<u8>) -> Seq<u8> {
    codec::le(parent_num(d.parent), 4) + (codec::enc_str(d.name) + (codec::le(
        codec::twos(d.mtime_ns),
        8,
    ) + enc_sums(d, enc_large(d, tail))))
}

/// The directory records `ds`, followed by `tail`.
pub open spec fn enc_dirs(ds: Seq<DirView>, tail: Seq<u8>) -> Seq<u8>
    decreases ds.len(),
{
    if ds.len() == 0 {
        tail
    } else {
        enc_dir(ds[0], enc_dirs(ds.skip(1), tail))
    }
}

/// The numbers of the header of `i` with the mode byte `m`, followed by `tail`.
pub open spec fn enc_head(i: IndexView, m: u8, tail: Seq<u8>) -> Seq<u8> {
    codec::le(i.scanned_at as nat, 8) + (codec::le(m as nat, 1) + (codec::le(i.device_id as nat, 8)
        + (codec::le(i.last_event_id as nat, 8) + (codec::le(i.threshold as nat, 8) + (codec::le(
        i.root_ix as nat,
        4,
    ) + (codec::le(i.dirs.len() % 0x1_0000_0000, 4) + tail))))))
}

/// The index `i` with the mode byte `m`, followed by `tail`.
pub open spec fn enc_index(i: IndexView, m: u8, tail: Seq<u8>) -> Seq<u8> {
    magic() + (codec::le(FORMAT_VERSION as nat, 4) + (codec::enc_str(i.root) + enc_head(
        i,
        m,
        enc_dirs(i.dirs, tail),
    )))
}

/// The bytes that an index is written as.
pub open spec fn encoding(i: IndexView) -> Seq<u8> {
    enc_index(i, mode_byte(i.mode), Seq::empty())
}

/// Whether the record's lengths fit their fields, and its parent is not the
/// number that stands for none.
pub open spec fn dir_encodable(d: DirView) -> bool {
    &&& d.parent != Some(NO_PARENT)
    &&& codec::fits(d.name)
    &&& d.large.len() < 0x1_0000_0000
    &&& d.large_private.len() < 0x1_0000_0000
    &&& forall|k: int| 0 <= k < d.large.len() ==> codec::fits((#[trigger] d.large[k]).0)
}

/// Whether the index can be read back: its lengths fit their fields, and its
/// root record exists.
pub open spec fn encodable(i: IndexView) -> bool {
    &&& codec::fits(i.root)
    &&& i.dirs.len() < 0x1_0000_0000
    &&& i.root_ix < i.dirs.len()
    &&& forall|k: int| 0 <= k < i.dirs.len() ==> dir_encodable(#[trigger] i.dirs[k])
}

/// Whether the bytes `b` start with an encoding of `i`. The mode may be written
/// by any byte that stands for it.
pub open spec fn decodes_to(b: Seq<u8>, i: IndexView) -> bool {
    encodable(i) && exists|m: u8, tail: Seq<u8>|
        mode_of(m) == i.mode && b == #[trigger] enc_index(i, m, tail)
}

// ---- writing ------------------------------------------------------------------

proof fn lemma_assoc(a: Seq<u8>, b: Seq<u8>, c: Seq<u8>)
    ensures
        (a + b) + c == a + (b + c),
{
    assert((a + b) + c =~= a + (b + c));
}

fn put_files(out: &mut Vec<u8>, fs: &Vec<(String, u64)>, Ghost(tail): Ghost<Seq<u8>>)
    ensures
        final(out)@ + tail == old(out)@ + enc_files(index::files_view(fs@), tail),
{
    let ghost all = index::files_view(fs@);
    let ghost total = old(out)@ + enc_files(all, tail);
    let mut i: usize = 0;
    assert(all.skip(0) =~= all);
    while i < fs.len()
        invariant
            i <= fs@.len(),
            all == index::files_view(fs@),
            out@ + enc_files(all.skip(i as int), tail) == total,
        decreases fs@.len() - i,
    {
        let ghost rest = all.skip(i as int);
        assert(rest.skip(1) =~= all.skip(i + 1));
        assert(rest[0] == (fs@[i as int].0@, fs@[i as int].1));
        let ghost t2 = enc_files(rest.skip(1), tail);
        let ghost t1 = codec::le(rest[0].1 as nat, 8) + t2;
        let ghost o0 = out@;
        put_str(out, fs[i].0.as_str());
        proof {
            lemma_assoc(o0, codec::enc_str(rest[0].0), t1);
        }
        let ghost o1 = out@;
        put_u64(out, fs[i].1);
        proof {
            lemma_assoc(o1, codec::le(rest[0].1 as nat, 8), t2);
        }
        i += 1;
    }
    assert(all.skip(i as int).len() == 0);
}

fn put_list(out: &mut Vec<u8>, ns: &Vec<u64>, Ghost(tail): Ghost<Seq<u8>>)
    ensures
        final(out)@ + tail == old(out)@ + enc_list(ns@, tail),
{
    let ghost total = old(out)@ + enc_list(ns@, tail);
    let mut i: usize = 0;
    assert(ns@.skip(0) =~= ns@);
    while i < ns.len()
        invariant
            i <= ns@.len(),
            out@ + enc_list(ns@.skip(i as int), tail) == total,
        decreases ns@.len() - i,
    {
        let ghost rest = ns@.skip(i as int);
        assert(rest.skip(1) =~= ns@.skip(i + 1));
        let ghost o = out@;
        put_u64(out, ns[i]);
        proof {
            lemma_assoc(o, codec::le(rest[0] as nat, 8), enc_list(rest.skip(1), tail));
        }
        i += 1;
    }
    assert(ns@.skip(i as int).len() == 0);
}

/// Writes a number, of what is written as `le(n, 8) + tail`.
fn put_num(out: &mut Vec<u8>, n: u64, Ghost(tail): Ghost<Seq<u8>>)
    ensures
        final(out)@ + tail == old(out)@ + (codec::le(n as nat, 8) + tail),
{
    let ghost o = out@;
    put_u64(out, n);
    proof {
        lemma_assoc(o, codec::le(n as nat, 8), tail);
    }
}

/// Writes how many items follow, of what is written as the count and then `tail`.
fn put_count(out: &mut Vec<u8>, n: usize, Ghost(tail): Ghost<Seq<u8>>)
    ensures
        final(out)@ + tail == old(out)@ + (codec::le(n as nat % 0x1_0000_0000, 4) + tail),
{
    let ghost o = out@;
    let m: u64 = (n as u64) % 0x1_0000_0000;
    put_u32(out, m as u32);
    proof {
        lemma_assoc(o, codec::le(n as nat % 0x1_0000_0000, 4), tail);
    }
}

fn put_sums(out: &mut Vec<u8>, d: &DirRec, Ghost(tail): Ghost<Seq<u8>>)
    ensures
        final(out)@ + tail == old(out)@ + enc_sums(d@, tail),
{
    let ghost v = d@;
    let ghost t5 = codec::le(v.subtree_private as nat, 8) + tail;
    let ghost t4 = codec::le(v.subtree_files as nat, 8) + t5;
    let ghost t3 = codec::le(v.subtree_bytes as nat, 8) + t4;
    let ghost t2 = codec::le(v.own_private as nat, 8) + t3;
    let ghost t1 = codec::le(v.own_files as nat, 8) + t2;
    put_num(out, d.own_bytes, Ghost(t1));
    put_num(out, d.own_files, Ghost(t2));
    put_num(out, d.own_private, Ghost(t3));
    put_num(out, d.subtree_bytes, Ghost(t4));
    put_num(out, d.subtree_files, Ghost(t5));
    put_num(out, d.subtree_private, Ghost(tail));
}

fn put_large(out: &mut Vec<u8>, d: &DirRec, Ghost(tail): Ghost<Seq<u8>>)
    ensures
        final(out)@ + tail == old(out)@ + enc_large(d@, tail),
{
    let ghost v = d@;
    let ghost t2 = enc_list(v.large_private, tail);
    let ghost t1 = codec::le(v.large_private.len() % 0x1_0000_0000, 4) + t2;
    put_count(out, d.large.len(), Ghost(enc_files(v.large, t1)));
    put_files(out, &d.large, Ghost(t1));
    put_count(out, d.large_private.len(), Ghost(t2));
    put_list(out, &d.large_private, Ghost(tail));
}

fn put_dir(out: &mut Vec<u8>, d: &DirRec, Ghost(tail): Ghost<Seq<u8>>)
    ensures
        final(out)@ + tail == old(out)@ + enc_dir(d@, tail),
{
    let ghost v = d@;
    let ghost t4 = enc_large(v, tail);
    let ghost t3 = enc_sums(v, t4);
    let ghost t2 = codec::le(codec::twos(v.mtime_ns), 8) + t3;
    let ghost t1 = codec::enc_str(v.name) + t2;
    let ghost o = out@;
    let parent: u32 = match d.parent {
        Some(p) => p,
        None => NO_PARENT,
    };
    put_u32(out, parent);
    proof {
        lemma_assoc(o, codec::le(parent_num(v.parent), 4), t1);
    }
    let ghost o = out@;
    put_str(out, d.name.as_str());
    proof {
        lemma_assoc(o, codec::enc_str(v.name), t2);
    }
    let ghost o = out@;
    put_i64(out, d.mtime_ns);
    proof {
        lemma_assoc(o, codec::le(codec::twos(v.mtime_ns), 8), t3);
    }
    put_sums(out, d, Ghost(t4));
    put_large(out, d, Ghost(tail));
}

impl Index {
    /// The bytes of this index.
    pub fn encode(&self) -> (r: Vec<u8>)
        ensures
            r@ == encoding(self@),
    {
        let mut out: Vec<u8> = Vec::new();
        let ghost v = self@;
        let ghost e = Seq::<u8>::empty();
        let ghost t9 = enc_dirs(v.dirs, e);
        let ghost t8 = codec::le(v.dirs.len() % 0x1_0000_0000, 4) + t9;
        let ghost t7 = codec::le(v.root_ix as nat, 4) + t8;
        let ghost t6 = codec::le(v.threshold as nat, 8) + t7;
        let ghost t5 = codec::le(v.last_event_id as nat, 8) + t6;
        let ghost t4 = codec::le(v.device_id as nat, 8) + t5;
        let ghost t3 = codec::le(mode_byte(v.mode) as nat, 1) + t4;
        let ghost t2 = codec::le(v.scanned_at as nat, 8) + t3;
        let ghost t1 = codec::enc_str(v.root) + t2;
        let ghost t0 = codec::le(FORMAT_VERSION as nat, 4) + t1;
        out.push(0x44);
        out.push(0x53);
        out.push(0x43);
        out.push(0x52);
        assert(out@ =~= magic());
        let ghost o = out@;
        put_u32(&mut out, FORMAT_VERSION);
        proof {
            lemma_assoc(o, codec::le(FORMAT_VERSION as nat, 4), t1);
        }
        let ghost o = out@;
        put_str(&mut out, self.root.as_str());
        proof {
            lemma_assoc(o, codec::enc_str(v.root), t2);
        }
        let ghost o = out@;
        put_u64(&mut out, self.scanned_at);
        proof {
            lemma_assoc(o, codec::le(v.scanned_at as nat, 8), t3);
        }
        let ghost o = out@;
        let m: u8 = self.mode.to_u8();
        out.push(m);
        proof {
            reveal_with_fuel(codec::le, 2);
            assert(codec::le(m as nat, 1) =~= seq![m]);
            assert(o.push(m) =~= o + codec::le(m as nat, 1));
            lemma_assoc(o, codec::le(m as nat, 1), t4);
        }
        let ghost o = out@;
        put_u64(&mut out, self.device_id);
        proof {
            lemma_assoc(o, codec::le(v.device_id as nat, 8), t5);
        }
        let ghost o = out@;
        put_u64(&mut out, self.last_event_id);
        proof {
            lemma_assoc(o, codec::le(v.last_event_id as nat, 8), t6);
        }
        let ghost o = out@;
        put_u64(&mut out, self.threshold);
        proof {
            lemma_assoc(o, codec::le(v.threshold as nat, 8), t7);
        }
        let ghost o = out@;
        put_u32(&mut out, self.root_ix);
        proof {
            lemma_assoc(o, codec::le(v.root_ix as nat, 4), t8);
        }
        let ghost o = out@;
        let n: u64 = (self.dirs.len() as u64) % 0x1_0000_0000;
        put_u32(&mut out, n as u32);
        proof {
            lemma_assoc(o, codec::le(v.dirs.len() % 0x1_0000_0000, 4), t9);
        }
        assert(out@ + t9 == encoding(v));
        let mut i: usize = 0;
        assert(v.dirs.skip(0) =~= v.dirs);
        while i < self.dirs.len()
            invariant
                i <= self.dirs@.len(),
                v == self@,
                e == Seq::<u8>::empty(),
                out@ + enc_dirs(v.dirs.skip(i as int), e) == encoding(v),
            decreases self.dirs@.len() - i,
        {
            let ghost rest = v.dirs.skip(i as int);
            assert(rest.skip(1) =~= v.dirs.skip(i + 1));
            assert(rest[0] == self.dirs@[i as int]@);
            put_dir(&mut out, &self.dirs[i], Ghost(enc_dirs(v.dirs.skip(i + 1), e)));
            i += 1;
        }
        assert(v.dirs.skip(i as int).len() == 0);
        assert(out@ + e =~= out@);
        out
    }
}

// ---- reading ------------------------------------------------------------------

/// `n` file records at the front of `b`, and what follows them.
spec fn dec_files(b: Seq<u8>, n: nat) -> Option<(Seq<(Seq<char>, u64)>, Seq<u8>)>
    decreases n,
{
    if n == 0 {
        Some((Seq::empty(), b))
    } else {
        match codec::dec_str(b) {
            Some((name, b1)) => match codec::dec_le(b1, 8) {
                Some((size, b2)) => match dec_files(b2, (n - 1) as nat) {
                    Some((fs, rest)) => Some((seq![(name, size as u64)] + fs, rest)),
                    None => None,
                },
                None => None,
            },
            None => None,
        }
    }
}

/// The number of a parent, read back.
spec fn parent_of_num(n: nat) -> Option<u32> {
    if n == NO_PARENT {
        None
    } else {
        Some(n as u32)
    }
}

/// `n` numbers at the front of `b`, and what follows them.
spec fn dec_list(b: Seq<u8>, n: nat) -> Option<(Seq<u64>, Seq<u8>)>
    decreases n,
{
    if n == 0 {
        Some((Seq::empty(), b))
    } else {
        match codec::dec_le(b, 8) {
            Some((v, b1)) => match dec_list(b1, (n - 1) as nat) {
                Some((vs, rest)) => Some((seq![v as u64] + vs, rest)),
                None => None,
            },
            None => None,
        }
    }
}

/// The sizes of a record: own bytes, files and unshared bytes, then those of all
/// that is below it.
#[verifier::opaque]
spec fn dec_sums(b: Seq<u8>) -> Option<((nat, nat, nat, nat, nat, nat), Seq<u8>)> {
    match codec::dec_le(b, 8) {
        Some((n0, b)) => match codec::dec_le(b, 8) {
            Some((n1, b)) => match codec::dec_le(b, 8) {
                Some((n2, b)) => match codec::dec_le(b, 8) {
                    Some((n3, b)) => match codec::dec_le(b, 8) {
                        Some((n4, b)) => match codec::dec_le(b, 8) {
                            Some((n5, b)) => Some(((n0, n1, n2, n3, n4, n5), b)),
                            None => None,
                        },
                        None => None,
                    },
                    None => None,
                },
                None => None,
            },
            None => None,
        },
        None => None,
    }
}

/// The large files of a record, what is unshared of them, and what follows.
#[verifier::opaque]
spec fn dec_large(b: Seq<u8>) -> Option<(Seq<(Seq<char>, u64)>, Seq<u64>, Seq<u8>)> {
    match codec::dec_le(b, 4) {
        Some((ln, b)) => match dec_files(b, ln) {
            Some((large, b)) => match codec::dec_le(b, 4) {
                Some((pn, b)) => match dec_list(b, pn) {
                    Some((private, b)) => Some((large, private, b)),
                    None => None,
                },
                None => None,
            },
            None => None,
        },
        None => None,
    }
}

/// A directory record at the front of `b`, and what follows it.
#[verifier::opaque]
spec fn dec_dir(b: Seq<u8>) -> Option<(DirView, Seq<u8>)> {
    match codec::dec_le(b, 4) {
        Some((parent, b)) => match codec::dec_str(b) {
            Some((name, b)) => match codec::dec_le(b, 8) {
                Some((mtime, b)) => match dec_sums(b) {
                    Some((sums, b)) => match dec_large(b) {
                        Some((large, large_private, b)) => Some(
                            (
                                DirView {
                                    parent: parent_of_num(parent),
                                    name,
                                    mtime_ns: codec::signed(mtime) as i64,
                                    own_bytes: sums.0 as u64,
                                    own_files: sums.1 as u64,
                                    own_private: sums.2 as u64,
                                    subtree_bytes: sums.3 as u64,
                                    subtree_files: sums.4 as u64,
                                    subtree_private: sums.5 as u64,
                                    large,
                                    large_private,
                                },
                                b,
                            ),
                        ),
                        None => None,
                    },
                    None => None,
                },
                None => None,
            },
            None => None,
        },
        None => None,
    }
}

/// `n` directory records at the front of `b`, and what follows them.
spec fn dec_dirs(b: Seq<u8>, n: nat) -> Option<(Seq<DirView>, Seq<u8>)>
    decreases n,
{
    if n == 0 {
        Some((Seq::empty(), b))
    } else {
        match dec_dir(b) {
            Some((d, b1)) => match dec_dirs(b1, (n - 1) as nat) {
                Some((ds, rest)) => Some((seq![d] + ds, rest)),
                None => None,
            },
            None => None,
        }
    }
}

proof fn lemma_dec_files_of_enc(fs: Seq<(Seq<char>, u64)>, tail: Seq<u8>)
    requires
        forall|k: int| 0 <= k < fs.len() ==> codec::fits((#[trigger] fs[k]).0),
    ensures
        dec_files(enc_files(fs, tail), fs.len()) == Some((fs, tail)),
    decreases fs.len(),
{
    if fs.len() == 0 {
        assert(fs =~= Seq::<(Seq<char>, u64)>::empty());
    } else {
        let t = enc_files(fs.skip(1), tail);
        assert forall|k: int| 0 <= k < fs.skip(1).len() implies codec::fits(
            (#[trigger] fs.skip(1)[k]).0,
        ) by {
            assert(fs.skip(1)[k] == fs[k + 1]);
        }
        lemma_dec_files_of_enc(fs.skip(1), tail);
        codec::lemma_pow256();
        codec::lemma_dec_str_of_enc(fs[0].0, codec::le(fs[0].1 as nat, 8) + t);
        codec::lemma_dec_le_of_le(fs[0].1 as nat, 8, t);
        assert(seq![fs[0]] + fs.skip(1) =~= fs);
    }
}

proof fn lemma_dec_files_inverse(b: Seq<u8>, n: nat)
    requires
        dec_files(b, n) is Some,
    ensures
        dec_files(b, n) matches Some((fs, rest)) && b == enc_files(fs, rest) && fs.len() == n
            && forall|k: int| 0 <= k < fs.len() ==> codec::fits((#[trigger] fs[k]).0),
    decreases n,
{
    if n > 0 {
        codec::lemma_pow256();
        codec::lemma_dec_str_inverse(b);
        let (name, b1) = codec::dec_str(b)->0;
        codec::lemma_dec_le_inverse(b1, 8);
        let (size, b2) = codec::dec_le(b1, 8)->0;
        lemma_dec_files_inverse(b2, (n - 1) as nat);
        let (fs, rest) = dec_files(b2, (n - 1) as nat)->0;
        let all = seq![(name, size as u64)] + fs;
        assert(all.skip(1) =~= fs);
        assert forall|k: int| 0 <= k < all.len() implies codec::fits((#[trigger] all[k]).0) by {
            if k > 0 {
                assert(all[k] == fs[k - 1]);
            }
        }
        assert(b == enc_files(all, rest));
    }
}

proof fn lemma_dec_list_of_enc(ns: Seq<u64>, tail: Seq<u8>)
    ensures
        dec_list(enc_list(ns, tail), ns.len()) == Some((ns, tail)),
    decreases ns.len(),
{
    if ns.len() == 0 {
        assert(ns =~= Seq::<u64>::empty());
    } else {
        lemma_dec_list_of_enc(ns.skip(1), tail);
        codec::lemma_pow256();
        codec::lemma_dec_le_of_le(ns[0] as nat, 8, enc_list(ns.skip(1), tail));
        assert(seq![ns[0]] + ns.skip(1) =~= ns);
    }
}

proof fn lemma_dec_list_inverse(b: Seq<u8>, n: nat)
    requires
        dec_list(b, n) is Some,
    ensures
        dec_list(b, n) matches Some((vs, rest)) && b == enc_list(vs, rest) && vs.len() == n,
    decreases n,
{
    if n > 0 {
        codec::lemma_pow256();
        codec::lemma_dec_le_inverse(b, 8);
        let (v, b1) = codec::dec_le(b, 8)->0;
        lemma_dec_list_inverse(b1, (n - 1) as nat);
        let (vs, rest) = dec_list(b1, (n - 1) as nat)->0;
        let all = seq![v as u64] + vs;
        assert(all.skip(1) =~= vs);
        assert(b == enc_list(all, rest));
    }
}

proof fn lemma_dec_sums_of_enc(d: DirView, tail: Seq<u8>)
    ensures
        dec_sums(enc_sums(d, tail)) == Some(
            (
                (
                    d.own_bytes as nat,
                    d.own_files as nat,
                    d.own_private as nat,
                    d.subtree_bytes as nat,
                    d.subtree_files as nat,
                    d.subtree_private as nat,
                ),
                tail,
            ),
        ),
{
    reveal(dec_sums);
    codec::lemma_pow256();
    let t5 = codec::le(d.subtree_private as nat, 8) + tail;
    let t4 = codec::le(d.subtree_files as nat, 8) + t5;
    let t3 = codec::le(d.subtree_bytes as nat, 8) + t4;
    let t2 = codec::le(d.own_private as nat, 8) + t3;
    let t1 = codec::le(d.own_files as nat, 8) + t2;
    codec::lemma_dec_le_of_le(d.own_bytes as nat, 8, t1);
    codec::lemma_dec_le_of_le(d.own_files as nat, 8, t2);
    codec::lemma_dec_le_of_le(d.own_private as nat, 8, t3);
    codec::lemma_dec_le_of_le(d.subtree_bytes as nat, 8, t4);
    codec::lemma_dec_le_of_le(d.subtree_files as nat, 8, t5);
    codec::lemma_dec_le_of_le(d.subtree_private as nat, 8, tail);
}

proof fn lemma_dec_sums_inverse(b: Seq<u8>, d: DirView)
    requires
        dec_sums(b) matches Some((n, _)) && d.own_bytes == n.0 && d.own_files == n.1
            && d.own_private == n.2 && d.subtree_bytes == n.3 && d.subtree_files == n.4
            && d.subtree_private == n.5,
    ensures
        dec_sums(b) matches Some((_, rest)) && b == enc_sums(d, rest),
{
    reveal(dec_sums);
    codec::lemma_dec_le_inverse(b, 8);
    let (n0, b1) = codec::dec_le(b, 8)->0;
    codec::lemma_dec_le_inverse(b1, 8);
    let (n1, b2) = codec::dec_le(b1, 8)->0;
    codec::lemma_dec_le_inverse(b2, 8);
    let (n2, b3) = codec::dec_le(b2, 8)->0;
    codec::lemma_dec_le_inverse(b3, 8);
    let (n3, b4) = codec::dec_le(b3, 8)->0;
    codec::lemma_dec_le_inverse(b4, 8);
    let (n4, b5) = codec::dec_le(b4, 8)->0;
    codec::lemma_dec_le_inverse(b5, 8);
}

proof fn lemma_dec_sums_bounds(b: Seq<u8>)
    requires
        dec_sums(b) is Some,
    ensures
        dec_sums(b) matches Some((n, _)) && n.0 < 0x1_0000_0000_0000_0000 && n.1
            < 0x1_0000_0000_0000_0000 && n.2 < 0x1_0000_0000_0000_0000 && n.3
            < 0x1_0000_0000_0000_0000 && n.4 < 0x1_0000_0000_0000_0000 && n.5
            < 0x1_0000_0000_0000_0000,
{
    reveal(dec_sums);
    codec::lemma_pow256();
    codec::lemma_dec_le_inverse(b, 8);
    let (n0, b1) = codec::dec_le(b, 8)->0;
    codec::lemma_dec_le_inverse(b1, 8);
    let (n1, b2) = codec::dec_le(b1, 8)->0;
    codec::lemma_dec_le_inverse(b2, 8);
    let (n2, b3) = codec::dec_le(b2, 8)->0;
    codec::lemma_dec_le_inverse(b3, 8);
    let (n3, b4) = codec::dec_le(b3, 8)->0;
    codec::lemma_dec_le_inverse(b4, 8);
    let (n4, b5) = codec::dec_le(b4, 8)->0;
    codec::lemma_dec_le_inverse(b5, 8);
}

proof fn lemma_dec_large_of_enc(d: DirView, tail: Seq<u8>)
    requires
        dir_encodable(d),
    ensures
        dec_large(enc_large(d, tail)) == Some((d.large, d.large_private, tail)),
{
    reveal(dec_large);
    codec::lemma_pow256();
    let t2 = enc_list(d.large_private, tail);
    let t1 = codec::le(d.large_private.len() % 0x1_0000_0000, 4) + t2;
    codec::lemma_dec_le_of_le(d.large.len() % 0x1_0000_0000, 4, enc_files(d.large, t1));
    lemma_dec_files_of_enc(d.large, t1);
    codec::lemma_dec_le_of_le(d.large_private.len() % 0x1_0000_0000, 4, t2);
    lemma_dec_list_of_enc(d.large_private, tail);
}

proof fn lemma_dec_large_inverse(b: Seq<u8>, d: DirView)
    requires
        dec_large(b) matches Some((fs, ns, _)) && d.large == fs && d.large_private == ns,
    ensures
        dec_large(b) matches Some((_, _, rest)) && b == enc_large(d, rest),
        d.large.len() < 0x1_0000_0000,
        d.large_private.len() < 0x1_0000_0000,
        forall|k: int| 0 <= k < d.large.len() ==> codec::fits((#[trigger] d.large[k]).0),
{
    reveal(dec_large);
    codec::lemma_pow256();
    codec::lemma_dec_le_inverse(b, 4);
    let (ln, b1) = codec::dec_le(b, 4)->0;
    lemma_dec_files_inverse(b1, ln);
    let (large, b2) = dec_files(b1, ln)->0;
    codec::lemma_dec_le_inverse(b2, 4);
    let (pn, b3) = codec::dec_le(b2, 4)->0;
    lemma_dec_list_inverse(b3, pn);
    assert(ln % 0x1_0000_0000 == ln);
    assert(pn % 0x1_0000_0000 == pn);
}

proof fn lemma_dec_dir_of_enc(d: DirView, tail: Seq<u8>)
    requires
        dir_encodable(d),
    ensures
        dec_dir(enc_dir(d, tail)) == Some((d, tail)),
{
    reveal(dec_dir);
    codec::lemma_pow256();
    let t4 = enc_large(d, tail);
    let t3 = enc_sums(d, t4);
    let t2 = codec::le(codec::twos(d.mtime_ns), 8) + t3;
    codec::lemma_dec_le_of_le(parent_num(d.parent), 4, codec::enc_str(d.name) + t2);
    codec::lemma_dec_str_of_enc(d.name, t2);
    codec::lemma_dec_le_of_le(codec::twos(d.mtime_ns), 8, t3);
    lemma_dec_sums_of_enc(d, t4);
    lemma_dec_large_of_enc(d, tail);
    assert(codec::signed(codec::twos(d.mtime_ns)) == d.mtime_ns);
    assert(parent_of_num(parent_num(d.parent)) == d.parent);
}

proof fn lemma_dec_dir_inverse(b: Seq<u8>)
    requires
        dec_dir(b) is Some,
    ensures
        dec_dir(b) matches Some((d, rest)) && b == enc_dir(d, rest) && dir_encodable(d),
{
    reveal(dec_dir);
    codec::lemma_pow256();
    codec::lemma_dec_le_inverse(b, 4);
    let (p, b1) = codec::dec_le(b, 4)->0;
    codec::lemma_dec_str_inverse(b1);
    let (name, b2) = codec::dec_str(b1)->0;
    codec::lemma_dec_le_inverse(b2, 8);
    let (mtime, b3) = codec::dec_le(b2, 8)->0;
    lemma_dec_sums_bounds(b3);
    let (sums, b4) = dec_sums(b3)->0;
    let d = (dec_dir(b)->0).0;
    assert(parent_num(d.parent) == p);
    assert(codec::twos(d.mtime_ns) == mtime);
    lemma_dec_sums_inverse(b3, d);
    lemma_dec_large_inverse(b4, d);
}

proof fn lemma_dec_dirs_of_enc(ds: Seq<DirView>, tail: Seq<u8>)
    requires
        forall|k: int| 0 <= k < ds.len() ==> dir_encodable(#[trigger] ds[k]),
    ensures
        dec_dirs(enc_dirs(ds, tail), ds.len()) == Some((ds, tail)),
    decreases ds.len(),
{
    if ds.len() == 0 {
        assert(ds =~= Seq::<DirView>::empty());
    } else {
        assert forall|k: int| 0 <= k < ds.skip(1).len() implies dir_encodable(
            #[trigger] ds.skip(1)[k],
        ) by {
            assert(ds.skip(1)[k] == ds[k + 1]);
        }
        lemma_dec_dirs_of_enc(ds.skip(1), tail);
        lemma_dec_dir_of_enc(ds[0], enc_dirs(ds.skip(1), tail));
        assert(seq![ds[0]] + ds.skip(1) =~= ds);
    }
}

proof fn lemma_dec_dirs_inverse(b: Seq<u8>, n: nat)
    requires
        dec_dirs(b, n) is Some,
    ensures
        dec_dirs(b, n) matches Some((ds, rest)) && b == enc_dirs(ds, rest) && ds.len() == n
            && forall|k: int| 0 <= k < ds.len() ==> dir_encodable(#[trigger] ds[k]),
    decreases n,
{
    if n > 0 {
        lemma_dec_dir_inverse(b);
        let (d, b1) = dec_dir(b)->0;
        lemma_dec_dirs_inverse(b1, (n - 1) as nat);
        let (ds, rest) = dec_dirs(b1, (n - 1) as nat)->0;
        let all = seq![d] + ds;
        assert(all.skip(1) =~= ds);
        assert forall|k: int| 0 <= k < all.len() implies dir_encodable(#[trigger] all[k]) by {
            if k > 0 {
                assert(all[k] == ds[k - 1]);
            }
        }
        assert(b == enc_dirs(all, rest));
    }
}

fn read_files(c: &mut Cursor, n: u32) -> (r: Option<Vec<(String, u64)>>)
    requires
        old(c).wf(),
    ensures
        final(c).wf(),
        final(c).buf == old(c).buf,
        r is Some <==> dec_files(old(c).rest(), n as nat) is Some,
        r matches Some(v) ==> dec_files(old(c).rest(), n as nat) == Some(
            (index::files_view(v@), final(c).rest()),
        ),
{
    let mut out: Vec<(String, u64)> = Vec::new();
    let mut k: u32 = 0;
    let ghost goal = dec_files(c.rest(), n as nat);
    assert(index::files_view(out@) =~= Seq::<(Seq<char>, u64)>::empty());
    proof {
        if goal is Some {
            let (fs, rest) = goal->0;
            assert(Seq::<(Seq<char>, u64)>::empty() + fs =~= fs);
        }
    }
    while k < n
        invariant
            k <= n,
            c.wf(),
            c.buf == old(c).buf,
            goal == dec_files(old(c).rest(), n as nat),
            goal == (match dec_files(c.rest(), (n - k) as nat) {
                Some((fs, rest)) => Some((index::files_view(out@) + fs, rest)),
                None => None,
            }),
        decreases n - k,
    {
        let ghost before = index::files_view(out@);
        let name = match c.string() {
            Some(s) => s,
            None => {
                return None;
            },
        };
        let size: u64 = match c.u64() {
            Some(v) => v,
            None => {
                return None;
            },
        };
        let ghost e = (name@, size);
        out.push((name, size));
        assert(index::files_view(out@) =~= before.push(e));
        proof {
            match dec_files(c.rest(), (n - k - 1) as nat) {
                Some((fs, rest)) => {
                    assert(before + (seq![e] + fs) =~= before.push(e) + fs);
                },
                None => {},
            }
        }
        k += 1;
    }
    proof {
        let v = index::files_view(out@);
        assert(v + Seq::<(Seq<char>, u64)>::empty() =~= v);
    }
    Some(out)
}

fn read_list(c: &mut Cursor, n: u32) -> (r: Option<Vec<u64>>)
    requires
        old(c).wf(),
    ensures
        final(c).wf(),
        final(c).buf == old(c).buf,
        r is Some <==> dec_list(old(c).rest(), n as nat) is Some,
        r matches Some(v) ==> dec_list(old(c).rest(), n as nat) == Some((v@, final(c).rest())),
{
    let mut out: Vec<u64> = Vec::new();
    let mut k: u32 = 0;
    let ghost goal = dec_list(c.rest(), n as nat);
    proof {
        if goal is Some {
            let (vs, rest) = goal->0;
            assert(Seq::<u64>::empty() + vs =~= vs);
        }
    }
    while k < n
        invariant
            k <= n,
            c.wf(),
            c.buf == old(c).buf,
            goal == dec_list(old(c).rest(), n as nat),
            goal == (match dec_list(c.rest(), (n - k) as nat) {
                Some((vs, rest)) => Some((out@ + vs, rest)),
                None => None,
            }),
        decreases n - k,
    {
        let ghost before = out@;
        let v: u64 = match c.u64() {
            Some(v) => v,
            None => {
                return None;
            },
        };
        out.push(v);
        proof {
            match dec_list(c.rest(), (n - k - 1) as nat) {
                Some((vs, rest)) => {
                    assert(before + (seq![v] + vs) =~= before.push(v) + vs);
                },
                None => {},
            }
        }
        k += 1;
    }
    assert(out@ + Seq::<u64>::empty() =~= out@);
    Some(out)
}

fn read_large(c: &mut Cursor) -> (r: Option<(Vec<(String, u64)>, Vec<u64>)>)
    requires
        old(c).wf(),
    ensures
        final(c).wf(),
        final(c).buf == old(c).buf,
        r is Some <==> dec_large(old(c).rest()) is Some,
        r matches Some(v) ==> dec_large(old(c).rest()) == Some(
            (index::files_view(v.0@), v.1@, final(c).rest()),
        ),
{
    proof {
        reveal(dec_large);
    }
    let ln: u32 = match c.u32() {
        Some(v) => v,
        None => {
            return None;
        },
    };
    let large = match read_files(c, ln) {
        Some(v) => v,
        None => {
            return None;
        },
    };
    let pn: u32 = match c.u32() {
        Some(v) => v,
        None => {
            return None;
        },
    };
    match read_list(c, pn) {
        Some(v) => Some((large, v)),
        None => None,
    }
}

fn read_dir(c: &mut Cursor) -> (r: Option<DirRec>)
    requires
        old(c).wf(),
    ensures
        final(c).wf(),
        final(c).buf == old(c).buf,
        r is Some <==> dec_dir(old(c).rest()) is Some,
        r matches Some(d) ==> dec_dir(old(c).rest()) == Some((d@, final(c).rest())),
{
    proof {
        reveal(dec_dir);
        reveal(dec_sums);
    }
    let parent: Option<u32> = match c.u32() {
        Some(p) => if p == NO_PARENT {
            None
        } else {
            Some(p)
        },
        None => {
            return None;
        },
    };
    let name = match c.string() {
        Some(s) => s,
        None => {
            return None;
        },
    };
    let mtime_ns: i64 = match c.i64() {
        Some(v) => v,
        None => {
            return None;
        },
    };
    let own_bytes: u64 = match c.u64() {
        Some(v) => v,
        None => {
            return None;
        },
    };
    let own_files: u64 = match c.u64() {
        Some(v) => v,
        None => {
            return None;
        },
    };
    let own_private: u64 = match c.u64() {
        Some(v) => v,
        None => {
            return None;
        },
    };
    let subtree_bytes: u64 = match c.u64() {
        Some(v) => v,
        None => {
            return None;
        },
    };
    let subtree_files: u64 = match c.u64() {
        Some(v) => v,
        None => {
            return None;
        },
    };
    let subtree_private: u64 = match c.u64() {
        Some(v) => v,
        None => {
            return None;
        },
    };
    let (large, large_private) = match read_large(c) {
        Some(v) => v,
        None => {
            return None;
        },
    };
    assert(codec::signed(codec::twos(mtime_ns)) == mtime_ns);
    Some(
        DirRec {
            parent,
            name,
            mtime_ns,
            own_bytes,
            own_files,
            own_private,
            subtree_bytes,
            subtree_files,
            subtree_private,
            large,
            large_private,
        },
    )
}

fn read_dirs(c: &mut Cursor, n: u32) -> (r: Option<Vec<DirRec>>)
    requires
        old(c).wf(),
    ensures
        final(c).wf(),
        final(c).buf == old(c).buf,
        r is Some <==> dec_dirs(old(c).rest(), n as nat) is Some,
        r matches Some(v) ==> dec_dirs(old(c).rest(), n as nat) == Some(
            (index::dirs_view(v@), final(c).rest()),
        ),
{
    let mut out: Vec<DirRec> = Vec::new();
    let mut k: u32 = 0;
    let ghost goal = dec_dirs(c.rest(), n as nat);
    assert(index::dirs_view(out@) =~= Seq::<DirView>::empty());
    proof {
        if goal is Some {
            let (ds, rest) = goal->0;
            assert(Seq::<DirView>::empty() + ds =~= ds);
        }
    }
    while k < n
        invariant
            k <= n,
            c.wf(),
            c.buf == old(c).buf,
            goal == dec_dirs(old(c).rest(), n as nat),
            goal == (match dec_dirs(c.rest(), (n - k) as nat) {
                Some((ds, rest)) => Some((index::dirs_view(out@) + ds, rest)),
                None => None,
            }),
        decreases n - k,
    {
        let ghost before = index::dirs_view(out@);
        let d = match read_dir(c) {
            Some(d) => d,
            None => {
                return None;
            },
        };
        let ghost e = d@;
        out.push(d);
        assert(index::dirs_view(out@) =~= before.push(e));
        proof {
            match dec_dirs(c.rest(), (n - k - 1) as nat) {
                Some((ds, rest)) => {
                    assert(before + (seq![e] + ds) =~= before.push(e) + ds);
                },
                None => {},
            }
        }
        k += 1;
    }
    proof {
        let v = index::dirs_view(out@);
        assert(v + Seq::<DirView>::empty() =~= v);
    }
    Some(out)
}

/// The magic bytes as a number.
pub const MAGIC: u32 = 0x5243_5344;

proof fn lemma_magic()
    ensures
        codec::le(MAGIC as nat, 4) == magic(),
{
    reveal_with_fuel(codec::le, 5);
    assert(codec::le(MAGIC as nat, 4) =~= magic());
}

/// The numbers of the header behind the root: when it was scanned, mode byte,
/// device, event id, threshold, root record, number of records.
#[verifier::opaque]
spec fn dec_head(b: Seq<u8>) -> Option<((nat, nat, nat, nat, nat, nat, nat), Seq<u8>)> {
    match codec::dec_le(b, 8) {
        Some((n0, b)) => match codec::dec_le(b, 1) {
            Some((n1, b)) => match codec::dec_le(b, 8) {
                Some((n2, b)) => match codec::dec_le(b, 8) {
                    Some((n3, b)) => match codec::dec_le(b, 8) {
                        Some((n4, b)) => match codec::dec_le(b, 4) {
                            Some((n5, b)) => match codec::dec_le(b, 4) {
                                Some((n6, b)) => Some(((n0, n1, n2, n3, n4, n5, n6), b)),
                                None => None,
                            },
                            None => None,
                        },
                        None => None,
                    },
                    None => None,
                },
                None => None,
            },
            None => None,
        },
        None => None,
    }
}

/// An index at the front of `b`, with its mode byte, and what follows it.
#[verifier::opaque]
spec fn dec_index(b: Seq<u8>) -> Option<(IndexView, u8, Seq<u8>)> {
    match codec::dec_le(b, 4) {
        Some((m, b)) => if m != MAGIC {
            None
        } else {
            match codec::dec_le(b, 4) {
                Some((version, b)) => if version != FORMAT_VERSION {
                    None
                } else {
                    match codec::dec_str(b) {
                        Some((root, b)) => match dec_head(b) {
                            Some((h, b)) => match dec_dirs(b, h.6) {
                                Some((dirs, b)) => if h.5 < dirs.len() {
                                    Some(
                                        (
                                            IndexView {
                                                root,
                                                scanned_at: h.0 as u64,
                                                mode: mode_of(h.1 as u8),
                                                device_id: h.2 as u64,
                                                last_event_id: h.3 as u64,
                                                threshold: h.4 as u64,
                                                dirs,
                                                root_ix: h.5 as u32,
                                            },
                                            h.1 as u8,
                                            b,
                                        ),
                                    )
                                } else {
                                    None
                                },
                                None => None,
                            },
                            None => None,
                        },
                        None => None,
                    }
                },
                None => None,
            }
        },
        None => None,
    }
}

proof fn lemma_dec_head_of_enc(i: IndexView, m: u8, tail: Seq<u8>)
    ensures
        dec_head(enc_head(i, m, tail)) == Some(
            (
                (
                    i.scanned_at as nat,
                    m as nat,
                    i.device_id as nat,
                    i.last_event_id as nat,
                    i.threshold as nat,
                    i.root_ix as nat,
                    i.dirs.len() % 0x1_0000_0000,
                ),
                tail,
            ),
        ),
{
    reveal(dec_head);
    codec::lemma_pow256();
    let t8 = codec::le(i.dirs.len() % 0x1_0000_0000, 4) + tail;
    let t7 = codec::le(i.root_ix as nat, 4) + t8;
    let t6 = codec::le(i.threshold as nat, 8) + t7;
    let t5 = codec::le(i.last_event_id as nat, 8) + t6;
    let t4 = codec::le(i.device_id as nat, 8) + t5;
    let t3 = codec::le(m as nat, 1) + t4;
    codec::lemma_dec_le_of_le(i.scanned_at as nat, 8, t3);
    codec::lemma_dec_le_of_le(m as nat, 1, t4);
    codec::lemma_dec_le_of_le(i.device_id as nat, 8, t5);
    codec::lemma_dec_le_of_le(i.last_event_id as nat, 8, t6);
    codec::lemma_dec_le_of_le(i.threshold as nat, 8, t7);
    codec::lemma_dec_le_of_le(i.root_ix as nat, 4, t8);
    codec::lemma_dec_le_of_le(i.dirs.len() % 0x1_0000_0000, 4, tail);
}

proof fn lemma_dec_head_bounds(b: Seq<u8>)
    requires
        dec_head(b) is Some,
    ensures
        dec_head(b) matches Some((n, _)) && n.0 < 0x1_0000_0000_0000_0000 && n.1 < 0x100 && n.2
            < 0x1_0000_0000_0000_0000 && n.3 < 0x1_0000_0000_0000_0000 && n.4
            < 0x1_0000_0000_0000_0000 && n.5 < 0x1_0000_0000 && n.6 < 0x1_0000_0000,
{
    reveal(dec_head);
    codec::lemma_pow256();
    codec::lemma_dec_le_inverse(b, 8);
    let (n0, b1) = codec::dec_le(b, 8)->0;
    codec::lemma_dec_le_inverse(b1, 1);
    let (n1, b2) = codec::dec_le(b1, 1)->0;
    codec::lemma_dec_le_inverse(b2, 8);
    let (n2, b3) = codec::dec_le(b2, 8)->0;
    codec::lemma_dec_le_inverse(b3, 8);
    let (n3, b4) = codec::dec_le(b3, 8)->0;
    codec::lemma_dec_le_inverse(b4, 8);
    let (n4, b5) = codec::dec_le(b4, 8)->0;
    codec::lemma_dec_le_inverse(b5, 4);
    let (n5, b6) = codec::dec_le(b5, 4)->0;
    codec::lemma_dec_le_inverse(b6, 4);
}

proof fn lemma_dec_head_inverse(b: Seq<u8>, i: IndexView, m: u8)
    requires
        dec_head(b) matches Some((n, _)) && i.scanned_at == n.0 && m == n.1 && i.device_id == n.2
            && i.last_event_id == n.3 && i.threshold == n.4 && i.root_ix == n.5 && i.dirs.len()
            % 0x1_0000_0000 == n.6,
    ensures
        dec_head(b) matches Some((_, rest)) && b == enc_head(i, m, rest),
{
    reveal(dec_head);
    codec::lemma_dec_le_inverse(b, 8);
    let (n0, b1) = codec::dec_le(b, 8)->0;
    codec::lemma_dec_le_inverse(b1, 1);
    let (n1, b2) = codec::dec_le(b1, 1)->0;
    codec::lemma_dec_le_inverse(b2, 8);
    let (n2, b3) = codec::dec_le(b2, 8)->0;
    codec::lemma_dec_le_inverse(b3, 8);
    let (n3, b4) = codec::dec_le(b3, 8)->0;
    codec::lemma_dec_le_inverse(b4, 8);
    let (n4, b5) = codec::dec_le(b4, 8)->0;
    codec::lemma_dec_le_inverse(b5, 4);
    let (n5, b6) = codec::dec_le(b5, 4)->0;
    codec::lemma_dec_le_inverse(b6, 4);
}

proof fn lemma_dec_index_of_enc(i: IndexView, m: u8, tail: Seq<u8>)
    requires
        encodable(i),
        mode_of(m) == i.mode,
    ensures
        dec_index(enc_index(i, m, tail)) == Some((i, m, tail)),
{
    reveal(dec_index);
    codec::lemma_pow256();
    lemma_magic();
    let t2 = enc_dirs(i.dirs, tail);
    let t1 = enc_head(i, m, t2);
    let t0 = codec::enc_str(i.root) + t1;
    codec::lemma_dec_le_of_le(MAGIC as nat, 4, codec::le(FORMAT_VERSION as nat, 4) + t0);
    codec::lemma_dec_le_of_le(FORMAT_VERSION as nat, 4, t0);
    codec::lemma_dec_str_of_enc(i.root, t1);
    lemma_dec_head_of_enc(i, m, t2);
    lemma_dec_dirs_of_enc(i.dirs, tail);
}

proof fn lemma_dec_index_inverse(b: Seq<u8>)
    requires
        dec_index(b) is Some,
    ensures
        dec_index(b) matches Some((i, m, rest)) && b == enc_index(i, m, rest) && encodable(i)
            && mode_of(m) == i.mode,
{
    reveal(dec_index);
    lemma_magic();
    codec::lemma_dec_le_inverse(b, 4);
    let (magic, b1) = codec::dec_le(b, 4)->0;
    codec::lemma_dec_le_inverse(b1, 4);
    let (version, b2) = codec::dec_le(b1, 4)->0;
    codec::lemma_dec_str_inverse(b2);
    let (root, b3) = codec::dec_str(b2)->0;
    lemma_dec_head_bounds(b3);
    let (h, b4) = dec_head(b3)->0;
    lemma_dec_dirs_inverse(b4, h.6);
    let (i, m, rest) = dec_index(b)->0;
    lemma_dec_head_inverse(b3, i, m);
}

/// What [`decodes_to`] says is what [`dec_index`] reads.
proof fn lemma_decodes(b: Seq<u8>, i: IndexView)
    ensures
        decodes_to(b, i) <==> (dec_index(b) matches Some((j, _, _)) && i == j),
{
    if decodes_to(b, i) {
        let (m, tail) = choose|m: u8, tail: Seq<u8>|
            mode_of(m) == i.mode && b == #[trigger] enc_index(i, m, tail);
        lemma_dec_index_of_enc(i, m, tail);
    }
    if dec_index(b) matches Some((j, _, _)) && i == j {
        lemma_dec_index_inverse(b);
    }
}

impl Index {
    /// The index that the bytes start with, or `None` where they start with none.
    pub fn decode(buf: &[u8]) -> (r: Option<Index>)
        ensures
            match r {
                Some(i) => decodes_to(buf@, i@),
                None => forall|i: IndexView| !decodes_to(buf@, i),
            },
    {
        let r = Self::read(buf);
        proof {
            assert forall|i: IndexView|
                decodes_to(buf@, i) == (dec_index(buf@) matches Some((j, _, _)) && i == j) by {
                lemma_decodes(buf@, i);
            }
        }
        r
    }

    fn read(buf: &[u8]) -> (r: Option<Index>)
        ensures
            r is Some <==> dec_index(buf@) is Some,
            r matches Some(i) ==> (dec_index(buf@) matches Some((j, _, _)) && j == i@),
    {
        proof {
            reveal(dec_index);
            reveal(dec_head);
        }
        let mut c = Cursor { buf, pos: 0 };
        assert(c.rest() =~= buf@);
        match c.u32() {
            Some(m) => if m != MAGIC {
                return None;
            },
            None => {
                return None;
            },
        }
        match c.u32() {
            Some(v) => if v != FORMAT_VERSION {
                return None;
            },
            None => {
                return None;
            },
        }
        let root = match c.string() {
            Some(s) => s,
            None => {
                return None;
            },
        };
        let scanned_at: u64 = match c.u64() {
            Some(v) => v,
            None => {
                return None;
            },
        };
        let mode = match c.u8() {
            Some(b) => Mode::from_u8(b),
            None => {
                return None;
            },
        };
        let device_id: u64 = match c.u64() {
            Some(v) => v,
            None => {
                return None;
            },
        };
        let last_event_id: u64 = match c.u64() {
            Some(v) => v,
            None => {
                return None;
            },
        };
        let threshold: u64 = match c.u64() {
            Some(v) => v,
            None => {
                return None;
            },
        };
        let root_ix: u32 = match c.u32() {
            Some(v) => v,
            None => {
                return None;
            },
        };
        let n: u32 = match c.u32() {
            Some(v) => v,
            None => {
                return None;
            },
        };
        let dirs = match read_dirs(&mut c, n) {
            Some(v) => v,
            None => {
                return None;
            },
        };
        if root_ix as usize >= dirs.len() {
            return None;
        }
        Some(
            Index {
                root,
                scanned_at,
                mode,
                device_id,
                last_event_id,
                threshold,
                dirs,
                root_ix,
            },
        )
    }
}

// ---- what the format promises ---------------------------------------------------

proof fn lemma_enc_files_append(fs: Seq<(Seq<char>, u64)>, t: Seq<u8>, u: Seq<u8>)
    ensures
        enc_files(fs, t) + u == enc_files(fs, t + u),
    decreases fs.len(),
{
    if fs.len() > 0 {
        lemma_enc_files_append(fs.skip(1), t, u);
        let x = enc_files(fs.skip(1), t);
        lemma_assoc(codec::enc_str(fs[0].0), codec::le(fs[0].1 as nat, 8) + x, u);
        lemma_assoc(codec::le(fs[0].1 as nat, 8), x, u);
    }
}

proof fn lemma_enc_list_append(ns: Seq<u64>, t: Seq<u8>, u: Seq<u8>)
    ensures
        enc_list(ns, t) + u == enc_list(ns, t + u),
    decreases ns.len(),
{
    if ns.len() > 0 {
        lemma_enc_list_append(ns.skip(1), t, u);
        lemma_assoc(codec::le(ns[0] as nat, 8), enc_list(ns.skip(1), t), u);
    }
}

proof fn lemma_enc_sums_append(d: DirView, t: Seq<u8>, u: Seq<u8>)
    ensures
        enc_sums(d, t) + u == enc_sums(d, t + u),
{
    let x5 = codec::le(d.subtree_private as nat, 8) + t;
    let x4 = codec::le(d.subtree_files as nat, 8) + x5;
    let x3 = codec::le(d.subtree_bytes as nat, 8) + x4;
    let x2 = codec::le(d.own_private as nat, 8) + x3;
    let x1 = codec::le(d.own_files as nat, 8) + x2;
    lemma_assoc(codec::le(d.own_bytes as nat, 8), x1, u);
    lemma_assoc(codec::le(d.own_files as nat, 8), x2, u);
    lemma_assoc(codec::le(d.own_private as nat, 8), x3, u);
    lemma_assoc(codec::le(d.subtree_bytes as nat, 8), x4, u);
    lemma_assoc(codec::le(d.subtree_files as nat, 8), x5, u);
    lemma_assoc(codec::le(d.subtree_private as nat, 8), t, u);
}

proof fn lemma_enc_large_append(d: DirView, t: Seq<u8>, u: Seq<u8>)
    ensures
        enc_large(d, t) + u == enc_large(d, t + u),
{
    let x2 = enc_list(d.large_private, t);
    let x1 = codec::le(d.large_private.len() % 0x1_0000_0000, 4) + x2;
    lemma_enc_list_append(d.large_private, t, u);
    lemma_assoc(codec::le(d.large_private.len() % 0x1_0000_0000, 4), x2, u);
    lemma_enc_files_append(d.large, x1, u);
    lemma_assoc(codec::le(d.large.len() % 0x1_0000_0000, 4), enc_files(d.large, x1), u);
}

proof fn lemma_enc_dirs_append(ds: Seq<DirView>, t: Seq<u8>, u: Seq<u8>)
    ensures
        enc_dirs(ds, t) + u == enc_dirs(ds, t + u),
    decreases ds.len(),
{
    if ds.len() > 0 {
        lemma_enc_dirs_append(ds.skip(1), t, u);
        let d = ds[0];
        let x = enc_dirs(ds.skip(1), t);
        let x4 = enc_large(d, x);
        let x3 = enc_sums(d, x4);
        let x2 = codec::le(codec::twos(d.mtime_ns), 8) + x3;
        lemma_enc_large_append(d, x, u);
        lemma_enc_sums_append(d, x4, u);
        lemma_assoc(codec::le(codec::twos(d.mtime_ns), 8), x3, u);
        lemma_assoc(codec::enc_str(d.name), x2, u);
        lemma_assoc(codec::le(parent_num(d.parent), 4), codec::enc_str(d.name) + x2, u);
    }
}

proof fn lemma_enc_index_append(i: IndexView, m: u8, t: Seq<u8>, u: Seq<u8>)
    ensures
        enc_index(i, m, t) + u == enc_index(i, m, t + u),
{
    let x8 = enc_dirs(i.dirs, t);
    let x7 = codec::le(i.dirs.len() % 0x1_0000_0000, 4) + x8;
    let x6 = codec::le(i.root_ix as nat, 4) + x7;
    let x5 = codec::le(i.threshold as nat, 8) + x6;
    let x4 = codec::le(i.last_event_id as nat, 8) + x5;
    let x3 = codec::le(i.device_id as nat, 8) + x4;
    let x2 = codec::le(m as nat, 1) + x3;
    let x1 = codec::le(i.scanned_at as nat, 8) + x2;
    let x0 = codec::enc_str(i.root) + x1;
    let x = codec::le(FORMAT_VERSION as nat, 4) + x0;
    lemma_enc_dirs_append(i.dirs, t, u);
    lemma_assoc(codec::le(i.dirs.len() % 0x1_0000_0000, 4), x8, u);
    lemma_assoc(codec::le(i.root_ix as nat, 4), x7, u);
    lemma_assoc(codec::le(i.threshold as nat, 8), x6, u);
    lemma_assoc(codec::le(i.last_event_id as nat, 8), x5, u);
    lemma_assoc(codec::le(i.device_id as nat, 8), x4, u);
    lemma_assoc(codec::le(m as nat, 1), x3, u);
    lemma_assoc(codec::le(i.scanned_at as nat, 8), x2, u);
    lemma_assoc(codec::enc_str(i.root), x1, u);
    lemma_assoc(codec::le(FORMAT_VERSION as nat, 4), x0, u);
    lemma_assoc(magic(), x, u);
}

/// What is written is read back: an index whose lengths fit their fields decodes
/// from its own encoding.
pub proof fn law_roundtrip(i: IndexView)
    requires
        encodable(i),
    ensures
        decodes_to(encoding(i), i),
{
    assert(mode_of(mode_byte(i.mode)) == i.mode);
}

/// Bytes start with an encoding of at most one index.
pub proof fn law_decoding_is_unique(b: Seq<u8>, i: IndexView, j: IndexView)
    requires
        decodes_to(b, i),
        decodes_to(b, j),
    ensures
        i == j,
{
    lemma_decodes(b, i);
    lemma_decodes(b, j);
}

/// A cut-off index is never read: no proper prefix of an encoding decodes.
pub proof fn law_truncation_is_rejected(i: IndexView, k: int, j: IndexView)
    requires
        encodable(i),
        0 <= k < encoding(i).len(),
    ensures
        !decodes_to(encoding(i).take(k), j),
{
    let b = encoding(i);
    if decodes_to(b.take(k), j) {
        let (m, tail) = choose|m: u8, tail: Seq<u8>|
            mode_of(m) == j.mode && b.take(k) == #[trigger] enc_index(j, m, tail);
        assert(b.take(k) + b.skip(k) =~= b);
        lemma_enc_index_append(j, m, tail, b.skip(k));
        lemma_dec_index_of_enc(j, m, tail + b.skip(k));
        assert(mode_of(mode_byte(i.mode)) == i.mode);
        lemma_dec_index_of_enc(i, mode_byte(i.mode), Seq::empty());
        assert((tail + b.skip(k)).len() > 0);
    }
}

/// Every index that fits its fields can be written and read back: one with fewer than 2^32
/// records, large files and bytes of each name, whose root is a record, and of which no
/// record hangs in the last number.
pub proof fn law_every_index_that_fits_is_read_back(i: IndexView)
    requires
        vstd::utf8::encode_utf8(i.root).len() < 0x1_0000_0000,
        i.dirs.len() < 0x1_0000_0000,
        i.root_ix < i.dirs.len(),
        forall|k: int|
            0 <= k < i.dirs.len() ==> {
                let d = #[trigger] i.dirs[k];
                &&& d.parent != Some(u32::MAX)
                &&& vstd::utf8::encode_utf8(d.name).len() < 0x1_0000_0000
                &&& d.large.len() < 0x1_0000_0000
                &&& d.large_private.len() < 0x1_0000_0000
                &&& forall|j: int|
                    0 <= j < d.large.len() ==> vstd::utf8::encode_utf8(
                        (#[trigger] d.large[j]).0,
                    ).len() < 0x1_0000_0000
            },
    ensures
        decodes_to(encoding(i), i),
        forall|j: IndexView| #[trigger] decodes_to(encoding(i), j) ==> j == i,
{
    assert forall|k: int| 0 <= k < i.dirs.len() implies dir_encodable(#[trigger] i.dirs[k]) by {
        let d = i.dirs[k];
        assert forall|j: int| 0 <= j < d.large.len() implies codec::fits(
            (#[trigger] d.large[j]).0,
        ) by {}
    }
    law_roundtrip(i);
    assert forall|j: IndexView| #[trigger] decodes_to(encoding(i), j) implies j == i by {
        law_decoding_is_unique(encoding(i), i, j);
    }
}

/// Only bytes that begin with `DSCR` and the number of this format are read.
pub proof fn law_other_files_are_refused(b: Seq<u8>, i: IndexView)
    requires
        decodes_to(b, i),
    ensures
        b.len() >= 8,
        b.take(4) == seq![0x44u8, 0x53u8, 0x43u8, 0x52u8],
        b.subrange(4, 8) == seq![2u8, 0u8, 0u8, 0u8],
{
    let (m, tail) = choose|m: u8, tail: Seq<u8>|
        mode_of(m) == i.mode && b == #[trigger] enc_index(i, m, tail);
    let v = codec::le(FORMAT_VERSION as nat, 4);
    assert(v =~= seq![2u8, 0u8, 0u8, 0u8]) by {
        reveal_with_fuel(codec::le, 5);
    }
    let rest = codec::enc_str(i.root) + enc_head(i, m, enc_dirs(i.dirs, tail));
    assert(b =~= magic() + (v + rest));
    assert(b.take(4) =~= magic());
    assert(b.subrange(4, 8) =~= v);
}

} // verus!
