//! Where the fields of an index file lie.

use vstd::prelude::*;

use crate::codec;
use crate::index::{DirView, IndexView, Mode};

verus! {

/// The number in the `n` bytes from `p` on, the first of them counting least.
pub open spec fn number_at(b: Seq<u8>, p: int, n: nat) -> nat
    decreases n,
{
    if n == 0 {
        0
    } else {
        b[p] as nat + 256 * number_at(b, p + 1, (n - 1) as nat)
    }
}

proof fn lemma_number(a: Seq<u8>, v: nat, n: nat, t: Seq<u8>)
    requires
        v < codec::pow256(n),
    ensures
        number_at(a + (codec::le(v, n) + t), a.len() as int, n) == v,
        a + (codec::le(v, n) + t) == (a + codec::le(v, n)) + t,
        codec::le(v, n).len() == n,
    decreases n,
{
    codec::lemma_le_len(v, n);
    let b = a + (codec::le(v, n) + t);
    assert(b =~= (a + codec::le(v, n)) + t);
    if n > 0 {
        let d = (v % 256) as u8;
        assert(b[a.len() as int] == d);
        assert(b =~= a.push(d) + (codec::le(v / 256, (n - 1) as nat) + t));
        lemma_number(a.push(d), v / 256, (n - 1) as nat, t);
    }
}

/// Past the number `v`, which stands behind `a`.
proof fn lemma_past_number(b: Seq<u8>, a: Seq<u8>, v: nat, n: nat, t: Seq<u8>) -> (r: Seq<u8>)
    requires
        b == a + (codec::le(v, n) + t),
        v < codec::pow256(n),
    ensures
        number_at(b, a.len() as int, n) == v,
        b == r + t,
        r.len() == a.len() + n,
{
    lemma_number(a, v, n, t);
    a + codec::le(v, n)
}

/// Past the bytes `s`, which stand behind `a`.
proof fn lemma_past_bytes(b: Seq<u8>, a: Seq<u8>, s: Seq<u8>, t: Seq<u8>) -> (r: Seq<u8>)
    requires
        b == a + (s + t),
    ensures
        b.subrange(a.len() as int, a.len() + s.len() as int) == s,
        b == r + t,
        r.len() == a.len() + s.len(),
{
    assert(b =~= (a + s) + t);
    assert(b.subrange(a.len() as int, a.len() + s.len() as int) =~= s);
    a + s
}

proof fn lemma_grouped(x: Seq<u8>, y: Seq<u8>, z: Seq<u8>)
    ensures
        (x + y) + z == x + (y + z),
{
    assert((x + y) + z =~= x + (y + z));
}

/// Past the root of an index, which stands behind the mark and the number of the format.
proof fn lemma_past_root(i: IndexView) -> (r: Seq<u8>)
    requires
        vstd::utf8::encode_utf8(i.root).len() < 0x1_0000_0000,
    ensures
        ({
            let b = crate::format::encoding(i);
            let n = vstd::utf8::encode_utf8(i.root).len() as int;
            &&& number_at(b, 8, 4) == n
            &&& b.subrange(12, 12 + n) == vstd::utf8::encode_utf8(i.root)
            &&& r.len() == 12 + n
            &&& b == r + crate::format::enc_head(
                i,
                crate::format::mode_byte(i.mode),
                crate::format::enc_dirs(i.dirs, Seq::empty()),
            )
        }),
{
    codec::lemma_pow256();
    let root = vstd::utf8::encode_utf8(i.root);
    let t = crate::format::enc_head(
        i,
        crate::format::mode_byte(i.mode),
        crate::format::enc_dirs(i.dirs, Seq::empty()),
    );
    let version = crate::format::FORMAT_VERSION as nat;
    let len = codec::le(root.len() % 0x1_0000_0000, 4);
    let b = crate::format::encoding(i);
    lemma_grouped(len, root, t);
    let a = lemma_past_number(b, crate::format::magic(), version, 4, len + (root + t));
    let a = lemma_past_number(b, a, root.len(), 4, root + t);
    lemma_past_bytes(b, a, root, t)
}

proof fn lemma_head(b: Seq<u8>, a: Seq<u8>, i: IndexView, m: u8, t0: Seq<u8>)
    requires
        b == a + crate::format::enc_head(i, m, t0),
        i.dirs.len() < 0x1_0000_0000,
    ensures
        number_at(b, a.len() as int, 8) == i.scanned_at,
        number_at(b, a.len() as int + 8, 1) == m,
        number_at(b, a.len() as int + 9, 8) == i.device_id,
        number_at(b, a.len() as int + 17, 8) == i.last_event_id,
        number_at(b, a.len() as int + 25, 8) == i.threshold,
        number_at(b, a.len() as int + 33, 4) == i.root_ix,
        number_at(b, a.len() as int + 37, 4) == i.dirs.len(),
{
    codec::lemma_pow256();
    let t1 = codec::le(i.dirs.len() % 0x1_0000_0000, 4) + t0;
    let t2 = codec::le(i.root_ix as nat, 4) + t1;
    let t3 = codec::le(i.threshold as nat, 8) + t2;
    let t4 = codec::le(i.last_event_id as nat, 8) + t3;
    let t5 = codec::le(i.device_id as nat, 8) + t4;
    let t6 = codec::le(m as nat, 1) + t5;
    let a1 = lemma_past_number(b, a, i.scanned_at as nat, 8, t6);
    let a2 = lemma_past_number(b, a1, m as nat, 1, t5);
    let a3 = lemma_past_number(b, a2, i.device_id as nat, 8, t4);
    let a4 = lemma_past_number(b, a3, i.last_event_id as nat, 8, t3);
    let a5 = lemma_past_number(b, a4, i.threshold as nat, 8, t2);
    let a6 = lemma_past_number(b, a5, i.root_ix as nat, 4, t1);
    lemma_past_number(b, a6, i.dirs.len(), 4, t0);
}

/// Behind the mark and the number of the format an index file has the root, the time of the
/// scan, the way it came about, the volume, the place in the event log, the threshold, the
/// place of the root and how many records follow. Numbers have their least byte first.
pub proof fn law_index_files_have_their_fields_in_place(i: IndexView)
    requires
        vstd::utf8::encode_utf8(i.root).len() < 0x1_0000_0000,
        i.dirs.len() < 0x1_0000_0000,
    ensures
        ({
            let b = crate::format::encoding(i);
            let n = vstd::utf8::encode_utf8(i.root).len() as int;
            &&& number_at(b, 8, 4) == n
            &&& b.subrange(12, 12 + n) == vstd::utf8::encode_utf8(i.root)
            &&& number_at(b, n + 12, 8) == i.scanned_at
            &&& number_at(b, n + 20, 1) == (match i.mode {
                Mode::Full => 0nat,
                Mode::Mtime => 1,
                Mode::Events => 2,
            })
            &&& number_at(b, n + 21, 8) == i.device_id
            &&& number_at(b, n + 29, 8) == i.last_event_id
            &&& number_at(b, n + 37, 8) == i.threshold
            &&& number_at(b, n + 45, 4) == i.root_ix
            &&& number_at(b, n + 49, 4) == i.dirs.len()
        }),
{
    let a = lemma_past_root(i);
    lemma_head(
        crate::format::encoding(i),
        a,
        i,
        crate::format::mode_byte(i.mode),
        crate::format::enc_dirs(i.dirs, Seq::empty()),
    );
}

/// A record has its parent, or all ones where it has none, its name, its time, its own figures
/// and those of all below it, and how many large files follow.
pub proof fn law_records_have_their_fields_in_place(d: DirView, tail: Seq<u8>)
    requires
        vstd::utf8::encode_utf8(d.name).len() < 0x1_0000_0000,
        d.large.len() < 0x1_0000_0000,
    ensures
        ({
            let b = crate::format::enc_dir(d, tail);
            let n = vstd::utf8::encode_utf8(d.name).len() as int;
            &&& number_at(b, 0, 4) == (match d.parent {
                Some(p) => p as nat,
                None => 0xffff_ffff,
            })
            &&& number_at(b, 4, 4) == n
            &&& b.subrange(8, 8 + n) == vstd::utf8::encode_utf8(d.name)
            &&& d.mtime_ns >= 0 ==> number_at(b, n + 8, 8) == d.mtime_ns
            &&& d.mtime_ns < 0 ==> number_at(b, n + 8, 8) == d.mtime_ns + 0x1_0000_0000_0000_0000
            &&& number_at(b, n + 16, 8) == d.own_bytes
            &&& number_at(b, n + 24, 8) == d.own_files
            &&& number_at(b, n + 32, 8) == d.own_private
            &&& number_at(b, n + 40, 8) == d.subtree_bytes
            &&& number_at(b, n + 48, 8) == d.subtree_files
            &&& number_at(b, n + 56, 8) == d.subtree_private
            &&& number_at(b, n + 64, 4) == d.large.len()
        }),
{
    codec::lemma_pow256();
    let name = vstd::utf8::encode_utf8(d.name);
    let rest = crate::format::enc_files(
        d.large,
        codec::le(d.large_private.len() % 0x1_0000_0000, 4) + crate::format::enc_list(
            d.large_private,
            tail,
        ),
    );
    let t0 = codec::le(d.large.len() % 0x1_0000_0000, 4) + rest;
    let t1 = codec::le(d.subtree_private as nat, 8) + t0;
    let t2 = codec::le(d.subtree_files as nat, 8) + t1;
    let t3 = codec::le(d.subtree_bytes as nat, 8) + t2;
    let t4 = codec::le(d.own_private as nat, 8) + t3;
    let t5 = codec::le(d.own_files as nat, 8) + t4;
    let t6 = codec::le(d.own_bytes as nat, 8) + t5;
    let t7 = codec::le(codec::twos(d.mtime_ns), 8) + t6;
    let len = codec::le(name.len() % 0x1_0000_0000, 4);
    let up = codec::le(crate::format::parent_num(d.parent), 4);
    let b = crate::format::enc_dir(d, tail);
    let e = Seq::<u8>::empty();
    lemma_grouped(len, name, t7);
    assert(b == up + (len + (name + t7)));
    assert(b =~= e + (up + (len + (name + t7))));
    let a = lemma_past_number(b, e, crate::format::parent_num(d.parent), 4, len + (name + t7));
    let a = lemma_past_number(b, a, name.len(), 4, name + t7);
    let a = lemma_past_bytes(b, a, name, t7);
    let a = lemma_past_number(b, a, codec::twos(d.mtime_ns), 8, t6);
    let a = lemma_past_number(b, a, d.own_bytes as nat, 8, t5);
    let a = lemma_past_number(b, a, d.own_files as nat, 8, t4);
    let a = lemma_past_number(b, a, d.own_private as nat, 8, t3);
    let a = lemma_past_number(b, a, d.subtree_bytes as nat, 8, t2);
    let a = lemma_past_number(b, a, d.subtree_files as nat, 8, t1);
    let a = lemma_past_number(b, a, d.subtree_private as nat, 8, t0);
    lemma_past_number(b, a, d.large.len(), 4, rest);
}

} // verus!
