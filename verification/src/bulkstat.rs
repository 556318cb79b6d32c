//! Decoding a directory's entries and their sizes as the kernel hands them out,
//! many at once.
//!
//! Each entry starts with its length, followed by five words that tell which
//! attributes follow. The attributes are packed with no padding and appear in bit
//! order: common ones first, then those of files, then those of forks. Any of
//! them may be missing.

use vstd::prelude::*;
use vstd::utf8::*;

use crate::codec;
use crate::text::str_eq;

verus! {

pub const ATTR_CMN_NAME: u32 = 0x0000_0001;

pub const ATTR_CMN_OBJTYPE: u32 = 0x0000_0008;

pub const ATTR_CMN_MODTIME: u32 = 0x0000_0400;

pub const ATTR_CMN_FILEID: u32 = 0x0200_0000;

pub const ATTR_FILE_LINKCOUNT: u32 = 0x0000_0001;

pub const ATTR_FILE_ALLOCSIZE: u32 = 0x0000_0004;

pub const ATTR_CMNEXT_PRIVATESIZE: u32 = 0x0000_0008;

/// The object type of a regular file.
pub const VREG: u32 = 1;

/// One entry in a directory.
pub struct Entry {
    pub name: String,
    /// True only for regular files. Directories are walked by the caller, and
    /// symlinks and devices contribute no size, so both land on `false`.
    pub is_file: bool,
    /// Directory mtime in nanoseconds.
    pub mtime_ns: i64,
    /// Bytes allocated to this file, shared blocks included.
    pub allocated: u64,
    /// Bytes allocated to this file exclusively: what deleting it frees.
    pub private: u64,
    pub fileid: u64,
    pub nlink: u32,
}

/// What an entry holds.
#[verifier::ext_equal]
pub struct EntryView {
    pub name: Seq<char>,
    pub is_file: bool,
    pub mtime_ns: i64,
    pub allocated: u64,
    pub private: u64,
    pub fileid: u64,
    pub nlink: u32,
}

impl View for Entry {
    type V = EntryView;

    open spec fn view(&self) -> EntryView {
        EntryView {
            name: self.name@,
            is_file: self.is_file,
            mtime_ns: self.mtime_ns,
            allocated: self.allocated,
            private: self.private,
            fileid: self.fileid,
            nlink: self.nlink,
        }
    }
}

/// What `String::from_utf8_lossy` makes of bytes.
pub uninterp spec fn utf8_lossy(b: Seq<u8>) -> Seq<char>;

/// `String::from_utf8_lossy`, which replaces what is not UTF-8. Its result is a
/// function of the bytes alone, and on valid UTF-8 it is the characters that the
/// bytes encode. What it puts in place of other bytes is left unsaid.
#[verifier::external_body]
pub(crate) fn from_utf8_lossy(b: &[u8]) -> (r: String)
    ensures
        r@ == utf8_lossy(b@),
        valid_utf8(b@) ==> r@ == decode_utf8(b@),
{
    String::from_utf8_lossy(b).into_owned()
}

// ---- numbers ------------------------------------------------------------------

/// The 32-bit number at `p`.
#[verifier::opaque]
pub open spec fn u32_at(b: Seq<u8>, p: int) -> u32 {
    codec::le_value(b.subrange(p, p + 4)) as u32
}

/// The 64-bit number at `p`.
#[verifier::opaque]
pub open spec fn u64_at(b: Seq<u8>, p: int) -> u64 {
    codec::le_value(b.subrange(p, p + 8)) as u64
}

/// A 32-bit number read as signed.
pub open spec fn signed32(v: u32) -> int {
    if v < 0x8000_0000 {
        v as int
    } else {
        v - 0x1_0000_0000
    }
}

/// The nearest 64-bit signed number.
pub open spec fn clamp(x: int) -> i64 {
    if x > i64::MAX {
        i64::MAX
    } else if x < i64::MIN {
        i64::MIN
    } else {
        x as i64
    }
}

fn read_le(b: &[u8], at: usize, n: usize) -> (r: u64)
    requires
        at + n <= b@.len(),
        n <= 8,
    ensures
        r == codec::le_value(b@.subrange(at as int, at + n)),
        r < codec::pow256(n as nat),
{
    let ghost s = b@.subrange(at as int, at + n);
    let len: usize = b.len();
    let mut v: u64 = 0;
    let mut k: usize = n;
    assert(s.skip(n as int) =~= Seq::<u8>::empty());
    while k > 0
        invariant
            k <= n <= 8,
            len == b@.len(),
            at + n <= len,
            s == b@.subrange(at as int, at + n),
            v == codec::le_value(s.skip(k as int)),
        decreases k,
    {
        let ghost t = s.skip(k - 1);
        assert(t.skip(1) =~= s.skip(k as int));
        assert(t[0] == b@[at + k - 1]);
        proof {
            codec::lemma_le_value_bound(t);
            reveal_with_fuel(codec::pow256, 9);
            assert(codec::le_value(t) == t[0] as nat + 256 * codec::le_value(t.skip(1)));
        }
        k -= 1;
        v = v * 256 + b[at + k] as u64;
    }
    assert(s.skip(0) =~= s);
    proof {
        codec::lemma_le_value_bound(s);
    }
    v
}

/// The 32-bit number at `at`, where the buffer holds it.
pub fn rd_u32(b: &[u8], at: usize) -> (r: Option<u32>)
    ensures
        r is Some <==> at + 4 <= b@.len(),
        r matches Some(v) ==> v == u32_at(b@, at as int),
{
    let len: usize = b.len();
    if len < 4 || at > len - 4 {
        return None;
    }
    proof {
        codec::lemma_pow256();
        reveal(u32_at);
    }
    let v: u64 = read_le(b, at, 4);
    Some(v as u32)
}

/// The 64-bit number at `at`, where the buffer holds it.
pub fn rd_u64(b: &[u8], at: usize) -> (r: Option<u64>)
    ensures
        r is Some <==> at + 8 <= b@.len(),
        r matches Some(v) ==> v == u64_at(b@, at as int),
{
    let len: usize = b.len();
    if len < 8 || at > len - 8 {
        return None;
    }
    proof {
        reveal(u64_at);
    }
    let v: u64 = read_le(b, at, 8);
    Some(v)
}

// ---- one entry ------------------------------------------------------------------

/// Whether the attribute `bit` is present.
pub open spec fn has(mask: u32, bit: u32) -> bool {
    mask & bit != 0
}

/// `n` bytes where the attribute is present.
pub open spec fn room(mask: u32, bit: u32, n: int) -> int {
    if has(mask, bit) {
        n
    } else {
        0
    }
}

/// The attributes of an entry as they were handed out, but for its name.
#[verifier::ext_equal]
pub struct Attrs {
    pub objtype: u32,
    pub mtime_ns: i64,
    pub fileid: u64,
    pub nlink: u32,
    pub allocated: u64,
    pub private: u64,
}

/// Which attributes the entry `b` has: common ones.
pub open spec fn common(b: Seq<u8>) -> u32 {
    u32_at(b, 4)
}

/// Which attributes the entry `b` has: those of files.
pub open spec fn file(b: Seq<u8>) -> u32 {
    u32_at(b, 16)
}

/// Which attributes the entry `b` has: those of forks.
pub open spec fn fork(b: Seq<u8>) -> u32 {
    u32_at(b, 20)
}

pub open spec fn type_at(b: Seq<u8>) -> int {
    24 + room(common(b), ATTR_CMN_NAME, 8)
}

pub open spec fn time_at(b: Seq<u8>) -> int {
    type_at(b) + room(common(b), ATTR_CMN_OBJTYPE, 4)
}

pub open spec fn id_at(b: Seq<u8>) -> int {
    time_at(b) + room(common(b), ATTR_CMN_MODTIME, 16)
}

pub open spec fn link_at(b: Seq<u8>) -> int {
    id_at(b) + room(common(b), ATTR_CMN_FILEID, 8)
}

pub open spec fn alloc_at(b: Seq<u8>) -> int {
    link_at(b) + room(file(b), ATTR_FILE_LINKCOUNT, 4)
}

pub open spec fn private_at(b: Seq<u8>) -> int {
    alloc_at(b) + room(file(b), ATTR_FILE_ALLOCSIZE, 8)
}

pub open spec fn attrs_end(b: Seq<u8>) -> int {
    private_at(b) + room(fork(b), ATTR_CMNEXT_PRIVATESIZE, 8)
}

/// Where the name starts: its reference counts from where it stands itself.
pub open spec fn name_start(b: Seq<u8>) -> int {
    24 + signed32(u32_at(b, 24))
}

/// Where the name ends. Its length counts a trailing NUL.
pub open spec fn name_end(b: Seq<u8>) -> int {
    name_start(b) + (if u32_at(b, 28) > 0 {
        u32_at(b, 28) - 1
    } else {
        0
    })
}

/// Whether the entry at the front of `b` is complete: its length is that of at
/// least a length and no more than `b`, and its attributes and name lie in `b`.
pub open spec fn complete(b: Seq<u8>) -> bool {
    &&& b.len() >= 24
    &&& 4 <= u32_at(b, 0) <= b.len()
    &&& attrs_end(b) <= b.len()
    &&& has(common(b), ATTR_CMN_NAME) ==> 0 <= name_start(b) && name_end(b) <= b.len()
}

/// The name bytes of the entry at the front of `b`.
pub open spec fn name_bytes(b: Seq<u8>) -> Seq<u8> {
    if has(common(b), ATTR_CMN_NAME) {
        b.subrange(name_start(b), name_end(b))
    } else {
        Seq::empty()
    }
}

/// The attributes of the entry at the front of `b`. A missing one counts as 0, a
/// missing link count as 1, and missing unshared bytes as all allocated ones.
pub open spec fn attrs_of(b: Seq<u8>) -> Attrs {
    let allocated = if has(file(b), ATTR_FILE_ALLOCSIZE) {
        u64_at(b, alloc_at(b))
    } else {
        0
    };
    Attrs {
        objtype: if has(common(b), ATTR_CMN_OBJTYPE) {
            u32_at(b, type_at(b))
        } else {
            0
        },
        mtime_ns: if has(common(b), ATTR_CMN_MODTIME) {
            nanos(
                codec::signed(u64_at(b, time_at(b)) as nat),
                codec::signed(u64_at(b, time_at(b) + 8) as nat),
            )
        } else {
            0
        },
        fileid: if has(common(b), ATTR_CMN_FILEID) {
            u64_at(b, id_at(b))
        } else {
            0
        },
        nlink: if has(file(b), ATTR_FILE_LINKCOUNT) {
            u32_at(b, link_at(b))
        } else {
            1
        },
        allocated,
        private: if has(fork(b), ATTR_CMNEXT_PRIVATESIZE) {
            u64_at(b, private_at(b))
        } else {
            allocated
        },
    }
}

/// A time of seconds and nanoseconds in nanoseconds, as far as they go.
pub open spec fn nanos(secs: int, nsecs: int) -> i64 {
    clamp(clamp(secs * 1_000_000_000) + nsecs)
}

/// The entry with the given name and attributes. What has no name of its own (the
/// directory itself and its parent) is left out, and only regular files have a
/// size.
pub open spec fn entry_view(name: Seq<char>, a: Attrs) -> Option<EntryView> {
    if name.len() == 0 || name == "."@ || name == ".."@ {
        None
    } else {
        let is_file = a.objtype == VREG;
        Some(
            EntryView {
                name,
                is_file,
                mtime_ns: a.mtime_ns,
                allocated: if is_file {
                    a.allocated
                } else {
                    0
                },
                private: if is_file {
                    a.private
                } else {
                    0
                },
                fileid: a.fileid,
                nlink: a.nlink,
            },
        )
    }
}

/// The view of an optional entry.
pub open spec fn opt_entry(e: Option<Entry>) -> Option<EntryView> {
    match e {
        Some(e) => Some(e@),
        None => None,
    }
}

/// The entry with the given name and attributes.
pub fn entry_of(name: String, a: &Attrs) -> (r: Option<Entry>)
    ensures
        opt_entry(r) == entry_view(name@, *a),
{
    if name.as_str().is_empty() || str_eq(name.as_str(), ".") || str_eq(name.as_str(), "..") {
        return None;
    }
    let is_file = a.objtype == VREG;
    let allocated: u64 = if is_file {
        a.allocated
    } else {
        0
    };
    let private: u64 = if is_file {
        a.private
    } else {
        0
    };
    Some(
        Entry {
            name,
            is_file,
            mtime_ns: a.mtime_ns,
            allocated,
            private,
            fileid: a.fileid,
            nlink: a.nlink,
        },
    )
}

fn to_signed(v: u64) -> (r: i64)
    ensures
        r == codec::signed(v as nat),
{
    if v < 0x8000_0000_0000_0000 {
        v as i64
    } else {
        (v - 0x8000_0000_0000_0000) as i64 + i64::MIN
    }
}

fn clamped(x: i128) -> (r: i64)
    ensures
        r == clamp(x as int),
{
    if x > i64::MAX as i128 {
        i64::MAX
    } else if x < i64::MIN as i128 {
        i64::MIN
    } else {
        x as i64
    }
}

fn to_nanos(secs: i64, nsecs: i64) -> (r: i64)
    ensures
        r == nanos(secs as int, nsecs as int),
{
    let whole: i64 = clamped(secs as i128 * 1_000_000_000);
    clamped(whole as i128 + nsecs as i128)
}

/// Where the name of the entry at the front of `b` starts and ends, or `None` where it
/// does not lie in `b`.
fn name_range(b: &[u8]) -> (r: Option<(usize, usize)>)
    ensures
        match r {
            Some((start, end)) => b@.len() >= 32 && 0 <= name_start(b@) == start && end
                == name_end(b@) && start <= end <= b@.len(),
            None => b@.len() < 32 || name_start(b@) < 0 || name_end(b@) > b@.len(),
        },
{
    let offset: u32 = match rd_u32(b, 24) {
        Some(v) => v,
        None => {
            return None;
        },
    };
    let length: u32 = match rd_u32(b, 28) {
        Some(v) => v,
        None => {
            return None;
        },
    };
    let from: i64 = if offset < 0x8000_0000 {
        24 + offset as i64
    } else {
        24 + (offset as i64 - 0x1_0000_0000)
    };
    let size: i64 = if length > 0 {
        length as i64 - 1
    } else {
        0
    };
    if from < 0 || from as u64 > b.len() as u64 || size as u64 > b.len() as u64 - from as u64 {
        return None;
    }
    Some((from as usize, (from + size) as usize))
}

/// Decode one entry, returning it and the number of bytes it occupied. A name
/// reference that points before the entry's buffer is refused like one that
/// points behind it.
#[verifier::spinoff_prover]
pub fn parse_entry(b: &[u8]) -> (r: Option<(Option<Entry>, usize)>)
    ensures
        r is Some <==> complete(b@),
        r matches Some((e, len)) ==> len == u32_at(b@, 0) && opt_entry(e) == entry_view(
            utf8_lossy(name_bytes(b@)),
            attrs_of(b@),
        ) && (valid_utf8(name_bytes(b@)) ==> opt_entry(e) == entry_view(
            decode_utf8(name_bytes(b@)),
            attrs_of(b@),
        )),
{
    let n: usize = b.len();
    if n < 24 {
        return None;
    }
    let total: u32 = rd_u32(b, 0).unwrap();
    if total < 4 || total as usize > n {
        return None;
    }
    let common_attrs: u32 = rd_u32(b, 4).unwrap();
    let file_attrs: u32 = rd_u32(b, 16).unwrap();
    let fork_attrs: u32 = rd_u32(b, 20).unwrap();
    let mut p: usize = 24;
    let mut start: usize = 0;
    let mut end: usize = 0;
    if common_attrs & ATTR_CMN_NAME != 0 {
        match name_range(b) {
            Some((from, to)) => {
                start = from;
                end = to;
            },
            None => {
                return None;
            },
        }
        p = p + 8;
    }
    assert(p == type_at(b@));
    let mut objtype: u32 = 0;
    if common_attrs & ATTR_CMN_OBJTYPE != 0 {
        objtype = match rd_u32(b, p) {
            Some(v) => v,
            None => {
                return None;
            },
        };
        p = p + 4;
    }
    assert(p == time_at(b@));
    let mut mtime_ns: i64 = 0;
    if common_attrs & ATTR_CMN_MODTIME != 0 {
        let secs: u64 = match rd_u64(b, p) {
            Some(v) => v,
            None => {
                return None;
            },
        };
        let nsecs: u64 = match rd_u64(b, p + 8) {
            Some(v) => v,
            None => {
                return None;
            },
        };
        mtime_ns = to_nanos(to_signed(secs), to_signed(nsecs));
        p = p + 16;
    }
    assert(p == id_at(b@));
    let mut fileid: u64 = 0;
    if common_attrs & ATTR_CMN_FILEID != 0 {
        fileid = match rd_u64(b, p) {
            Some(v) => v,
            None => {
                return None;
            },
        };
        p = p + 8;
    }
    assert(p == link_at(b@));
    let mut nlink: u32 = 1;
    if file_attrs & ATTR_FILE_LINKCOUNT != 0 {
        nlink = match rd_u32(b, p) {
            Some(v) => v,
            None => {
                return None;
            },
        };
        p = p + 4;
    }
    assert(p == alloc_at(b@));
    let mut allocated: u64 = 0;
    if file_attrs & ATTR_FILE_ALLOCSIZE != 0 {
        allocated = match rd_u64(b, p) {
            Some(v) => v,
            None => {
                return None;
            },
        };
        p = p + 8;
    }
    assert(p == private_at(b@));
    let mut private: u64 = allocated;
    if fork_attrs & ATTR_CMNEXT_PRIVATESIZE != 0 {
        private = match rd_u64(b, p) {
            Some(v) => v,
            None => {
                return None;
            },
        };
    }
    let attrs = Attrs { objtype, mtime_ns, fileid, nlink, allocated, private };
    assert(attrs == attrs_of(b@));
    let raw = vstd::slice::slice_subrange(b, start, end);
    assert(raw@ =~= name_bytes(b@));
    let name = from_utf8_lossy(raw);
    Some((entry_of(name, &attrs), total as usize))
}

// ---- a batch ----------------------------------------------------------------------

/// The entry at the front of `b`.
pub open spec fn front(b: Seq<u8>) -> Option<EntryView> {
    entry_view(utf8_lossy(name_bytes(b)), attrs_of(b))
}

/// The first `n` entries of `b` one after the other, or `None` where one of them is
/// not complete.
pub open spec fn batch(b: Seq<u8>, n: nat) -> Option<Seq<EntryView>>
    decreases n,
{
    if n == 0 {
        Some(Seq::empty())
    } else if !complete(b) {
        None
    } else {
        match batch(b.skip(u32_at(b, 0) as int), (n - 1) as nat) {
            Some(rest) => match front(b) {
                Some(e) => Some(seq![e] + rest),
                None => Some(rest),
            },
            None => None,
        }
    }
}

/// The entries among the first `n` that come before the first one that is not
/// complete.
pub open spec fn before_break(b: Seq<u8>, n: nat) -> Seq<EntryView>
    decreases n,
{
    if n == 0 || !complete(b) {
        Seq::empty()
    } else {
        let rest = before_break(b.skip(u32_at(b, 0) as int), (n - 1) as nat);
        match front(b) {
            Some(e) => seq![e] + rest,
            None => rest,
        }
    }
}

/// The entries, each as what it holds.
pub open spec fn entries_view(v: Seq<Entry>) -> Seq<EntryView> {
    v.map_values(|e: Entry| e@)
}

/// How reading a directory goes on after one call of the kernel.
#[derive(Clone, Copy, PartialEq, Eq, Debug, Structural)]
pub enum Step {
    /// There may be more entries: call again.
    More,
    /// All entries have been read.
    Done,
    /// The call failed or its answer made no sense. The caller must fall back
    /// rather than accept a partial listing.
    Failed,
}

/// Take in what one call of the kernel answered: the number `n` of entries, and
/// the buffer that holds them.
pub fn take_batch(out: &mut Vec<Entry>, n: i32, buf: &[u8]) -> (r: Step)
    ensures
        n < 0 ==> r == Step::Failed && entries_view(final(out)@) == entries_view(old(out)@),
        n == 0 ==> r == Step::Done && entries_view(final(out)@) == entries_view(old(out)@),
        n > 0 ==> (match batch(buf@, n as nat) {
            Some(es) => r == Step::More && entries_view(final(out)@) == entries_view(old(out)@)
                + es,
            None => r == Step::Failed && entries_view(final(out)@) == entries_view(old(out)@)
                + before_break(buf@, n as nat),
        }),
        entries_view(old(out)@).is_prefix_of(entries_view(final(out)@)),
{
    if n < 0 {
        return Step::Failed;
    }
    if n == 0 {
        return Step::Done;
    }
    let len: usize = buf.len();
    let ghost start = entries_view(out@);
    let ghost goal = batch(buf@, n as nat);
    let mut off: usize = 0;
    let mut k: i32 = 0;
    assert(buf@.skip(0) =~= buf@);
    proof {
        if goal is Some {
            assert(start + goal->0 =~= entries_view(out@) + goal->0);
        }
        assert(start.is_prefix_of(start));
    }
    let ghost read = before_break(buf@, n as nat);
    while k < n
        invariant
            0 <= k <= n,
            off <= len,
            len == buf@.len(),
            goal == batch(buf@, n as nat),
            start == entries_view(old(out)@),
            read == before_break(buf@, n as nat),
            match batch(buf@.skip(off as int), (n - k) as nat) {
                Some(es) => goal is Some && start + goal->0 == entries_view(out@) + es,
                None => goal is None,
            },
            start + read == entries_view(out@) + before_break(
                buf@.skip(off as int),
                (n - k) as nat,
            ),
            start.is_prefix_of(entries_view(out@)),
        decreases n - k,
    {
        let ghost b = buf@.skip(off as int);
        let rest = vstd::slice::slice_subrange(buf, off, len);
        assert(rest@ =~= b);
        match parse_entry(rest) {
            Some((e, size)) => {
                let ghost before = entries_view(out@);
                let ghost tail = batch(b.skip(size as int), (n - k - 1) as nat);
                let ghost left = before_break(b.skip(size as int), (n - k - 1) as nat);
                assert(buf@.skip(off + size) =~= b.skip(size as int));
                match e {
                    Some(e) => {
                        let ghost v = e@;
                        out.push(e);
                        assert(entries_view(out@) =~= before.push(v));
                        proof {
                            assert(before + (seq![v] + left) =~= before.push(v) + left);
                            assert(start =~= before.push(v).take(start.len() as int));
                            if tail is Some {
                                assert(before + (seq![v] + tail->0) =~= before.push(v) + tail->0);
                            }
                        }
                    },
                    None => {},
                }
                off = off + size;
            },
            None => {
                assert(entries_view(out@) + Seq::<EntryView>::empty() =~= entries_view(out@));
                return Step::Failed;
            },
        }
        k += 1;
    }
    assert(entries_view(out@) + Seq::<EntryView>::empty() =~= entries_view(out@));
    Step::More
}

} // verus!
