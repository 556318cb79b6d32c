//! What is read from the entries that the kernel hands out.

use vstd::prelude::*;

use crate::bulkstat;
use crate::bulkstat::{Attrs, EntryView};
use crate::codec;

verus! {

// ---- the layout of an entry -----------------------------------------------------------------

/// The bytes where they are there, and none otherwise.
pub open spec fn opt(there: bool, s: Seq<u8>) -> Seq<u8> {
    if there {
        s
    } else {
        Seq::empty()
    }
}

/// The front of an entry: its length and the five words that tell which attributes follow.
pub open spec fn head(total: u32, common: u32, others: Seq<u8>, file: u32, fork: u32) -> Seq<u8> {
    codec::le(total as nat, 4) + codec::le(common as nat, 4) + others + codec::le(file as nat, 4)
        + codec::le(fork as nat, 4)
}

/// The head of an entry with its name reference, type and time, as far as they are there.
pub open spec fn with_time(
    h: Seq<u8>,
    common: u32,
    name_ref: Seq<u8>,
    objtype: u32,
    secs: u64,
    nsecs: u64,
) -> Seq<u8> {
    h + opt(common & 0x1 != 0, name_ref) + opt(
        common & 0x8 != 0,
        codec::le(objtype as nat, 4),
    ) + opt(common & 0x400 != 0, codec::le(secs as nat, 8) + codec::le(nsecs as nat, 8))
}

/// An entry as it is packed: the attributes that are there follow the head in the order of
/// their bits, without gaps, those of files behind the common ones and those of forks last.
pub open spec fn packed(
    h: Seq<u8>,
    common: u32,
    file: u32,
    fork: u32,
    name_ref: Seq<u8>,
    objtype: u32,
    secs: u64,
    nsecs: u64,
    fileid: u64,
    nlink: u32,
    allocated: u64,
    private: u64,
) -> Seq<u8> {
    with_time(h, common, name_ref, objtype, secs, nsecs) + opt(
        common & 0x200_0000 != 0,
        codec::le(fileid as nat, 8),
    ) + opt(file & 0x1 != 0, codec::le(nlink as nat, 4)) + opt(
        file & 0x4 != 0,
        codec::le(allocated as nat, 8),
    ) + opt(fork & 0x8 != 0, codec::le(private as nat, 8))
}

proof fn lemma_prefix(a: Seq<u8>, b: Seq<u8>, c: Seq<u8>)
    requires
        c.len() >= (a + b).len(),
        c.take((a + b).len() as int) == a + b,
    ensures
        c.take(a.len() as int) == a,
        c.subrange(a.len() as int, (a + b).len() as int) == b,
{
    assert((a + b).take(a.len() as int) =~= a);
    assert(c.take(a.len() as int) =~= c.take((a + b).len() as int).take(a.len() as int));
    assert(c.subrange(a.len() as int, (a + b).len() as int) =~= (a + b).subrange(
        a.len() as int,
        (a + b).len() as int,
    ));
    assert((a + b).subrange(a.len() as int, (a + b).len() as int) =~= b);
}

proof fn lemma_u32(c: Seq<u8>, p: int, v: u32)
    requires
        0 <= p,
        p + 4 <= c.len(),
        c.subrange(p, p + 4) == codec::le(v as nat, 4),
    ensures
        bulkstat::u32_at(c, p) == v,
{
    reveal(bulkstat::u32_at);
    codec::lemma_pow256();
    codec::lemma_value_of_le(v as nat, 4);
}

proof fn lemma_u64(c: Seq<u8>, p: int, v: u64)
    requires
        0 <= p,
        p + 8 <= c.len(),
        c.subrange(p, p + 8) == codec::le(v as nat, 8),
    ensures
        bulkstat::u64_at(c, p) == v,
{
    reveal(bulkstat::u64_at);
    codec::lemma_pow256();
    codec::lemma_value_of_le(v as nat, 8);
}

/// The words at the front of an entry.
proof fn lemma_head(c: Seq<u8>, total: u32, common: u32, others: Seq<u8>, file: u32, fork: u32)
    requires
        others.len() == 8,
        c.len() >= 24,
        c.take(24) == head(total, common, others, file, fork),
    ensures
        head(total, common, others, file, fork).len() == 24,
        bulkstat::u32_at(c, 0) == total,
        bulkstat::common(c) == common,
        bulkstat::file(c) == file,
        bulkstat::fork(c) == fork,
{
    codec::lemma_le_len(total as nat, 4);
    codec::lemma_le_len(common as nat, 4);
    codec::lemma_le_len(file as nat, 4);
    codec::lemma_le_len(fork as nat, 4);
    let a1 = codec::le(total as nat, 4);
    let a2 = a1 + codec::le(common as nat, 4);
    let a3 = a2 + others;
    let a4 = a3 + codec::le(file as nat, 4);
    let h = a4 + codec::le(fork as nat, 4);
    lemma_prefix(a4, codec::le(fork as nat, 4), c);
    lemma_prefix(a3, codec::le(file as nat, 4), c);
    lemma_prefix(a2, others, c);
    lemma_prefix(a1, codec::le(common as nat, 4), c);
    assert(c.subrange(0, 4) =~= c.take(4));
    lemma_u32(c, 0, total);
    lemma_u32(c, 4, common);
    lemma_u32(c, 16, file);
    lemma_u32(c, 20, fork);
}

/// Each attribute is read from where it is packed, whichever of the others are there. One
/// that is missing counts as nothing, but a missing link count as one and missing unshared
/// bytes as all allocated ones.
#[verifier::spinoff_prover]
pub proof fn law_attributes_are_read_where_they_are_packed(
    total: u32,
    common: u32,
    others: Seq<u8>,
    file: u32,
    fork: u32,
    name_ref: Seq<u8>,
    objtype: u32,
    secs: u64,
    nsecs: u64,
    fileid: u64,
    nlink: u32,
    allocated: u64,
    private: u64,
    tail: Seq<u8>,
)
    requires
        others.len() == 8,
        name_ref.len() == 8,
    ensures
        ({
            let b = packed(
                head(total, common, others, file, fork),
                common,
                file,
                fork,
                name_ref,
                objtype,
                secs,
                nsecs,
                fileid,
                nlink,
                allocated,
                private,
            ) + tail;
            let a = bulkstat::attrs_of(b);
            &&& bulkstat::u32_at(b, 0) == total
            &&& bulkstat::attrs_end(b) + tail.len() == b.len()
            &&& a.objtype == if common & 0x8 != 0 {
                objtype
            } else {
                0
            }
            &&& a.mtime_ns == if common & 0x400 != 0 {
                bulkstat::nanos(codec::signed(secs as nat), codec::signed(nsecs as nat))
            } else {
                0
            }
            &&& a.fileid == if common & 0x200_0000 != 0 {
                fileid
            } else {
                0
            }
            &&& a.nlink == if file & 0x1 != 0 {
                nlink
            } else {
                1
            }
            &&& a.allocated == if file & 0x4 != 0 {
                allocated
            } else {
                0
            }
            &&& a.private == if fork & 0x8 != 0 {
                private
            } else if file & 0x4 != 0 {
                allocated
            } else {
                0
            }
        }),
{
    let h = head(total, common, others, file, fork);
    codec::lemma_le_len(total as nat, 4);
    codec::lemma_le_len(common as nat, 4);
    codec::lemma_le_len(file as nat, 4);
    codec::lemma_le_len(fork as nat, 4);
    codec::lemma_le_len(objtype as nat, 4);
    codec::lemma_le_len(secs as nat, 8);
    codec::lemma_le_len(nsecs as nat, 8);
    codec::lemma_le_len(fileid as nat, 8);
    codec::lemma_le_len(nlink as nat, 4);
    codec::lemma_le_len(allocated as nat, 8);
    codec::lemma_le_len(private as nat, 8);
    let ty = codec::le(objtype as nat, 4);
    let time = codec::le(secs as nat, 8) + codec::le(nsecs as nat, 8);
    let o1 = opt(common & 0x1 != 0, name_ref);
    let o2 = opt(common & 0x8 != 0, ty);
    let o3 = opt(common & 0x400 != 0, time);
    let o4 = opt(common & 0x200_0000 != 0, codec::le(fileid as nat, 8));
    let o5 = opt(file & 0x1 != 0, codec::le(nlink as nat, 4));
    let o6 = opt(file & 0x4 != 0, codec::le(allocated as nat, 8));
    let o7 = opt(fork & 0x8 != 0, codec::le(private as nat, 8));
    let s1 = h + o1;
    let s2 = s1 + o2;
    let s3 = s2 + o3;
    let s4 = s3 + o4;
    let s5 = s4 + o5;
    let s6 = s5 + o6;
    let s7 = s6 + o7;
    let b = s7 + tail;
    assert(b.take(s7.len() as int) =~= s7);
    lemma_prefix(s6, o7, b);
    lemma_prefix(s5, o6, b);
    lemma_prefix(s4, o5, b);
    lemma_prefix(s3, o4, b);
    lemma_prefix(s2, o3, b);
    lemma_prefix(s1, o2, b);
    lemma_prefix(h, o1, b);
    lemma_head(b, total, common, others, file, fork);
    assert(bulkstat::type_at(b) == s1.len());
    assert(bulkstat::time_at(b) == s2.len());
    assert(bulkstat::id_at(b) == s3.len());
    assert(bulkstat::link_at(b) == s4.len());
    assert(bulkstat::alloc_at(b) == s5.len());
    assert(bulkstat::private_at(b) == s6.len());
    if common & 0x8 != 0 {
        lemma_u32(b, s1.len() as int, objtype);
    }
    if common & 0x400 != 0 {
        let p = s2.len() as int;
        let whole = b.subrange(p, p + 16);
        assert(whole == time);
        assert(b.subrange(p, p + 8) =~= whole.subrange(0, 8));
        assert(b.subrange(p + 8, p + 16) =~= whole.subrange(8, 16));
        assert(time.subrange(0, 8) =~= codec::le(secs as nat, 8));
        assert(time.subrange(8, 16) =~= codec::le(nsecs as nat, 8));
        lemma_u64(b, p, secs);
        lemma_u64(b, p + 8, nsecs);
    }
    if common & 0x200_0000 != 0 {
        lemma_u64(b, s3.len() as int, fileid);
    }
    if file & 0x1 != 0 {
        lemma_u32(b, s4.len() as int, nlink);
    }
    if file & 0x4 != 0 {
        lemma_u64(b, s5.len() as int, allocated);
    }
    if fork & 0x8 != 0 {
        lemma_u64(b, s6.len() as int, private);
    }
}

/// A time is seconds and nanoseconds together, where that can be counted.
pub proof fn law_times_are_counted_in_nanoseconds(secs: int, nsecs: int)
    requires
        i64::MIN <= secs * 1_000_000_000 <= i64::MAX,
        i64::MIN <= secs * 1_000_000_000 + nsecs <= i64::MAX,
    ensures
        bulkstat::nanos(secs, nsecs) == secs * 1_000_000_000 + nsecs,
{
}

/// The name of an entry is the text that its reference points at, counted from the
/// reference, without the byte that ends it.
pub proof fn law_name_is_where_its_reference_points(b: Seq<u8>, skip: u32, name: Seq<u8>)
    requires
        b.len() >= 32,
        bulkstat::common(b) & 0x1 != 0,
        bulkstat::u32_at(b, 24) == skip,
        bulkstat::u32_at(b, 28) == name.len() + 1,
        skip < 0x8000_0000,
        24 + skip + name.len() <= b.len(),
        b.subrange(24 + skip, 24 + skip + name.len()) == name,
    ensures
        bulkstat::name_bytes(b) == name,
{
}

/// An entry is whole just where its head is there, its length is that of a length at least
/// and lies in the buffer, and so do its attributes and its name.
pub proof fn law_cut_entries_are_refused(b: Seq<u8>)
    ensures
        b.len() < 24 ==> !bulkstat::complete(b),
        bulkstat::u32_at(b, 0) > b.len() || bulkstat::u32_at(b, 0) < 4 ==> !bulkstat::complete(b),
        bulkstat::attrs_end(b) > b.len() ==> !bulkstat::complete(b),
        bulkstat::common(b) & 0x1 != 0 && (bulkstat::name_start(b) < 0 || bulkstat::name_end(b)
            > b.len()) ==> !bulkstat::complete(b),
        b.len() >= 24 && 4 <= bulkstat::u32_at(b, 0) <= b.len() && bulkstat::attrs_end(b) <= b.len()
            && (bulkstat::common(b) & 0x1 == 0 || 0 <= bulkstat::name_start(b)
            && bulkstat::name_end(b) <= b.len()) ==> bulkstat::complete(b),
{
}

// ---- entries --------------------------------------------------------------------------------

/// An entry keeps the figures that were handed out for it; what is no regular file takes no
/// bytes, and the directory itself and its parent are no entries.
pub proof fn law_entries_keep_their_figures(name: Seq<char>, a: Attrs)
    ensures
        bulkstat::entry_view(name, a) is None <==> name.len() == 0 || name == "."@ || name == ".."@,
        bulkstat::entry_view(name, a) matches Some(e) ==> {
            &&& e.name == name
            &&& e.is_file <==> a.objtype == 1
            &&& e.mtime_ns == a.mtime_ns
            &&& e.fileid == a.fileid
            &&& e.nlink == a.nlink
            &&& e.is_file ==> e.allocated == a.allocated && e.private == a.private
            &&& !e.is_file ==> e.allocated == 0 && e.private == 0
        },
{
}

/// A batch is read entry by entry: each that is complete and has a name of its own is one
/// more, in order, and reading goes on right behind it.
pub proof fn law_batches_are_read_entry_by_entry(b: Seq<u8>, n: nat)
    requires
        n > 0,
    ensures
        bulkstat::batch(b, 0) == Some(Seq::<EntryView>::empty()),
        !bulkstat::complete(b) ==> bulkstat::batch(b, n) is None
            && bulkstat::before_break(b, n).len()
            == 0,
        bulkstat::complete(b) ==> {
            let rest = b.skip(bulkstat::u32_at(b, 0) as int);
            let one = bulkstat::front(b);
            &&& bulkstat::batch(b, n) is Some <==> bulkstat::batch(rest, (n - 1) as nat) is Some
            &&& bulkstat::batch(b, n) matches Some(es) ==> es == (match one {
                Some(e) => seq![e],
                None => Seq::empty(),
            }) + bulkstat::batch(rest, (n - 1) as nat)->0
        },
{
    if bulkstat::complete(b) {
        if let Some(es) = bulkstat::batch(b, n) {
            let rest = b.skip(bulkstat::u32_at(b, 0) as int);
            let more = bulkstat::batch(rest, (n - 1) as nat)->0;
            assert(Seq::<EntryView>::empty() + more =~= more);
        }
    }
}

/// What comes before a break is the whole batch where nothing breaks, and never more
/// entries than were announced.
pub proof fn law_nothing_is_lost_before_a_break(b: Seq<u8>, n: nat)
    ensures
        bulkstat::batch(b, n) matches Some(es) ==> bulkstat::before_break(b, n) == es,
        bulkstat::before_break(b, n).len() <= n,
        forall|i: int|
            0 <= i < bulkstat::before_break(b, n).len() ==> {
                let e = #[trigger] bulkstat::before_break(b, n)[i];
                e.name.len() > 0 && e.name != "."@ && e.name != ".."@ && (!e.is_file ==> e.allocated
                    == 0 && e.private == 0)
            },
    decreases n,
{
    if n > 0 && bulkstat::complete(b) {
        let rest = b.skip(bulkstat::u32_at(b, 0) as int);
        law_nothing_is_lost_before_a_break(rest, (n - 1) as nat);
        let more = bulkstat::before_break(rest, (n - 1) as nat);
        let all = bulkstat::before_break(b, n);
        if let Some(e) = bulkstat::front(b) {
            assert forall|i: int| 0 <= i < all.len() implies {
                let e = #[trigger] all[i];
                e.name.len() > 0 && e.name != "."@ && e.name != ".."@ && (!e.is_file ==> e.allocated
                    == 0 && e.private == 0)
            } by {
                if i > 0 {
                    assert(all[i] == more[i - 1]);
                }
            }
        }
    }
}

} // verus!
