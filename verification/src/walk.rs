//! What a directory walk decides on the way: what it may take from the previous
//! index instead of the file system, and how each file counts.

use vstd::hash_map::StringHashMap;
use vstd::prelude::*;
use vstd::std_specs::hash::*;

use std::collections::HashSet;

use crate::builder::{DirInfo, Prior, ScanProgress};
use crate::bulkstat;
use crate::bulkstat::{Entry, EntryView};
use crate::index;
use crate::index::IndexView;
use crate::path;
use crate::path::{join, normalized, PathSet};

verus! {

broadcast use vstd::std_specs::hash::group_hash_axioms;

// ---- hard links ------------------------------------------------------------------

/// The files with several names that have been counted already, by device and
/// inode.
pub struct SeenLinks {
    seen: HashSet<u128>,
}

/// Device and inode as one number.
pub open spec fn link_id(dev: u64, ino: u64) -> u128 {
    (dev * 0x1_0000_0000_0000_0000 + ino) as u128
}

impl View for SeenLinks {
    type V = Set<u128>;

    closed spec fn view(&self) -> Set<u128> {
        self.seen@
    }
}

impl SeenLinks {
    /// Nothing counted yet.
    pub fn new() -> (r: SeenLinks)
        ensures
            r@ == Set::<u128>::empty(),
    {
        SeenLinks { seen: HashSet::new() }
    }
}

/// Count a multiply-linked inode only the first time it is seen. Hard links share
/// one inode under several names, so without this they would inflate the totals by
/// their link count.
pub fn dedup_hardlink(
    allocated: u64,
    private: u64,
    dev: u64,
    ino: u64,
    nlink: u32,
    seen: &mut SeenLinks,
) -> (r: (u64, u64))
    ensures
        nlink > 1 ==> final(seen)@ == old(seen)@.insert(link_id(dev, ino)),
        nlink <= 1 ==> final(seen)@ == old(seen)@,
        r == (if nlink > 1 && old(seen)@.contains(link_id(dev, ino)) {
            (0u64, 0u64)
        } else {
            (allocated, private)
        }),
{
    if nlink > 1 {
        let id: u128 = dev as u128 * 0x1_0000_0000_0000_0000 + ino as u128;
        if !seen.seen.insert(id) {
            return (0, 0);
        }
    }
    (allocated, private)
}

/// Two files are one only where both device and inode agree.
pub proof fn law_links_are_told_apart(d1: u64, i1: u64, d2: u64, i2: u64)
    requires
        link_id(d1, i1) == link_id(d2, i2),
    ensures
        d1 == d2,
        i1 == i2,
{
}

/// The size of a file from its block count, where the bulk interface is missing.
/// Without the figure for unshared bytes the best available answer is the
/// allocated size.
pub fn counted_size(blocks: u64, dev: u64, ino: u64, nlink: u32, seen: &mut SeenLinks) -> (r: (
    u64,
    u64,
))
    ensures
        nlink > 1 ==> final(seen)@ == old(seen)@.insert(link_id(dev, ino)),
        nlink <= 1 ==> final(seen)@ == old(seen)@,
        ({
            let size = if blocks * 512 > u64::MAX {
                u64::MAX
            } else {
                (blocks * 512) as u64
            };
            r == (if nlink > 1 && old(seen)@.contains(link_id(dev, ino)) {
                (0u64, 0u64)
            } else {
                (size, size)
            })
        }),
{
    let size: u64 = if blocks > u64::MAX / 512 {
        u64::MAX
    } else {
        blocks * 512
    };
    dedup_hardlink(size, size, dev, ino, nlink, seen)
}

/// A modification time of seconds and nanoseconds in nanoseconds. The seconds
/// saturate.
pub fn mtime_of(secs: i64, nsecs: i64) -> (r: i64)
    requires
        0 <= nsecs < 1_000_000_000,
        bulkstat::clamp(secs * 1_000_000_000) + nsecs <= i64::MAX,
    ensures
        r == bulkstat::clamp(secs * 1_000_000_000) + nsecs,
{
    let x: i128 = secs as i128 * 1_000_000_000;
    let whole: i64 = if x > i64::MAX as i128 {
        i64::MAX
    } else if x < i64::MIN as i128 {
        i64::MIN
    } else {
        x as i64
    };
    whole + nsecs
}

// ---- reuse -------------------------------------------------------------------------

/// What an incremental refresh may reuse from a previous scan.
pub struct Reuse<'a> {
    pub prior: &'a Prior,
    /// Directories reported changed since the previous scan, closed over their
    /// ancestors. When present, any directory absent from this set can be served
    /// whole from the index without touching the file system.
    ///
    /// When `None`, only the weaker mtime check applies: a directory's own files can
    /// be reused, but every directory is still visited, because a change deep in a
    /// subtree does not move its ancestors' mtimes.
    pub dirty_closure: Option<&'a PathSet>,
}

/// Whether the directory at `p` has the mtime that the index recorded for it.
pub open spec fn unchanged(v: IndexView, p: Seq<char>, mtime_ns: i64) -> bool {
    let paths = index::paths_upto(v, v.dirs.len());
    &&& mtime_ns != 0
    &&& paths.contains_key(path::norm(p))
    &&& paths[path::norm(p)] < v.dirs.len()
    &&& v.dirs[paths[path::norm(p)] as int].mtime_ns == mtime_ns
}

/// Whether the sizes of a directory's own files can come from the index: same
/// directory, same mtime, so its direct entries are unchanged.
pub fn files_cached(prior: Option<&Prior>, p: &str, mtime_ns: i64) -> (r: bool)
    requires
        prior matches Some(q) ==> q.wf(),
    ensures
        r == (prior matches Some(q) && unchanged(q.index@, p@, mtime_ns)),
{
    match prior {
        Some(q) => {
            if mtime_ns == 0 {
                return false;
            }
            match q.paths.get(p) {
                Some(ix) => {
                    if (ix as usize) < q.index.dirs.len() {
                        assert(q.index@.dirs[ix as int] == q.index.dirs@[ix as int]@);
                        q.index.dirs[ix as usize].mtime_ns == mtime_ns
                    } else {
                        false
                    }
                },
                None => false,
            }
        },
        None => false,
    }
}

/// The record that a directory can be served from whole: one with no changed path
/// at or below it, that the index knows.
pub open spec fn served(v: IndexView, dirty: Option<Set<Seq<char>>>, p: Seq<char>) -> Option<u32> {
    let paths = index::paths_upto(v, v.dirs.len());
    match dirty {
        Some(d) => if !d.contains(path::norm(p)) && paths.contains_key(path::norm(p)) {
            Some(paths[path::norm(p)])
        } else {
            None
        },
        None => None,
    }
}

/// The set of an optional path set.
pub open spec fn opt_set(d: Option<&PathSet>) -> Option<Set<Seq<char>>> {
    match d {
        Some(d) => Some(d@),
        None => None,
    }
}

/// The record that the directory at `p` can be served from without descending into
/// it.
pub fn served_from(prior: Option<&Prior>, dirty: Option<&PathSet>, p: &str) -> (r: Option<u32>)
    requires
        prior matches Some(q) ==> q.wf(),
    ensures
        r == (match prior {
            Some(q) => served(q.index@, opt_set(dirty), p@),
            None => None,
        }),
{
    match prior {
        Some(q) => match dirty {
            Some(d) => if d.contains(p) {
                None
            } else {
                q.paths.get(p)
            },
            None => None,
        },
        None => None,
    }
}

/// A directory that changed, or that has a changed path below it, is never served
/// from the index.
pub proof fn law_dirty_is_walked(v: IndexView, dirty: Set<Seq<char>>, p: Seq<char>)
    requires
        dirty.contains(path::norm(p)),
    ensures
        served(v, Some(dirty), p) is None,
{
}

// ---- one directory's entries --------------------------------------------------------

/// How a file counts.
#[derive(Clone, Copy, PartialEq, Eq, Debug, Structural)]
pub struct FileStat {
    pub allocated: u64,
    pub private: u64,
    pub fileid: u64,
    pub nlink: u32,
}

/// The figures of an entry.
pub open spec fn stat_of(e: EntryView) -> FileStat {
    FileStat { allocated: e.allocated, private: e.private, fileid: e.fileid, nlink: e.nlink }
}

/// The files among the first `k` entries by name; of two with one name the later
/// one counts.
pub open spec fn files_upto(es: Seq<EntryView>, k: nat) -> Map<Seq<char>, FileStat>
    decreases k,
{
    if k == 0 {
        Map::empty()
    } else {
        let e = es[k - 1];
        let before = files_upto(es, (k - 1) as nat);
        if e.is_file {
            before.insert(e.name, stat_of(e))
        } else {
            before
        }
    }
}

/// The other entries among the first `k` that have an mtime: their paths below
/// `dir`, and their mtimes.
pub open spec fn dirs_upto(dir: Seq<char>, es: Seq<EntryView>, k: nat) -> Seq<(Seq<char>, i64)>
    decreases k,
{
    if k == 0 {
        Seq::empty()
    } else {
        let e = es[k - 1];
        let before = dirs_upto(dir, es, (k - 1) as nat);
        if !e.is_file && e.mtime_ns != 0 {
            before.push((path::join_text(dir, e.name), e.mtime_ns))
        } else {
            before
        }
    }
}

/// The entries of one directory, sorted into files by name and directories.
pub struct Listing {
    pub files: StringHashMap<FileStat>,
    /// Paths and mtimes of the child directories.
    pub dirs: Vec<(String, i64)>,
}

/// Paths and mtimes, with paths as characters.
pub open spec fn stamps(v: Seq<(String, i64)>) -> Seq<(Seq<char>, i64)> {
    v.map_values(|e: (String, i64)| (e.0@, e.1))
}

impl Listing {
    /// Sort the entries of the directory `dir`.
    pub fn of(dir: &str, entries: &Vec<Entry>) -> (r: Listing)
        ensures
            r.files@ == files_upto(bulkstat::entries_view(entries@), entries@.len()),
            stamps(r.dirs@) == dirs_upto(
                dir@,
                bulkstat::entries_view(entries@),
                entries@.len(),
            ),
    {
        let ghost es = bulkstat::entries_view(entries@);
        let mut files: StringHashMap<FileStat> = StringHashMap::new();
        let mut dirs: Vec<(String, i64)> = Vec::new();
        let mut i: usize = 0;
        assert(stamps(dirs@) =~= Seq::<(Seq<char>, i64)>::empty());
        while i < entries.len()
            invariant
                es == bulkstat::entries_view(entries@),
                i <= entries@.len(),
                files@ == files_upto(es, i as nat),
                stamps(dirs@) == dirs_upto(dir@, es, i as nat),
            decreases entries@.len() - i,
        {
            let e = &entries[i];
            assert(es[i as int] == e@);
            if e.is_file {
                files.insert(
                    e.name.clone(),
                    FileStat {
                        allocated: e.allocated,
                        private: e.private,
                        fileid: e.fileid,
                        nlink: e.nlink,
                    },
                );
            } else if e.mtime_ns != 0 {
                let ghost before = stamps(dirs@);
                let p = join(dir, e.name.as_str());
                let ghost stamp = (p@, e.mtime_ns);
                dirs.push((p, e.mtime_ns));
                assert(stamps(dirs@) =~= before.push(stamp));
            }
            i += 1;
        }
        Listing { files, dirs }
    }

    /// The figures of the file called `name`.
    pub fn file(&self, name: &str) -> (r: Option<FileStat>)
        ensures
            r == (if self.files@.contains_key(name@) {
                Some(self.files@[name@])
            } else {
                None
            }),
    {
        match self.files.get(name) {
            Some(s) => Some(*s),
            None => None,
        }
    }
}

/// Facts about directories by path, gathered on the walk.
pub struct DirInfos {
    map: StringHashMap<DirInfo>,
}

impl View for DirInfos {
    type V = Map<Seq<char>, DirInfo>;

    closed spec fn view(&self) -> Map<Seq<char>, DirInfo> {
        self.map@
    }
}

impl DirInfos {
    /// Nothing known yet.
    pub fn new() -> (r: DirInfos)
        ensures
            r@ == Map::<Seq<char>, DirInfo>::empty(),
    {
        DirInfos { map: StringHashMap::new() }
    }

    /// What is known of the directory at `p`.
    pub fn get(&self, p: &str) -> (r: Option<DirInfo>)
        ensures
            r == (if self@.contains_key(path::norm(p@)) {
                Some(self@[path::norm(p@)])
            } else {
                None
            }),
    {
        match self.map.get(normalized(p).as_str()) {
            Some(i) => Some(*i),
            None => None,
        }
    }

    /// The mtime known for the directory at `p`; 0 stands for none.
    pub fn mtime(&self, p: &str) -> (r: i64)
        ensures
            r == (if self@.contains_key(path::norm(p@)) {
                self@[path::norm(p@)].mtime_ns
            } else {
                0
            }),
    {
        match self.get(p) {
            Some(i) => i.mtime_ns,
            None => 0,
        }
    }

    /// Note what was learned of the directory at `p`.
    pub fn set(&mut self, p: &str, info: DirInfo)
        ensures
            final(self)@ == old(self)@.insert(path::norm(p@), info),
    {
        self.map.insert(normalized(p), info);
    }

    /// Note the mtime of the directory at `p`, unless something is known of it
    /// already, so that the pass that reads it needs no stat of its own.
    pub fn note_mtime(&mut self, p: &str, mtime_ns: i64)
        ensures
            final(self)@ == (if old(self)@.contains_key(path::norm(p@)) {
                old(self)@
            } else {
                old(self)@.insert(path::norm(p@), (DirInfo { mtime_ns, files_cached: false }))
            }),
    {
        let key = normalized(p);
        if !self.map.contains_key(key.as_str()) {
            self.map.insert(key, DirInfo { mtime_ns, files_cached: false });
        }
    }
}

// ---- reading one directory ------------------------------------------------------------

impl<'a> Reuse<'a> {
    /// The lookups are those of the index.
    pub open spec fn wf(&self) -> bool {
        self.prior.wf()
    }
}

/// What is known of a directory once it is read: its mtime, as its parent's listing
/// gave it or else as `asked` for, and whether the sizes of its own files can come
/// from the index.
pub open spec fn entered(
    infos: Map<Seq<char>, DirInfo>,
    reuse: Option<&Reuse>,
    p: Seq<char>,
    asked: i64,
) -> DirInfo {
    let known = if infos.contains_key(path::norm(p)) {
        infos[path::norm(p)].mtime_ns
    } else {
        0
    };
    let mtime_ns = if known == 0 {
        asked
    } else {
        known
    };
    DirInfo {
        mtime_ns,
        files_cached: reuse matches Some(r) && unchanged(r.prior.index@, p, mtime_ns),
    }
}

/// Note what is known of a directory that is about to be read. `asked` is its mtime
/// from the file system, for where no listing gave it.
pub fn enter_dir(infos: &mut DirInfos, reuse: Option<&Reuse>, p: &str, asked: i64) -> (r: DirInfo)
    requires
        reuse matches Some(r) ==> r.wf(),
    ensures
        r == entered(old(infos)@, reuse, p@, asked),
        final(infos)@ == old(infos)@.insert(path::norm(p@), r),
{
    let known: i64 = infos.mtime(p);
    let mtime_ns: i64 = if known == 0 {
        asked
    } else {
        known
    };
    let cached = match reuse {
        Some(r) => files_cached(Some(r.prior), p, mtime_ns),
        None => false,
    };
    let info = DirInfo { mtime_ns, files_cached: cached };
    infos.set(p, info);
    info
}

/// Whether a child of a directory is walked: where the sizes of the directory's own
/// files come from the index, only its directories are.
pub fn walks_child(info: DirInfo, is_dir: bool) -> (r: bool)
    ensures
        r == (!info.files_cached || is_dir),
{
    !info.files_cached || is_dir
}

/// The facts with the mtimes of the first `k` directories, where nothing was known.
pub open spec fn noted_upto(
    infos: Map<Seq<char>, DirInfo>,
    dirs: Seq<(Seq<char>, i64)>,
    k: nat,
) -> Map<Seq<char>, DirInfo>
    decreases k,
{
    if k == 0 {
        infos
    } else {
        let before = noted_upto(infos, dirs, (k - 1) as nat);
        let key = path::norm(dirs[k - 1].0);
        if before.contains_key(key) {
            before
        } else {
            before.insert(key, (DirInfo { mtime_ns: dirs[k - 1].1, files_cached: false }))
        }
    }
}

/// Hand each child directory its mtime, so that the pass that reads it needs no
/// stat of its own.
pub fn note_dirs(infos: &mut DirInfos, listing: &Listing)
    ensures
        final(infos)@ == noted_upto(old(infos)@, stamps(listing.dirs@), listing.dirs@.len()),
{
    let ghost before = infos@;
    let ghost all = stamps(listing.dirs@);
    let mut i: usize = 0;
    while i < listing.dirs.len()
        invariant
            all == stamps(listing.dirs@),
            i <= listing.dirs@.len(),
            infos@ == noted_upto(before, all, i as nat),
        decreases listing.dirs@.len() - i,
    {
        let d = &listing.dirs[i];
        assert(all[i as int] == (d.0@, d.1));
        infos.note_mtime(d.0.as_str(), d.1);
        i += 1;
    }
}

/// The record that a child directory is served from, without descending into it.
pub fn child_record(reuse: Option<&Reuse>, p: &str) -> (r: Option<u32>)
    requires
        reuse matches Some(r) ==> r.wf(),
    ensures
        r == (match reuse {
            Some(u) => served(u.prior.index@, opt_set(u.dirty_closure), p@),
            None => None,
        }),
{
    match reuse {
        Some(u) => served_from(Some(u.prior), u.dirty_closure, p),
        None => None,
    }
}

/// What the file system says of one file.
#[derive(Clone, Copy, PartialEq, Eq, Debug, Structural)]
pub struct StatFacts {
    pub blocks: u64,
    pub dev: u64,
    pub ino: u64,
    pub nlink: u32,
}

/// How a file is known: its figures, its device and inode, and its number of names.
pub open spec fn known_file(
    files: Option<Map<Seq<char>, FileStat>>,
    name: Seq<char>,
    dev: u64,
    asked: Option<StatFacts>,
) -> Option<(u64, u64, u128, u32)> {
    if files matches Some(m) && m.contains_key(name) {
        let s = files->0[name];
        Some((s.allocated, s.private, link_id(dev, s.fileid), s.nlink))
    } else {
        match asked {
            Some(a) => {
                let size = if a.blocks * 512 > u64::MAX {
                    u64::MAX
                } else {
                    (a.blocks * 512) as u64
                };
                Some((size, size, link_id(a.dev, a.ino), a.nlink))
            },
            None => None,
        }
    }
}

/// The files of an optional listing.
pub open spec fn opt_files(listing: Option<&Listing>) -> Option<Map<Seq<char>, FileStat>> {
    match listing {
        Some(l) => Some(l.files@),
        None => None,
    }
}

/// How a file of a directory counts: by the listing, or, where that does not have
/// it, by what the file system says (`asked`). A file of several names counts once.
/// What counts is added to the progress.
pub fn size_file(
    listing: Option<&Listing>,
    name: &str,
    dev: u64,
    asked: Option<StatFacts>,
    seen: &mut SeenLinks,
    progress: &mut ScanProgress,
) -> (r: Option<(u64, u64)>)
    ensures
        match known_file(opt_files(listing), name@, dev, asked) {
            Some((allocated, private, id, nlink)) => {
                &&& r == Some(
                    if nlink > 1 && old(seen)@.contains(id) {
                        (0u64, 0u64)
                    } else {
                        (allocated, private)
                    },
                )
                &&& final(seen)@ == (if nlink > 1 {
                    old(seen)@.insert(id)
                } else {
                    old(seen)@
                })
                &&& *final(progress) == old(progress).counted(1, (r->0).0)
            },
            None => r is None && final(seen)@ == old(seen)@ && *final(progress) == *old(progress),
        },
{
    let stat = match listing {
        Some(l) => l.file(name),
        None => None,
    };
    let sized = match stat {
        Some(s) => Some(dedup_hardlink(s.allocated, s.private, dev, s.fileid, s.nlink, seen)),
        None => match asked {
            Some(a) => Some(counted_size(a.blocks, a.dev, a.ino, a.nlink, seen)),
            None => None,
        },
    };
    if let Some((size, _)) = sized {
        progress.count(1, size);
    }
    sized
}

} // verus!
