//! Building trees from walks, and changing them.

use diskscour::browse::{entries_below, largest_first, node_at};
use diskscour::builder::{DirInfo, Prior, TreeBuilder, WalkEntry};
use diskscour::index::{from_tree_at, small_files_fit, Mode};
use diskscour::path::PathSet;
use diskscour::scan::{scan_incremental, scan_streaming, Reuse, ScanProgress, Tree};
use diskscour::walk::{
    child_record, counted_size, dedup_hardlink, enter_dir, mtime_of, note_dirs, size_file,
    walks_child, DirInfos, Listing, SeenLinks, StatFacts,
};

fn dir(path: &str, mtime_ns: i64) -> WalkEntry {
    WalkEntry {
        path: path.into(),
        is_dir: true,
        size: 0,
        private: 0,
        info: Some(DirInfo {
            mtime_ns,
            files_cached: false,
        }),
        reused: None,
    }
}

fn file(path: &str, size: u64) -> WalkEntry {
    WalkEntry {
        path: path.into(),
        is_dir: false,
        size,
        private: size,
        info: None,
        reused: None,
    }
}

fn walk() -> Vec<WalkEntry> {
    vec![
        dir("/t", 1),
        dir("/t/a", 2),
        file("/t/a/f1", 4096),
        dir("/t/a/b", 3),
        file("/t/a/b/f2", 8192),
        dir("/t/c", 4),
        file("/t/c/f3", 2048),
    ]
}

fn sizes(t: &Tree) -> (u64, u64) {
    (t.nodes[t.root].size, t.nodes[t.root].file_count)
}

#[test]
fn streaming_snapshots_are_monotonic_and_match_final() {
    let mut b = TreeBuilder::new("/t");
    let mut snaps = 0usize;
    let mut last = (0u64, 0u64);
    for e in walk() {
        assert!(!b.is_linked(&e.path));
        b.add(&e, None);
        assert!(b.totals_fit());
        if let Some(snap) = b.snapshot() {
            snaps += 1;
            let now = sizes(&snap);
            assert!(now.0 >= last.0, "root size regressed across snapshots");
            assert!(now.1 >= last.1, "file count regressed across snapshots");
            last = now;
        }
    }
    assert!(snaps >= 1, "expected at least one snapshot to fire");
    let (tree, progress) = b.finish();
    assert!(progress.done);
    assert_eq!(tree.nodes[tree.root].file_count, 3, "three files expected under the tree");
    assert_eq!(sizes(&tree), last);
    assert_eq!(last.0, 14336);
}

#[test]
fn streaming_final_equals_non_streaming_scan() {
    let (a, _) = scan_streaming("/t", &walk()).unwrap();
    let mut b = TreeBuilder::new("/t");
    for e in walk() {
        b.add(&e, None);
    }
    let (b, _) = b.finish();
    assert_eq!(sizes(&a), sizes(&b));
    let root = &a.nodes[a.root];
    let names: Vec<&str> = root.children.iter().map(|&c| a.nodes[c].name.as_str()).collect();
    assert_eq!(names, vec!["a", "c"]);
    assert_eq!(root.mtime_ns, 1);
}

#[test]
fn a_walk_of_nothing_is_a_lone_root() {
    let (t, p) = scan_streaming("/t/x", &vec![]).unwrap();
    assert_eq!(t.nodes.len(), 1);
    assert_eq!(t.nodes[0].name, "x");
    assert!(t.nodes[0].is_dir && p.done);
}

#[test]
fn impossible_walks_give_no_tree() {
    let twice = vec![dir("/t", 1), file("/t/a", 1), file("/t/a", 1)];
    assert!(scan_streaming("/t", &twice).is_none());
    let huge = vec![dir("/t", 1), file("/t/a", u64::MAX), file("/t/b", 1)];
    assert!(scan_streaming("/t", &huge).is_none());
}

#[test]
fn unchanged_parts_come_from_the_previous_index() {
    let (full, _) = scan_streaming("/t", &walk()).unwrap();
    assert!(small_files_fit(&full, 4096));
    let idx = from_tree_at(&full, Mode::Full, 1, 4096, 1, 1000);
    assert!(idx.is_sound());
    let prior = Prior::new(idx);
    let rec = prior.index.by_path().get("/t/a").unwrap();
    // `/t/a` is served whole; `/t/c` keeps its files.
    let mut a = dir("/t/a", 0);
    a.info = None;
    a.reused = Some(rec);
    let mut c = dir("/t/c", 4);
    c.info = Some(DirInfo { mtime_ns: 4, files_cached: true });
    let again = vec![dir("/t", 1), a, c];
    let (inc, progress) = scan_incremental("/t", &again, Some(&prior)).unwrap();
    assert_eq!(sizes(&inc), sizes(&full));
    assert_eq!(progress.files, 3);
    assert_eq!(progress.bytes, 14336);
    // A record that does not exist serves nothing.
    let mut bad = dir("/t/a", 0);
    bad.reused = Some(99);
    assert!(scan_incremental("/t", &vec![dir("/t", 1), bad], Some(&prior)).is_none());
}

#[test]
fn removal_takes_the_weight_off_everything_above() {
    let (mut t, _) = scan_streaming("/t", &walk()).unwrap();
    let a = node_at(&t, "/t/a").unwrap();
    let b = node_at(&t, "/t/a/b").unwrap();
    t.remove(b);
    assert_eq!(sizes(&t), (6144, 2));
    assert_eq!(t.nodes[a].size, 4096);
    assert!(t.nodes[b].removed);
    t.remove(b);
    assert_eq!(sizes(&t), (6144, 2));
    t.remove(a);
    assert_eq!(sizes(&t), (2048, 1));
}

#[test]
fn nodes_are_found_by_their_paths() {
    let (t, _) = scan_streaming("/t", &walk()).unwrap();
    for i in 0..t.nodes.len() {
        assert_eq!(node_at(&t, &t.path(i)), Some(i));
    }
    assert_eq!(node_at(&t, "/t/zzz"), None);
    assert_eq!(node_at(&t, "/elsewhere"), None);
    let f2 = node_at(&t, "/t/a/b/f2").unwrap();
    let line: Vec<&str> = t.ancestry(f2).iter().map(|&i| t.nodes[i].name.as_str()).collect();
    assert_eq!(line, vec!["t", "a", "b", "f2"]);
}

#[test]
fn everything_below_is_listed_by_size() {
    let (t, _) = scan_streaming("/t", &walk()).unwrap();
    let all = entries_below(&t, t.root, false);
    assert_eq!(all.len(), 6);
    let sorted = largest_first(&t, all);
    let names: Vec<&str> = sorted.iter().map(|&i| t.nodes[i].name.as_str()).collect();
    assert_eq!(names[0], "a");
    assert_eq!(&names[1..3], &["b", "f2"]);
    assert_eq!(entries_below(&t, t.root, true).len(), 3);
}

#[test]
fn hard_links_count_once() {
    let mut seen = SeenLinks::new();
    assert_eq!(dedup_hardlink(10, 8, 1, 5, 2, &mut seen), (10, 8));
    assert_eq!(dedup_hardlink(10, 8, 1, 5, 2, &mut seen), (0, 0));
    assert_eq!(dedup_hardlink(10, 8, 2, 5, 2, &mut seen), (10, 8));
    assert_eq!(dedup_hardlink(10, 8, 1, 5, 1, &mut seen), (10, 8));
    assert_eq!(counted_size(3, 9, 9, 1, &mut seen), (1536, 1536));
    assert_eq!(counted_size(u64::MAX, 9, 9, 1, &mut seen), (u64::MAX, u64::MAX));
    assert_eq!(mtime_of(2, 5), 2_000_000_005);
    assert_eq!(mtime_of(i64::MIN, 5), i64::MIN + 5);
}

#[test]
fn a_directory_is_entered_with_what_is_known_of_it() {
    let (full, _) = scan_streaming("/t", &walk()).unwrap();
    let idx = from_tree_at(&full, Mode::Full, 1, 4096, 1, 1000);
    let prior = Prior::new(idx);
    let mut dirty = PathSet::new();
    dirty.insert("/t");
    let reuse = Reuse { prior: &prior, dirty_closure: Some(&dirty) };
    let mut infos = DirInfos::new();
    let i = enter_dir(&mut infos, Some(&reuse), "/t", 1);
    assert!(i.files_cached);
    assert!(walks_child(i, true) && !walks_child(i, false));
    let i = enter_dir(&mut infos, Some(&reuse), "/t/a", 99);
    assert!(!i.files_cached);
    assert_eq!(infos.mtime("/t/a"), 99);
    assert!(!enter_dir(&mut infos, None, "/t", 7).files_cached);
    assert_eq!(infos.mtime("/t"), 1);
    assert!(child_record(Some(&reuse), "/t/a").is_some());
    assert!(child_record(Some(&reuse), "/t").is_none());
    assert!(child_record(Some(&reuse), "/t/new").is_none());
    assert!(child_record(None, "/t/a").is_none());
}

#[test]
fn files_are_sized_by_the_listing_or_the_file_system() {
    let entries = vec![
        diskscour::bulkstat::Entry {
            name: "f".into(),
            is_file: true,
            mtime_ns: 0,
            allocated: 100,
            private: 60,
            fileid: 5,
            nlink: 1,
        },
        diskscour::bulkstat::Entry {
            name: "d".into(),
            is_file: false,
            mtime_ns: 77,
            allocated: 0,
            private: 0,
            fileid: 6,
            nlink: 2,
        },
    ];
    let l = Listing::of("/t", &entries);
    let mut infos = DirInfos::new();
    note_dirs(&mut infos, &l);
    assert_eq!(infos.mtime("/t/d"), 77);
    let mut seen = SeenLinks::new();
    let mut p = ScanProgress::new();
    assert_eq!(size_file(Some(&l), "f", 1, None, &mut seen, &mut p), Some((100, 60)));
    let asked = StatFacts { blocks: 2, dev: 1, ino: 9, nlink: 1 };
    assert_eq!(size_file(Some(&l), "g", 1, Some(asked), &mut seen, &mut p), Some((1024, 1024)));
    assert_eq!(size_file(None, "g", 1, None, &mut seen, &mut p), None);
    assert_eq!(p.files, 2);
    assert_eq!(p.bytes, 1124);
}

#[test]
fn a_tree_is_told_in_short() {
    let entries = vec![
        dir("/t", 1),
        dir("/t/p", 2),
        file("/t/p/Cargo.toml", 512),
        dir("/t/p/target", 3),
        file("/t/p/target/x", 2048),
        file("/t/f", 100),
    ];
    let (tree, _) = scan_streaming("/t", &entries).unwrap();
    let hits = diskscour::caches::detect(&tree);
    assert_eq!(
        diskscour::summary::run_cli(&tree, "0.25", &hits),
        "\n/t\n  2.6 KB across 3 files in 0.25s\n\nLargest entries:\n      \
         2.5 KB  p/\n       100 B  f\n\nDev caches: 2.0 KB reclaimable across 1 dirs\n      \
         2.0 KB  [Rust] p/target\n"
    );
}
