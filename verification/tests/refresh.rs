//! Scanning a tree, and refreshing the scan from its index.

use diskscour::builder::{Prior, WalkEntry};
use diskscour::engine::{conclude, must_walk_all, plan, Refreshed, Strategy};
use diskscour::fsevents::Replay;
use diskscour::index::{small_files_fit, Index, Mode, DEFAULT_THRESHOLD};
use diskscour::path::{parent, same_path};
use diskscour::scan::{scan_incremental, scan_streaming, Reuse, ScanProgress};
use diskscour::walk::{
    child_record, enter_dir, size_file, walks_child, DirInfos, SeenLinks, StatFacts,
};

/// Directories with their mtimes, and files with their blocks.
struct Disk {
    dirs: Vec<(String, i64)>,
    files: Vec<(String, u64)>,
}

fn disk() -> Disk {
    Disk {
        dirs: vec![
            ("/base".into(), 1),
            ("/base/proj".into(), 2),
            ("/base/proj/src".into(), 3),
            ("/base/proj/target".into(), 4),
            ("/base/proj/target/debug".into(), 5),
        ],
        files: vec![
            ("/base/proj/Cargo.toml".into(), 8),
            ("/base/proj/src/main.rs".into(), 8),
            ("/base/proj/target/debug/blob".into(), 80),
        ],
    }
}

impl Disk {
    fn children(&self, dir: &str) -> Vec<(String, bool, u64)> {
        let below = |p: &str| parent(p).map(|q| same_path(&q, dir)).unwrap_or(false);
        let mut out: Vec<(String, bool, u64)> = Vec::new();
        for (p, _) in &self.dirs {
            if below(p) {
                out.push((p.clone(), true, 0));
            }
        }
        for (p, blocks) in &self.files {
            if below(p) {
                out.push((p.clone(), false, *blocks));
            }
        }
        out
    }

    fn mtime(&self, dir: &str) -> i64 {
        self.dirs.iter().find(|d| d.0 == dir).unwrap().1
    }

    /// Walk the disk as the scanner does, leaving out what `reuse` allows.
    fn walk(&self, reuse: Option<&Reuse>) -> Vec<WalkEntry> {
        let mut infos = DirInfos::new();
        let mut seen = SeenLinks::new();
        let mut progress = ScanProgress::new();
        let mut out = Vec::new();
        let mut stack = vec![("/base".to_string(), true, 0u64, None)];
        while let Some((path, is_dir, blocks, reused)) = stack.pop() {
            let mut e = WalkEntry { path, is_dir, size: 0, private: 0, info: None, reused };
            if !is_dir {
                let asked = StatFacts { blocks, dev: 1, ino: out.len() as u64, nlink: 1 };
                let sized = size_file(None, "", 1, Some(asked), &mut seen, &mut progress);
                let (size, private) = sized.unwrap();
                e.size = size;
                e.private = private;
            } else if reused.is_none() {
                let mtime = self.mtime(&e.path);
                let info = enter_dir(&mut infos, reuse, &e.path, mtime);
                e.info = Some(info);
                for (p, d, b) in self.children(&e.path) {
                    if walks_child(info, d) {
                        let rec = if d { child_record(reuse, &p) } else { None };
                        stack.push((p, d, b, rec));
                    }
                }
            }
            out.push(e);
        }
        out
    }

    fn refresh(&self, prior: Option<Index>, replay: Replay) -> Refreshed {
        let is_dir: Vec<bool> = match &replay {
            Replay::Changed(ps) => {
                ps.iter().map(|p| self.dirs.iter().any(|d| d.0 == *p)).collect()
            }
            Replay::Unavailable(_) => Vec::new(),
        };
        let strategy = plan("/base", None, prior.as_ref(), 1, 0, &replay, &is_dir);
        assert_eq!(prior.is_none(), must_walk_all(prior.as_ref(), 1, 0).is_some());
        let tree = match prior {
            None => scan_streaming("/base", &self.walk(None)).unwrap().0,
            Some(idx) => {
                assert!(idx.is_sound());
                let prior = Prior::new(idx);
                let dirty = match &strategy {
                    Strategy::Events(d, _) => Some(d),
                    _ => None,
                };
                let entries = self.walk(Some(&Reuse { prior: &prior, dirty_closure: dirty }));
                scan_incremental("/base", &entries, Some(&prior)).unwrap().0
            }
        };
        assert!(small_files_fit(&tree, DEFAULT_THRESHOLD));
        conclude(tree, &strategy, 9, 1)
    }
}

fn root_size(r: &Refreshed) -> u64 {
    r.tree.nodes[r.tree.root].size
}

fn nothing() -> Replay {
    Replay::Changed(vec![])
}

#[test]
fn full_scan_then_incremental_agree() {
    let base = disk();
    let full = base.refresh(None, nothing());
    assert_eq!(full.mode, Mode::Full);
    let total = root_size(&full);
    assert!(total > 40_000, "expected the blob to be counted");
    let files = full.tree.nodes[full.tree.root].file_count;
    assert_eq!((total, files), (96 * 512, 3));

    // Nothing changed in between, so the refresh must land on the same total, by the
    // events and by the mtimes.
    let again = base.refresh(Some(full.index), nothing());
    assert_eq!(again.mode, Mode::Events, "should have reused the cached index");
    assert_eq!(root_size(&again), total, "incremental refresh changed the total");
    let third = base.refresh(Some(again.index), Replay::Unavailable("gone"));
    assert_eq!(third.mode, Mode::Mtime);
    assert_eq!(root_size(&third), total);
    assert_eq!(third.tree.nodes[third.tree.root].file_count, files);
}

#[test]
fn incremental_picks_up_a_new_file() {
    let mut base = disk();
    let first = base.refresh(None, nothing());
    let before = root_size(&first);
    base.files.push(("/base/proj/target/debug/extra".into(), 160));
    base.dirs[4].1 = 50;
    let changed = Replay::Changed(vec!["/base/proj/target/debug/extra".into()]);
    let after = base.refresh(Some(first.index), changed);
    assert_eq!(after.mode, Mode::Events);
    assert!(root_size(&after) > before, "new file not picked up");
    assert_eq!(root_size(&after), before + 160 * 512);
}

#[test]
fn incremental_notices_a_deleted_directory() {
    let mut base = disk();
    let first = base.refresh(None, nothing());
    let before = root_size(&first);
    base.dirs.truncate(3);
    base.files.pop();
    base.dirs[1].1 = 60;
    let changed = Replay::Changed(vec!["/base/proj/target".into()]);
    let after = base.refresh(Some(first.index), changed);
    assert!(root_size(&after) < before, "deletion not picked up");
    assert_eq!(root_size(&after), 16 * 512);
    assert_eq!(after.changed_dirs, 1);
}
