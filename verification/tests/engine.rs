//! Choosing how to refresh.

use diskscour::engine::{
    after_replay, cached, index_covering, is_index_file, largest_first, must_walk_all, plan,
    plural, summarize, Strategy, MAX_INCREMENTAL_AGE,
};
use diskscour::fsevents::Replay;
use diskscour::index::{DirRec, Index, Mode};

fn index(root: &str, bytes: u64, device_id: u64) -> Index {
    Index {
        root: root.into(),
        scanned_at: 1,
        mode: Mode::Full,
        device_id,
        last_event_id: 1,
        threshold: 1,
        dirs: vec![DirRec {
            parent: None,
            name: "x".into(),
            mtime_ns: 0,
            own_bytes: 0,
            own_files: 0,
            own_private: 0,
            subtree_bytes: bytes,
            subtree_files: 0,
            subtree_private: bytes,
            large: vec![],
            large_private: vec![],
        }],
        root_ix: 0,
    }
}

#[test]
fn some_things_call_for_a_full_scan() {
    let idx = index("/a", 1, 7);
    assert_eq!(must_walk_all(None, 7, 0).as_deref(), Some("no cached index"));
    assert_eq!(
        must_walk_all(Some(&idx), 8, 0).as_deref(),
        Some("root moved to a different volume")
    );
    assert_eq!(must_walk_all(Some(&idx), 0, 0), None);
    assert_eq!(must_walk_all(Some(&idx), 7, MAX_INCREMENTAL_AGE), None);
    assert_eq!(
        must_walk_all(Some(&idx), 7, MAX_INCREMENTAL_AGE + 86_400).as_deref(),
        Some("cached index is 8 days old")
    );
    assert_eq!(MAX_INCREMENTAL_AGE, 7 * 24 * 60 * 60);
}

fn told(s: &Strategy) -> (Mode, String, usize) {
    summarize(s)
}

#[test]
fn events_that_match_nothing_are_not_trusted() {
    let r = Replay::Changed(vec!["/x/y".to_string()]);
    let s = after_replay("/a", None, &r, &vec![true]);
    assert_eq!(
        told(&s),
        (Mode::Mtime, "event paths did not match the scanned root".to_string(), 0)
    );
    let r = Replay::Changed(vec![]);
    let s = after_replay("/a", None, &r, &vec![]);
    assert_eq!(
        told(&s),
        (Mode::Events, "0 directories changed since last scan".to_string(), 0)
    );
    let r = Replay::Changed(vec!["/a/b".to_string()]);
    let s = after_replay("/a", None, &r, &vec![true]);
    assert_eq!(
        told(&s),
        (Mode::Events, "1 directory changed since last scan".to_string(), 1)
    );
    match s {
        Strategy::Events(dirty, _) => assert!(dirty.contains("/a/b") && dirty.contains("/a")),
        _ => panic!("not by events"),
    }
    let s = after_replay("/a", None, &Replay::Unavailable("gone"), &vec![]);
    assert_eq!(told(&s), (Mode::Mtime, "event history unusable: gone".to_string(), 0));
}

#[test]
fn a_plan_falls_back_to_something_slower() {
    let idx = index("/a", 1, 7);
    let r = Replay::Changed(vec!["/a/b".to_string()]);
    let d = vec![true];
    assert!(matches!(plan("/a", None, None, 7, 0, &r, &d), Strategy::Full(_)));
    assert!(matches!(plan("/a", None, Some(&idx), 7, 0, &r, &d), Strategy::Events(_, 1)));
    let none = Replay::Unavailable("x");
    assert!(matches!(plan("/a", None, Some(&idx), 7, 0, &none, &vec![]), Strategy::Mtime(_)));
    assert_eq!((plural(1), plural(0), plural(2)), ("y", "ies", "ies"));
}

#[test]
fn the_most_specific_index_answers() {
    let roots = || vec![index("/a", 1, 0), index("/a/b", 2, 0), index("/c", 3, 0)];
    let root = |r: Option<Index>| r.map(|i| i.root);
    assert_eq!(root(index_covering(None, roots(), "/a/b/c")), Some("/a/b".to_string()));
    assert_eq!(root(index_covering(None, roots(), "/a/x")), Some("/a".to_string()));
    assert_eq!(root(index_covering(None, roots(), "/x")), None);
    let exact = Some(index("/x", 0, 0));
    assert_eq!(root(index_covering(exact, roots(), "/a/x")), Some("/x".to_string()));
    let sorted = largest_first(roots());
    let order: Vec<&str> = sorted.iter().map(|i| i.root.as_str()).collect();
    assert_eq!(order, vec!["/c", "/a/b", "/a"]);
}

#[test]
fn cache_files_are_known_by_their_extension() {
    assert!(is_index_file("/c/abc.idx"));
    assert!(!is_index_file("/c/abc.idx.tmp"));
    assert!(!is_index_file("/c/.idx"));
    assert!(!is_index_file("/c/idx"));
    let idx = index("/a", 1, 0);
    assert!(cached(&idx.encode(), "/a", "/a").is_some());
    assert!(cached(&idx.encode(), "/b", "/b").is_none());
}
