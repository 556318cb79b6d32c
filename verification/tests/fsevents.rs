//! Replaying the event history.

use diskscour::fsevents::{
    awaits_history, changed_since, dirty_closure, map_onto_root, Collect, Replay, Settle,
    FLAG_HISTORY_DONE,
};

fn strings(v: &[&str]) -> Vec<String> {
    v.iter().map(|s| s.to_string()).collect()
}

#[test]
fn closure_covers_ancestors_and_stops_at_root() {
    // `/a/b/c/d/e` does not exist, so its parent is what got inserted.
    let (set, matched) = dirty_closure("/a/b", None, &strings(&["/a/b/c/d/e"]), &vec![false]);
    assert_eq!(matched, 1);
    assert!(set.contains("/a/b"));
    assert!(set.contains("/a/b/c"));
    assert!(set.contains("/a/b/c/d"));
    assert!(!set.contains("/a"));
}

#[test]
fn paths_outside_root_do_not_count_as_matches() {
    let (set, matched) = dirty_closure("/a/b", None, &strings(&["/x/y/z"]), &vec![false]);
    assert_eq!(
        matched, 0,
        "a non-matching event must not look like a match"
    );
    assert_eq!(set.len(), 1);
}

#[test]
fn closure_of_nothing_is_just_the_root() {
    let (set, matched) = dirty_closure("/a/b", None, &vec![], &vec![]);
    assert_eq!(set.len(), 1);
    assert_eq!(matched, 0);
}

#[test]
fn maps_resolved_paths_back_onto_a_symlinked_root() {
    // macOS resolves /tmp to /private/tmp, and FSEvents reports the resolved form.
    // Without the remap every event would look like it was outside the root, and
    // the whole tree would be wrongly pruned.
    let (set, matched) = dirty_closure(
        "/tmp",
        Some("/private/tmp"),
        &strings(&["/private/tmp/some-dir"]),
        &vec![false],
    );
    assert_eq!(matched, 1);
    assert!(set.contains("/tmp"));
    assert_eq!(
        map_onto_root("/tmp", Some("/private/tmp"), "/private/tmp/some-dir"),
        Some("/tmp/some-dir".to_string())
    );
    assert_eq!(map_onto_root("/tmp", None, "/private/tmp/some-dir"), None);
    assert_eq!(
        map_onto_root("/tmp", Some("/private/tmp"), "/tmp/x"),
        Some("/tmp/x".to_string())
    );
}

#[test]
fn a_changed_directory_is_read_again_itself() {
    let (set, _) = dirty_closure("/a", None, &strings(&["/a/b/c"]), &vec![true]);
    assert!(set.contains("/a/b/c"));
    assert_eq!(set.len(), 3);
}

fn unavailable(r: Replay) -> &'static str {
    match r {
        Replay::Unavailable(why) => why,
        Replay::Changed(_) => panic!("should not be trusted"),
    }
}

#[test]
fn any_doubt_makes_the_history_unusable() {
    assert_eq!(
        unavailable(changed_since(0, 5, Ok(Collect::new()))),
        "no recorded stream position"
    );
    assert_eq!(
        unavailable(changed_since(9, 5, Ok(Collect::new()))),
        "event id went backwards"
    );
    assert_eq!(
        unavailable(changed_since(1, 5, Ok(Collect::new()))),
        "history replay timed out"
    );
    let mut dropped = Collect::new();
    dropped.take_event(0x2, Some("/a"));
    dropped.take_event(FLAG_HISTORY_DONE, None);
    assert_eq!(
        unavailable(changed_since(1, 5, Ok(dropped))),
        "history incomplete (events dropped)"
    );
    assert_eq!(unavailable(changed_since(1, 5, Err("no stream"))), "no stream");
}

#[test]
fn changes_come_sorted_and_once() {
    let mut c = Collect::new();
    for p in ["/b", "/a/x", "/a", "/b", "/a-b"] {
        c.take_event(0, Some(p));
    }
    c.take_event(0, None);
    c.take_event(FLAG_HISTORY_DONE, Some("/end"));
    match changed_since(1, 5, Ok(c)) {
        Replay::Changed(ps) => assert_eq!(ps, vec!["/a", "/a/x", "/a-b", "/b"]),
        Replay::Unavailable(why) => panic!("{why}"),
    }
}

#[test]
fn the_end_of_the_history_is_awaited_for_ten_seconds() {
    assert!(awaits_history(false, 0));
    assert!(awaits_history(false, 39));
    assert!(!awaits_history(false, 40));
    assert!(!awaits_history(true, 0));
}

#[test]
fn listening_ends_once_it_is_quiet() {
    let mut s = Settle::new();
    let mut ticks = 0;
    while s.listens() {
        s.tick(false);
        ticks += 1;
        assert!(ticks < 1000);
    }
    assert!(ticks > 0);
}
