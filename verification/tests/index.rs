//! The persistent index: its format, and the trees it stands for.

use diskscour::format::{FORMAT_VERSION, MAGIC};
use diskscour::index::{
    cache_dir, from_tree, from_tree_at, index_path, root_key, secs_or_zero, small_files_fit,
    to_tree, DirRec, Index, Mode, DEFAULT_THRESHOLD,
};

fn sample() -> Index {
    Index {
        root: "/tmp/ds-test".to_string(),
        scanned_at: 1_700_000_000,
        mode: Mode::Full,
        device_id: 42,
        last_event_id: 999,
        threshold: 2048,
        root_ix: 0,
        dirs: vec![
            DirRec {
                parent: None,
                name: "ds-test".into(),
                mtime_ns: 1234,
                own_bytes: 100,
                own_files: 2,
                own_private: 40,
                subtree_bytes: 5100,
                subtree_files: 4,
                subtree_private: 1100,
                large: vec![("big.bin".into(), 4000)],
                large_private: vec![60],
            },
            DirRec {
                parent: Some(0),
                name: "sub".into(),
                mtime_ns: 5678,
                own_bytes: 1000,
                own_files: 1,
                own_private: 1000,
                subtree_bytes: 1000,
                subtree_files: 1,
                subtree_private: 1000,
                large: vec![],
                large_private: vec![],
            },
        ],
    }
}

#[test]
fn roundtrips_through_binary() {
    let idx = sample();
    let bytes = idx.encode();
    let back = Index::decode(&bytes).expect("decode");
    assert_eq!(back.root, idx.root);
    assert_eq!(back.scanned_at, idx.scanned_at);
    assert_eq!(back.mode, Mode::Full);
    assert_eq!(back.device_id, 42);
    assert_eq!(back.last_event_id, 999);
    assert_eq!(back.dirs.len(), 2);
    assert_eq!(back.dirs[0].large, vec![("big.bin".to_string(), 4000)]);
    assert_eq!(back.dirs[1].name, "sub");
    assert_eq!(back.total_bytes(), 5100);
}

#[test]
fn rejects_garbage_and_truncation() {
    assert!(Index::decode(b"not an index").is_none());
    let bytes = sample().encode();
    // Every truncation must fail cleanly rather than panic.
    for cut in 0..bytes.len() {
        assert!(Index::decode(&bytes[..cut]).is_none());
    }
    assert!(Index::decode(&bytes[..bytes.len() - 1]).is_none());
}

#[test]
fn materializes_a_browsable_tree() {
    let idx = sample();
    let tree = to_tree(&idx);
    let root = &tree.nodes[tree.root];
    assert_eq!(root.size, 5100);
    assert_eq!(root.file_count, 4);
    // root children: sub/, big.bin, and one synthetic small-files node
    assert_eq!(root.children.len(), 3);
    let names: Vec<&str> = root
        .children
        .iter()
        .map(|&c| tree.nodes[c].name.as_str())
        .collect();
    assert!(names.contains(&"sub"));
    assert!(names.contains(&"big.bin"));
    assert!(names.iter().any(|n| n.contains("small files")));
    // Children are sorted biggest-first.
    let sizes: Vec<u64> = root.children.iter().map(|&c| tree.nodes[c].size).collect();
    assert!(sizes.windows(2).all(|w| w[0] >= w[1]));
}

#[test]
fn tree_index_roundtrip_preserves_totals() {
    let idx = sample();
    let tree = to_tree(&idx);
    assert!(small_files_fit(&tree, idx.threshold));
    let back = from_tree(&tree, Mode::Full, 7, idx.threshold, 42);
    assert_eq!(back.total_bytes(), idx.total_bytes());
    assert_eq!(back.total_files(), idx.total_files());
    assert_eq!(back.dirs.len(), idx.dirs.len());
    // The synthetic node folds back into own_* rather than becoming a file record.
    let root = &back.dirs[back.root_ix as usize];
    assert_eq!(root.own_files, 2);
    assert_eq!(root.own_bytes, 100);
    assert_eq!(root.large.len(), 1);
}

#[test]
fn the_bytes_are_as_the_format_says() {
    let mut idx = sample();
    idx.dirs.truncate(1);
    idx.dirs[0].large.clear();
    idx.dirs[0].large_private = vec![7];
    idx.dirs[0].name = "é".to_string();
    idx.dirs[0].mtime_ns = -2;
    idx.root = "/r".to_string();
    idx.mode = Mode::Events;
    let b = idx.encode();
    let mut want: Vec<u8> = Vec::new();
    want.extend_from_slice(&MAGIC.to_le_bytes());
    want.extend_from_slice(&FORMAT_VERSION.to_le_bytes());
    want.extend_from_slice(&2u32.to_le_bytes());
    want.extend_from_slice(b"/r");
    want.extend_from_slice(&1_700_000_000u64.to_le_bytes());
    want.push(2);
    want.extend_from_slice(&42u64.to_le_bytes());
    want.extend_from_slice(&999u64.to_le_bytes());
    want.extend_from_slice(&2048u64.to_le_bytes());
    want.extend_from_slice(&0u32.to_le_bytes());
    want.extend_from_slice(&1u32.to_le_bytes());
    want.extend_from_slice(&u32::MAX.to_le_bytes());
    want.extend_from_slice(&2u32.to_le_bytes());
    want.extend_from_slice("é".as_bytes());
    want.extend_from_slice(&(-2i64).to_le_bytes());
    for n in [100u64, 2, 40, 5100, 4, 1100] {
        want.extend_from_slice(&n.to_le_bytes());
    }
    want.extend_from_slice(&0u32.to_le_bytes());
    want.extend_from_slice(&1u32.to_le_bytes());
    want.extend_from_slice(&7u64.to_le_bytes());
    assert_eq!(b, want);
    let back = Index::decode(&b).unwrap();
    assert_eq!(back.mode, Mode::Events);
    assert_eq!(back.dirs[0].mtime_ns, -2);
    assert_eq!(back.dirs[0].name, "é");
    assert_eq!(back.dirs[0].parent, None);
}

#[test]
fn text_that_is_not_utf8_is_no_index() {
    let idx = sample();
    let mut b = idx.encode();
    // The first byte of the root's text.
    b[12] = 0xff;
    assert!(Index::decode(&b).is_none());
}

#[test]
fn another_version_or_an_absent_root_is_no_index() {
    let mut b = sample().encode();
    b[4] = b[4].wrapping_add(1);
    assert!(Index::decode(&b).is_none());
    let mut idx = sample();
    idx.root_ix = 2;
    assert!(Index::decode(&idx.encode()).is_none());
    idx.root_ix = 0;
    idx.dirs.clear();
    assert!(Index::decode(&idx.encode()).is_none());
}

#[test]
fn unshared_bytes_survive_the_file_and_the_tree() {
    let idx = sample();
    assert_eq!(idx.total_private(), 1100);
    let back = Index::decode(&idx.encode()).unwrap();
    assert_eq!(back.dirs[0].own_private, 40);
    assert_eq!(back.dirs[0].subtree_private, 1100);
    assert_eq!(back.dirs[0].large_private, vec![60]);
    let tree = to_tree(&back);
    let private = |name: &str| tree.nodes.iter().find(|n| n.name == name).unwrap().private;
    assert_eq!(private("ds-test"), 1100);
    assert_eq!(private("big.bin"), 60);
    assert_eq!(private("(2 small files)"), 40);
    assert_eq!(private("sub"), 1000);
    let again = from_tree_at(&tree, Mode::Full, 1, 2048, 42, 1);
    assert_eq!(again.total_private(), 1100);
    assert_eq!(again.dirs[0].own_private, 40);
    assert_eq!(again.dirs[0].large_private, vec![60]);
    // A file with no figure of its own shares nothing.
    let mut idx = sample();
    idx.dirs[0].large_private.clear();
    assert_eq!(idx.dirs[0].unshared(0), 4000);
    let tree = to_tree(&idx);
    assert!(tree.nodes.iter().any(|n| n.name == "big.bin" && n.private == 4000));
}

#[test]
fn the_tree_of_an_index_gives_the_index_back() {
    let idx = sample();
    let tree = to_tree(&idx);
    let back = from_tree_at(&tree, Mode::Full, 999, 2048, 42, 1_700_000_000);
    assert_eq!(back.encode(), idx.encode());
}

#[test]
fn records_know_their_paths() {
    let idx = sample();
    assert!(idx.is_sound());
    assert_eq!(idx.path_of(0), "/tmp/ds-test");
    assert_eq!(idx.path_of(1), "/tmp/ds-test/sub");
    let paths = idx.by_path();
    assert_eq!(paths.get("/tmp/ds-test"), Some(0));
    assert_eq!(paths.get("/tmp//ds-test/./sub/"), Some(1));
    assert_eq!(paths.get("/tmp"), None);
}

#[test]
fn records_that_go_round_in_circles_are_not_sound() {
    let mut idx = sample();
    idx.dirs[0].parent = Some(1);
    assert!(!idx.is_sound());
    idx.dirs[0].parent = Some(7);
    assert!(!idx.is_sound());
}

#[test]
fn an_index_is_loaded_only_for_its_own_root() {
    let bytes = sample().encode();
    assert!(Index::load(&bytes, "/tmp/ds-test", "/private/tmp/ds-test").is_some());
    assert!(Index::load(&bytes, "/elsewhere", "/tmp/ds-test/").is_some());
    assert!(Index::load(&bytes, "/elsewhere", "/somewhere").is_none());
    assert!(Index::load(b"DSIX", "/tmp/ds-test", "/tmp/ds-test").is_none());
}

#[test]
fn ages_never_go_below_zero() {
    let idx = sample();
    assert_eq!(idx.age_at(1_700_000_100), 100);
    assert_eq!(idx.age_at(1_600_000_000), 0);
    assert!(idx.age_secs() > 0);
    assert_eq!(secs_or_zero(None), 0);
    assert_eq!(secs_or_zero(Some(5)), 5);
}

#[test]
fn cache_files_lie_in_the_chosen_or_the_usual_directory() {
    assert_eq!(cache_dir(Some("/c"), Some("/h")), Some("/c".to_string()));
    assert_eq!(
        cache_dir(None, Some("/h")),
        Some("/h/Library/Caches/com.pathors.diskscour/roots".to_string())
    );
    assert_eq!(cache_dir(None, None), None);
    // FNV-1a of nothing is its offset basis.
    assert_eq!(root_key(""), "cbf29ce484222325");
    assert_eq!(root_key("a"), "af63dc4c8601ec8c");
    assert_eq!(
        index_path(Some("/c"), "a"),
        Some("/c/af63dc4c8601ec8c.idx".to_string())
    );
    assert_eq!(index_path(None, "a"), None);
    assert_eq!(DEFAULT_THRESHOLD, 1 << 20);
}

#[test]
fn modes_have_names() {
    assert_eq!(Mode::Full.as_str(), "full");
    assert_eq!(Mode::Mtime.as_str(), "mtime");
    assert_eq!(Mode::Events.as_str(), "events");
}
