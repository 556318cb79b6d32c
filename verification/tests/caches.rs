//! Recognising caches.

use diskscour::builder::{DirInfo, Prior, WalkEntry};
use diskscour::caches::{candidates, classify, detect, detect_in_index, Category, Context};
use diskscour::index::{from_tree_at, to_tree, Index, Mode};
use diskscour::report::is_shared;
use diskscour::scan::{scan_incremental, scan_streaming, Node, Tree};

fn entry(path: &str, size: Option<u64>) -> WalkEntry {
    WalkEntry {
        path: path.into(),
        is_dir: size.is_none(),
        size: size.unwrap_or(0),
        private: size.unwrap_or(0),
        info: size.is_none().then_some(DirInfo { mtime_ns: 1, files_cached: false }),
        reused: None,
    }
}

fn walk() -> Vec<WalkEntry> {
    vec![
        entry("/w", None),
        entry("/w/p", None),
        entry("/w/p/Cargo.toml", Some(10)),
        entry("/w/p/target", None),
        entry("/w/p/target/blob", Some(4000)),
        entry("/w/p/target/node_modules", None),
        entry("/w/p/target/node_modules/x", Some(100)),
        entry("/w/q", None),
        entry("/w/q/target", None),
        entry("/w/q/target/notes", Some(7000)),
        entry("/w/r", None),
        entry("/w/r/node_modules", None),
        entry("/w/r/node_modules/y", Some(9000)),
    ]
}

#[test]
fn caches_are_matched_in_context_and_do_not_nest() {
    let (t, _) = scan_streaming("/w", &walk()).unwrap();
    let hits = detect(&t);
    let found: Vec<(&str, u64)> = hits.iter().map(|h| (h.path.as_str(), h.size)).collect();
    assert_eq!(found, vec![("/w/r/node_modules", 9000), ("/w/p/target", 4100)]);
    assert_eq!(hits[1].category, Category::Rust);
    let reclaimable: u64 = hits.iter().map(|h| h.size).sum();
    assert!(reclaimable <= t.nodes[t.root].size);
}

fn contexts(idx: &Index) -> Vec<Option<Context>> {
    let cands = candidates(idx);
    let mut contexts: Vec<Option<Context>> = Vec::new();
    for i in 0..idx.dirs.len() as u32 {
        contexts.push(cands.contains(&i).then(|| {
            let p = idx.path_of(i);
            let names = |dir: &str| -> Vec<String> {
                walk()
                    .iter()
                    .filter(|e| {
                        e.path.strip_prefix(dir).is_some_and(|r| r.starts_with('/') && !r[1..].contains('/'))
                    })
                    .map(|e| e.path.rsplit('/').next().unwrap().to_string())
                    .collect()
            };
            let up = p.rsplit_once('/').unwrap().0.to_string();
            Context { siblings: Some(names(&up)), children: names(&p) }
        }));
    }
    contexts
}

#[test]
fn an_index_shows_the_same_caches() {
    let (t, _) = scan_streaming("/w", &walk()).unwrap();
    let idx = from_tree_at(&t, Mode::Full, 1, 1 << 20, 1, 1);
    assert!(idx.is_sound());
    let contexts = contexts(&idx);
    let hits = detect_in_index(&idx, &contexts);
    let found: Vec<&str> = hits.iter().map(|h| h.path.as_str()).collect();
    assert_eq!(found, vec!["/w/r/node_modules", "/w/p/target"]);
    assert_eq!(hits[0].private, 9000);
    assert_eq!(hits[0].files, 1);
    // Where nothing is known of a directory, it is no cache.
    let none: Vec<Option<Context>> = contexts.iter().map(|_| None).collect();
    assert!(detect_in_index(&idx, &none).is_empty());
}

#[test]
fn a_hit_frees_only_what_it_does_not_share() {
    let mut es = walk();
    for e in es.iter_mut() {
        if e.path.ends_with("/node_modules/y") {
            e.private = 900;
        }
        if e.path.ends_with("/target/blob") {
            e.private = 3000;
        }
    }
    let (t, _) = scan_streaming("/w", &es).unwrap();
    // Files below the threshold are collapsed, the others are recorded one by one.
    for threshold in [1, 5000, 1 << 20] {
        let idx = from_tree_at(&t, Mode::Full, 1, threshold, 1, 1);
        let hits = detect_in_index(&idx, &contexts(&idx));
        let found: Vec<(&str, u64, u64)> =
            hits.iter().map(|h| (h.path.as_str(), h.private, h.size)).collect();
        assert_eq!(
            found,
            vec![("/w/r/node_modules", 900, 9000), ("/w/p/target", 3100, 4100)]
        );
        assert!(hits.iter().map(|h| h.private).sum::<u64>() <= idx.total_private());
        assert!(is_shared(&hits[0]));
        assert!(!is_shared(&hits[1]));
        assert_eq!(idx.total_bytes(), 20_110);
        assert_eq!(idx.total_private(), 900 + 3000 + 100 + 7000 + 10);
        let back = from_tree_at(&to_tree(&idx), Mode::Full, 1, threshold, 1, 1);
        assert_eq!(back.total_private(), idx.total_private());
        let stored = Index::decode(&back.encode()).unwrap();
        let again = detect_in_index(&stored, &contexts(&stored));
        assert_eq!(again[0].private, 900);
        // A refresh that takes everything over from the index keeps the figures.
        let prior = Prior::new(stored);
        let mut root = entry("/w", None);
        root.reused = Some(0);
        root.info = None;
        let (t2, _) = scan_incremental("/w", &vec![root], Some(&prior)).unwrap();
        assert_eq!(t2.nodes[t2.root].private, idx.total_private());
    }
}

fn node(name: &str, size: u64, is_dir: bool, parent: Option<usize>, children: &[usize]) -> Node {
    Node {
        name: name.into(),
        size,
        private: size,
        is_dir,
        parent,
        children: children.to_vec(),
        file_count: 0,
        removed: false,
        mtime_ns: 0,
        synthetic: false,
    }
}

#[test]
fn a_directory_goes_by_what_its_parent_lists() {
    let mut t = Tree {
        nodes: vec![
            node("r", 11, true, None, &[2, 1]),
            node("Cargo.toml", 1, false, Some(0), &[]),
            node("target", 10, true, Some(0), &[3]),
            node("node_modules", 10, true, Some(2), &[]),
        ],
        root: 0,
        root_path: "/r".into(),
    };
    let found = |t: &Tree| -> Vec<(usize, String, u64, Category)> {
        detect(t).iter().map(|h| (h.node_idx, h.path.clone(), h.size, h.category)).collect()
    };
    assert_eq!(found(&t), vec![(2, "/r/target".to_string(), 10, Category::Rust)]);
    // A file that names a parent which does not list it is no sibling.
    t.nodes[0].children = vec![2];
    assert_eq!(found(&t), vec![(3, "/r/target/node_modules".to_string(), 10, Category::JsTs)]);
}

fn rule(name: &str, siblings: &[&str], children: &[&str]) -> Option<Category> {
    let list = |v: &[&str]| v.iter().map(|s| s.to_string()).collect::<Vec<_>>();
    classify(name, &Context { siblings: Some(list(siblings)), children: list(children) })
        .map(|(c, _)| c)
}

#[test]
fn rules_ask_for_their_context() {
    assert_eq!(rule("node_modules", &[], &[]), Some(Category::JsTs));
    assert_eq!(rule("target", &["Cargo.toml"], &[]), Some(Category::Rust));
    assert_eq!(rule("target", &["pom.xml"], &[]), Some(Category::Jvm));
    assert_eq!(rule("target", &["notes.txt"], &[]), None);
    assert_eq!(rule("src", &["Cargo.toml"], &[]), None);
    assert_eq!(rule("__pycache__", &[], &[]), Some(Category::Python));
    assert_eq!(rule("DerivedData", &[], &[]), Some(Category::Apple));
}

#[test]
fn categories_have_labels() {
    assert_eq!(Category::Rust.label(), "Rust");
    assert_eq!(Category::JsTs.label(), "JavaScript / TypeScript");
}
