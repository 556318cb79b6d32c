//! What the window shows.

use std::collections::HashSet;

use diskscour::builder::{DirInfo, TreeBuilder, WalkEntry};
use diskscour::browse::node_at;
use diskscour::panels::{
    bar_of, chosen_total, confirm_text, crumb, group_header, groups, hover_text, map_root_of,
    map_tiles, place, row_label, tile_text, tree_rows, Row,
};
use diskscour::scan::{scan_streaming, Tree};
use diskscour::window::{Action, Doomed, Effect, Window};

fn entry(path: &str, size: Option<u64>) -> WalkEntry {
    WalkEntry {
        path: path.into(),
        is_dir: size.is_none(),
        size: size.unwrap_or(0),
        private: size.unwrap_or(0),
        info: size.is_none().then_some(DirInfo { mtime_ns: 1, files_cached: false }),
        reused: None,
    }
}

fn tree() -> Tree {
    let walk = vec![
        entry("/w", None),
        entry("/w/p", None),
        entry("/w/p/Cargo.toml", Some(10)),
        entry("/w/p/target", None),
        entry("/w/p/target/blob", Some(4000)),
        entry("/w/r", None),
        entry("/w/r/node_modules", None),
        entry("/w/r/node_modules/y", Some(9000)),
        entry("/w/empty", Some(0)),
    ];
    scan_streaming("/w", &walk).unwrap().0
}

fn scanned() -> Window {
    let mut w = Window::new();
    assert!(matches!(w.apply(Action::StartScan("/w".into())), Effect::Scan(p) if p == "/w"));
    assert!(w.scanning);
    assert_eq!(w.status, "Scanning…");
    w.scanned(tree(), "1.5");
    w
}

#[test]
fn a_scan_fills_the_window() {
    let w = scanned();
    assert!(!w.scanning);
    assert_eq!(
        w.status,
        "12.7 KB across 4 files in 1.5s · 12.7 KB reclaimable in dev caches"
    );
    let t = w.tree.as_ref().unwrap();
    assert_eq!(w.selected, Some(t.root));
    assert_eq!(w.map_root, Some(t.root));
    assert!(w.expanded.contains(&t.root));
    assert_eq!(w.hits.len(), 2);
    let mut w = scanned();
    w.scanning = true;
    assert!(matches!(w.apply(Action::StartScan("/x".into())), Effect::Nothing));
    assert!(w.tree.is_some());
    w.scan_lost();
    assert_eq!(w.status, "Scan failed.");
}

#[test]
fn a_running_scan_can_be_browsed() {
    let walk = vec![
        entry("/w", None),
        entry("/w/p", None),
        entry("/w/p/a", Some(10)),
        entry("/w/q", None),
        entry("/w/q/b", Some(4000)),
    ];
    let mut builder = TreeBuilder::new("/w");
    let mut snaps: Vec<Tree> = Vec::new();
    for e in &walk {
        assert!(!builder.is_linked(&e.path));
        builder.add(e, None);
        assert!(builder.totals_fit());
        snaps.push(builder.snapshot().unwrap());
    }
    let mut w = Window::new();
    w.partial(snaps.remove(0));
    assert!(w.tree.is_none());
    w.apply(Action::StartScan("/w".into()));
    w.partial(snaps.remove(0));
    let root = w.tree.as_ref().unwrap().root;
    assert_eq!((w.selected, w.map_root), (Some(root), Some(root)));
    assert!(w.expanded.contains(&root));
    let p = node_at(w.tree.as_ref().unwrap(), "/w/p").unwrap();
    w.apply(Action::MapRoot(p));
    w.apply(Action::Toggle(p));
    w.apply(Action::Toggle(root));
    for s in snaps {
        let size = w.tree.as_ref().unwrap().nodes[root].size;
        w.partial(s);
        let t = w.tree.as_ref().unwrap();
        assert!(t.nodes[t.root].size >= size);
        assert_eq!(t.nodes[p].name, "p");
        assert_eq!((w.selected, w.map_root), (Some(p), Some(p)));
        assert!(w.expanded.contains(&p) && !w.expanded.contains(&root));
        assert!(w.scanning && w.hits.is_empty());
    }
    assert_eq!(w.tree.as_ref().unwrap().nodes[root].size, 4010);
    w.trashing = true;
    w.partial(tree());
    assert_eq!(w.tree.as_ref().unwrap().nodes[root].size, 4010);
}

#[test]
fn the_user_moves_around() {
    let mut w = scanned();
    let (p, f) = {
        let t = w.tree.as_ref().unwrap();
        (node_at(t, "/w/p").unwrap(), node_at(t, "/w/p/Cargo.toml").unwrap())
    };
    w.apply(Action::Select(p));
    assert_eq!((w.selected, w.map_root), (Some(p), Some(p)));
    w.apply(Action::Select(f));
    assert_eq!((w.selected, w.map_root), (Some(f), Some(p)));
    w.apply(Action::MapRoot(f));
    assert_eq!(w.map_root, Some(f));
    w.apply(Action::Toggle(p));
    assert!(w.expanded.contains(&p));
    w.apply(Action::Toggle(p));
    assert!(!w.expanded.contains(&p));
    assert!(matches!(w.apply(Action::Reveal("/q".into())), Effect::Reveal(p) if p == "/q"));
    assert!(matches!(w.apply(Action::OpenPath("/q".into())), Effect::Open(p) if p == "/q"));
}

#[test]
fn nothing_is_trashed_without_a_word() {
    let mut w = scanned();
    assert!(matches!(w.apply(Action::RequestTrashCaches), Effect::Nothing));
    assert!(w.pending.is_none());
    w.apply(Action::CacheSelectAll);
    assert_eq!(chosen_total(&w.hits, &w.chosen), 13_000);
    w.apply(Action::ToggleCache(0));
    assert_eq!(chosen_total(&w.hits, &w.chosen), 4_000);
    w.apply(Action::ToggleCache(0));
    assert!(matches!(w.apply(Action::RequestTrashCaches), Effect::Nothing));
    let paths: Vec<String> =
        w.pending.as_ref().unwrap().iter().map(|d| d.path.clone()).collect();
    assert_eq!(paths, vec!["/w/r/node_modules", "/w/p/target"]);
    assert_eq!(
        confirm_text(w.pending.as_ref().unwrap()),
        "Move 2 item(s) totaling 12.7 KB to the Trash?"
    );
    w.apply(Action::CancelTrash);
    assert!(w.pending.is_none());
    assert!(matches!(w.apply(Action::ConfirmTrash), Effect::Nothing));
    w.apply(Action::RequestTrashCaches);
    let items = match w.apply(Action::ConfirmTrash) {
        Effect::Trash(items) => items,
        _ => panic!("it was confirmed"),
    };
    assert_eq!(items.len(), 2);
    assert!(w.trashing && w.pending.is_none());
    assert_eq!(w.status, "Moving to Trash…");
    w.apply(Action::RequestTrash(vec![Doomed { node: 0, path: "/w".into(), size: 1 }]));
    assert!(matches!(w.apply(Action::ConfirmTrash), Effect::Nothing));
    w.apply(Action::CacheSelectNone);
    assert!(w.chosen.is_empty());
}

#[test]
fn what_was_trashed_leaves_the_window() {
    let mut w = scanned();
    let (nm, tg) = {
        let t = w.tree.as_ref().unwrap();
        (node_at(t, "/w/r/node_modules").unwrap(), node_at(t, "/w/p/target").unwrap())
    };
    w.apply(Action::Select(nm));
    w.trashed(&vec![(nm, true, 9000), (tg, false, 4000)]);
    assert_eq!(w.status, "Moved 1 item(s) to Trash, freed 8.8 KB — 1 failed");
    let t = w.tree.as_ref().unwrap();
    assert_eq!(t.nodes[t.root].size, 4010);
    assert_eq!(w.selected, Some(t.root));
    assert_eq!(w.map_root, Some(t.root));
    assert_eq!(w.hits.len(), 1);
    assert!(!w.trashing);
    let t = w.tree.as_ref().unwrap();
    assert!(w.hits.iter().map(|h| h.size).sum::<u64>() <= t.nodes[t.root].size);
    w.trashed(&vec![(tg, true, 4000)]);
    assert_eq!(w.status, "Moved 1 item(s) to Trash, freed 3.9 KB");
    assert!(w.hits.is_empty());
    w.trash_lost();
    assert_eq!(w.status, "Trash failed.");
}

#[test]
fn expanded_folders_show_their_children() {
    let t = tree();
    let p = node_at(&t, "/w/p").unwrap();
    assert_eq!(tree_rows(&t, &HashSet::new()), vec![Row::Node(t.root, 0)]);
    let open: HashSet<usize> = [t.root, p].into_iter().collect();
    let rows = tree_rows(&t, &open);
    assert_eq!(rows.len(), 6);
    assert_eq!(rows[0], Row::Node(t.root, 0));
    let target = node_at(&t, "/w/p/target").unwrap();
    assert!(rows.contains(&Row::Node(target, 2)));
    assert_eq!(row_label(&t.nodes[p]), "[D] p");
    assert_eq!(bar_of(&t, p), 13_010);
    assert_eq!(bar_of(&t, t.root), 13_010);
}

#[test]
fn long_folders_are_cut() {
    let mut walk = vec![entry("/w", None)];
    for i in 0..302 {
        walk.push(entry(&format!("/w/f{i}"), Some(1)));
    }
    let t = scan_streaming("/w", &walk).unwrap().0;
    let rows = tree_rows(&t, &[t.root].into_iter().collect());
    assert_eq!(rows.len(), 302);
    assert_eq!(rows[301], Row::More(2, 1));
}

#[test]
fn tiles_are_what_weighs_something() {
    let mut t = tree();
    let tiles = map_tiles(&t, t.root);
    let weights: Vec<u64> = tiles.iter().map(|x| x.1).collect();
    assert_eq!(weights, vec![9000, 4010]);
    let p = node_at(&t, "/w/p").unwrap();
    assert_eq!(map_root_of(&t, Some(p)), p);
    t.remove(p);
    assert_eq!(map_root_of(&t, Some(p)), t.root);
    assert_eq!(map_root_of(&t, None), t.root);
    assert_eq!(map_tiles(&t, t.root).len(), 1);
    let r = node_at(&t, "/w/r").unwrap();
    assert_eq!(tile_text(&t.nodes[r]), "r  8.8 KB");
    assert_eq!(hover_text(&t.nodes[r]), "r\n8.8 KB · 1 files");
    assert_eq!(crumb(&t.nodes[r]), "r");
}

#[test]
fn caches_are_grouped_by_ecosystem() {
    let w = scanned();
    let gs = groups(&w.hits);
    assert_eq!(gs.len(), 2);
    assert_eq!(group_header(&gs[0]), "JavaScript / TypeScript  —  8.8 KB (1)");
    assert_eq!(gs[1].members, vec![1]);
    assert_eq!(place(&w.hits[0], "/w"), "r/node_modules");
    assert_eq!(place(&w.hits[0], "/w/r/node_modules"), ".");
    assert_eq!(place(&w.hits[0], "/x"), "/w/r/node_modules");
}
