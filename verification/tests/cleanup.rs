//! Planning and carrying out deletions.

use diskscour::caches::{classify, Category, Context};
use diskscour::cleanup::{
    measure, outcome_of, plan, recheck, structural_objection, vet, Facts, Item, Target,
};
use diskscour::live::Reason;

fn facts(class: Option<(Category, &'static str)>) -> Facts {
    Facts {
        home: Some("/Users/me".into()),
        resolved: None,
        resolved_root: None,
        exists: true,
        in_use: vec![],
        class,
    }
}

fn target(path: &str, bytes: u64, class: Option<(Category, &'static str)>) -> Target {
    Target {
        path: path.into(),
        facts: facts(class),
        bytes,
    }
}

fn names(v: &[&str]) -> Vec<String> {
    v.iter().map(|s| s.to_string()).collect()
}

fn class_of(name: &str) -> Option<(Category, &'static str)> {
    classify(
        name,
        &Context {
            siblings: Some(names(&["package.json", "node_modules", "src"])),
            children: names(&["pkg"]),
        },
    )
}

const BASE: &str = "/tmp/ds_cleanup/workspace";

#[test]
fn accepts_a_real_cache_and_measures_it() {
    let t = target("/tmp/ds_cleanup/workspace/proj/node_modules", 5000, class_of("node_modules"));
    let p = plan(BASE, &vec![t], false);
    assert_eq!(p.items.len(), 1);
    assert_eq!(p.items[0].category, Some(Category::JsTs));
    assert!(p.items[0].bytes >= 5000);
    assert_eq!(p.total_bytes(), 5000);
}

#[test]
fn refuses_a_plain_source_directory() {
    let t = target("/tmp/ds_cleanup/workspace/proj/src", 100, class_of("src"));
    let p = plan(BASE, &vec![t], false);
    assert!(p.items.is_empty());
    assert_eq!(p.rejected.len(), 1);
    assert!(p.rejected[0].reason.contains("not a recognised"));
}

#[test]
fn allow_any_still_enforces_the_structural_guards() {
    // Outside the root, even with allow_any.
    let p = plan(BASE, &vec![target("/etc", 0, None)], true);
    assert!(p.items.is_empty());
    assert!(p.rejected[0].reason.contains("outside the scanned root"));

    // The root itself, even with allow_any.
    let p = plan(BASE, &vec![target(BASE, 0, None)], true);
    assert!(p.items.is_empty());
    assert!(p.rejected[0].reason.contains("scan root itself"));

    // Traversal, even with allow_any.
    let t = target("/tmp/ds_cleanup/workspace/proj/../../elsewhere", 0, None);
    let p = plan(BASE, &vec![t], true);
    assert!(p.items.is_empty());
    assert!(p.rejected[0].reason.contains(".."));
}

#[test]
fn allow_any_opens_only_the_cache_rule_check() {
    let t = target("/tmp/ds_cleanup/workspace/proj/src", 100, None);
    let p = plan(BASE, &vec![t], true);
    assert_eq!(p.items.len(), 1);
    assert_eq!(p.items[0].category, None);
}

#[test]
fn refuses_shallow_and_home_paths() {
    let f = facts(None);
    assert!(structural_objection("/", "/", &f).is_some());
    assert!(structural_objection("/Users", "/", &f).is_some());
    assert!(structural_objection("/Users/me", "/", &f).is_some());
    assert_eq!(
        structural_objection("/Users/me/", "/", &f),
        Some("refusing to delete the home directory".to_string())
    );
    assert_eq!(
        structural_objection("/a/b", "/", &f),
        Some("path is too shallow to be a build cache (3 components)".to_string())
    );
    assert_eq!(
        structural_objection("a/b", "/", &f),
        Some("path is not absolute".to_string())
    );
    assert_eq!(structural_objection("/a/b/c", "/", &f), None);
}

#[test]
fn refuses_links_that_lead_out_of_the_root() {
    let mut f = facts(None);
    f.resolved_root = Some("/private/w".into());
    f.resolved = Some("/private/w/a/target".into());
    assert_eq!(structural_objection("/w/a/b/target", "/w", &f), None);
    f.resolved = Some("/etc/x".into());
    assert_eq!(
        structural_objection("/w/a/b/target", "/w", &f),
        Some("path resolves outside the scanned root".to_string())
    );
}

#[test]
fn refuses_what_is_in_use_whatever_is_allowed() {
    let mut f = facts(Some((Category::Rust, "n")));
    f.in_use = vec![
        ("/w/a/target/release/tool".to_string(), Reason::Running),
        ("/w/a/target/release/other".to_string(), Reason::OnPath),
    ];
    for any in [false, true] {
        let why = vet("/w/a/b/target", "/w", &f, any).unwrap();
        assert!(why.starts_with("in use: /w/a/target/release/tool ("));
        assert!(why.ends_with(" and 1 other executable(s)"));
    }
    f.in_use.clear();
    assert_eq!(vet("/w/a/b/target", "/w", &f, false), None);
}

#[test]
fn execute_refuses_a_target_that_stopped_matching() {
    let item = Item {
        path: "/w/a/b/target".into(),
        bytes: 7,
        category: Some(Category::Rust),
        note: Some("n"),
    };
    let mut f = facts(None);
    f.exists = false;
    let why = recheck(&item.path, "/w", &f, false);
    assert!(why.is_some());
    let o = outcome_of(&item, why);
    assert!(!o.trashed);
    assert!(o.error.is_some());
    f.exists = true;
    assert!(recheck(&item.path, "/w", &f, false).is_some());
    assert_eq!(recheck(&item.path, "/w", &f, true), None);
    let o = outcome_of(&item, None);
    assert!(o.trashed && o.error.is_none());
    assert_eq!(o.bytes, 7);
}

#[test]
fn every_target_is_accounted_for() {
    let ts = vec![
        target("/w/a/b/node_modules", 10, class_of("node_modules")),
        target("/w/a/b/src", 20, None),
        target("/x/y/z/q", 30, None),
        target("/w/c/d/node_modules", 40, class_of("node_modules")),
    ];
    let p = plan("/w", &ts, false);
    assert_eq!(p.items.len() + p.rejected.len(), 4);
    assert_eq!(p.items[1].path, "/w/c/d/node_modules");
    assert_eq!(p.total_bytes(), 50);
}

#[test]
fn a_directory_is_measured_in_blocks() {
    assert_eq!(measure(&Vec::new()), 0);
    assert_eq!(measure(&vec![8, 1, 0]), 4608);
    assert_eq!(measure(&vec![u64::MAX]), u64::MAX);
}
