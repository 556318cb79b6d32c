//! What is in use.

use diskscour::live::{Reason, Refs};

#[test]
fn reasons_read_as_explanations() {
    assert!(Reason::OnPath.describe().contains("PATH"));
    assert!(Reason::Running.describe().contains("running"));
}

#[test]
fn a_running_binary_protects_its_directory() {
    let refs = Refs::collect(&vec!["/w/target/debug/tool".to_string()], &vec![]);
    let hits = refs.protecting("/w/target", None);
    assert_eq!(hits.len(), 1);
    assert_eq!(hits[0].0, "/w/target/debug/tool");
    assert!(hits.iter().any(|(_, r)| *r == Reason::Running));
}

#[test]
fn an_unrelated_directory_is_not_protected() {
    let refs = Refs::collect(
        &vec!["/w/target/debug/tool".to_string()],
        &vec!["/opt/x".to_string()],
    );
    assert!(refs.protecting("/elsewhere", None).is_empty());
    assert!(refs.protecting("/w/targ", None).is_empty());
}

#[test]
fn a_link_to_a_used_directory_is_protected() {
    let refs = Refs::collect(&vec![], &vec!["/real/target/release/tool".to_string()]);
    assert!(refs.protecting("/link/target", None).is_empty());
    let hits = refs.protecting("/link/target", Some("/real/target"));
    assert_eq!(hits.len(), 1);
    assert_eq!(hits[0].1, Reason::OnPath);
}

#[test]
fn a_binary_that_is_both_counts_once() {
    let refs = Refs::collect(&vec!["/w/a".to_string()], &vec!["/w/a".to_string()]);
    assert_eq!(refs.protecting("/w", None).len(), 1);
}
