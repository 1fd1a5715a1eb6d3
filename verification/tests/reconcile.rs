use crate_diff::list::DependencyList;
use crate_diff::reconcile::{pair_up, reconcile, Pairing, Presence};
use crate_diff::record::{DependencyKind, DependencyRecord};
use std::collections::BTreeSet;

fn plain(name: &str, requirement: &str) -> DependencyRecord {
    DependencyRecord {
        name: name.to_string(),
        requirement: requirement.to_string(),
        features: Vec::new(),
        package: None,
        kind: DependencyKind::Normal,
        registry: None,
        target: None,
        optional: false,
        default_features: true,
    }
}

fn list(names: &[&str]) -> DependencyList {
    DependencyList::from_records(names.iter().map(|n| plain(n, "1")).collect()).0
}

fn set(names: &[String]) -> BTreeSet<String> {
    names.iter().cloned().collect()
}

#[test]
fn names_fall_into_three_parts() {
    let parts = reconcile(&list(&["a", "b"]), &list(&["b", "c"]));
    assert_eq!(parts.removed, vec!["a"]);
    assert_eq!(parts.common, vec!["b"]);
    assert_eq!(parts.added, vec!["c"]);
}

#[test]
fn empty_lists_have_no_parts() {
    let parts = reconcile(&list(&[]), &list(&[]));
    assert!(parts.added.is_empty());
    assert!(parts.removed.is_empty());
    assert!(parts.common.is_empty());
}

#[test]
fn everything_is_added_to_an_empty_list() {
    let parts = reconcile(&list(&[]), &list(&["b", "a"]));
    assert_eq!(parts.added, vec!["a", "b"]);
    assert!(parts.removed.is_empty());
    assert!(parts.common.is_empty());
}

#[test]
fn everything_is_removed_from_a_list_that_ends_empty() {
    let parts = reconcile(&list(&["b", "a"]), &list(&[]));
    assert_eq!(parts.removed, vec!["a", "b"]);
    assert!(parts.added.is_empty());
    assert!(parts.common.is_empty());
}

#[test]
fn parts_cover_both_lists_and_do_not_overlap() {
    let old = ["serde", "anyhow", "libc", "rand", "zstd"];
    let new = ["tokio", "serde", "rand", "bytes", "anyhow", "url"];
    let parts = reconcile(&list(&old), &list(&new));
    let added = set(&parts.added);
    let removed = set(&parts.removed);
    let common = set(&parts.common);
    let mut all: BTreeSet<String> = BTreeSet::new();
    all.extend(old.iter().map(|n| n.to_string()));
    all.extend(new.iter().map(|n| n.to_string()));
    let mut covered = added.clone();
    covered.extend(removed.iter().cloned());
    covered.extend(common.iter().cloned());
    assert_eq!(covered, all);
    assert!(added.is_disjoint(&removed));
    assert!(added.is_disjoint(&common));
    assert!(removed.is_disjoint(&common));
    assert_eq!(added.len() + removed.len() + common.len(), all.len());
}

#[test]
fn exchanging_the_lists_exchanges_added_and_removed() {
    let old = list(&["serde", "anyhow", "libc"]);
    let new = list(&["tokio", "serde", "bytes"]);
    let forth = reconcile(&old, &new);
    let back = reconcile(&new, &old);
    assert_eq!(forth.added, back.removed);
    assert_eq!(forth.removed, back.added);
    assert_eq!(forth.common, back.common);
    assert_eq!(forth.added, vec!["bytes", "tokio"]);
    assert_eq!(forth.removed, vec!["anyhow", "libc"]);
    assert_eq!(forth.common, vec!["serde"]);
}

#[test]
fn each_part_is_in_the_order_of_the_names() {
    let parts = reconcile(
        &list(&["zeta", "Alpha", "mid", "beta", "a-b", "a_b"]),
        &list(&["omega", "mid", "delta", "Beta", "a_b"]),
    );
    for part in [&parts.added, &parts.removed, &parts.common] {
        let mut sorted = part.clone();
        sorted.sort();
        sorted.dedup();
        assert_eq!(*part, sorted);
    }
    assert_eq!(parts.added, vec!["Beta", "delta", "omega"]);
    assert_eq!(parts.removed, vec!["Alpha", "a-b", "beta", "zeta"]);
    assert_eq!(parts.common, vec!["a_b", "mid"]);
}

#[test]
fn result_does_not_depend_on_the_order_read() {
    let first = reconcile(&list(&["a", "b", "c"]), &list(&["d", "c", "b"]));
    let second = reconcile(&list(&["c", "a", "b"]), &list(&["b", "d", "c"]));
    assert_eq!(first.added, second.added);
    assert_eq!(first.removed, second.removed);
    assert_eq!(first.common, second.common);
}

#[test]
fn pairings_follow_the_names_of_both_lists() {
    let old = list(&["a", "b"]);
    let new = DependencyList::from_records(vec![plain("c", "1"), plain("b", "2")]).0;
    let pairings = pair_up(&old, &new);
    assert_eq!(pairings.len(), 3);
    assert_eq!(pairings[0].name(), "a");
    assert_eq!(pairings[0].presence(), Presence::Removed);
    assert_eq!(pairings[1].name(), "b");
    assert_eq!(pairings[1].presence(), Presence::Common);
    assert_eq!(pairings[2].name(), "c");
    assert_eq!(pairings[2].presence(), Presence::Added);
    match &pairings[1] {
        Pairing::Common(before, after) => {
            assert_eq!(before.requirement, "1");
            assert_eq!(after.requirement, "2");
        }
        other => panic!("unexpected pairing {:?}", other),
    }
}
