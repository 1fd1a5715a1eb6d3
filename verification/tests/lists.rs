use crate_diff::list::DependencyList;
use crate_diff::record::{DependencyKind, DependencyRecord};

fn plain(name: &str, requirement: &str) -> DependencyRecord {
    DependencyRecord {
        name: name.to_string(),
        requirement: requirement.to_string(),
        features: Vec::new(),
        package: None,
        kind: DependencyKind::Normal,
        registry: None,
        target: None,
        optional: false,
        default_features: true,
    }
}

fn names(list: &DependencyList) -> Vec<String> {
    list.records().iter().map(|r| r.name.clone()).collect()
}

#[test]
fn records_are_held_in_the_order_of_their_names() {
    let (list, again) =
        DependencyList::from_records(vec![plain("c", "1"), plain("a", "2"), plain("b", "3")]);
    assert_eq!(names(&list), vec!["a", "b", "c"]);
    assert!(again.is_empty());
}

#[test]
fn empty_list_holds_nothing() {
    let (list, again) = DependencyList::from_records(Vec::new());
    assert!(list.records().is_empty());
    assert!(again.is_empty());
    assert!(list.get("a").is_none());
}

#[test]
fn record_is_found_by_its_name() {
    let (list, _) = DependencyList::from_records(vec![plain("c", "1"), plain("a", "2")]);
    assert_eq!(list.get("a").map(|r| r.requirement.as_str()), Some("2"));
    assert_eq!(list.get("c").map(|r| r.requirement.as_str()), Some("1"));
    assert!(list.get("b").is_none());
    assert!(list.get("").is_none());
    assert!(list.get("d").is_none());
}

#[test]
fn last_record_of_a_name_stands() {
    let mut dev = plain("a", "2");
    dev.kind = DependencyKind::Dev;
    let (list, again) =
        DependencyList::from_records(vec![plain("a", "1"), plain("b", "1"), dev]);
    assert_eq!(names(&list), vec!["a", "b"]);
    let kept = list.get("a").unwrap();
    assert_eq!(kept.requirement, "2");
    assert_eq!(kept.kind, DependencyKind::Dev);
    assert_eq!(again, vec!["a"]);
}

#[test]
fn every_replacement_is_reported_in_the_order_read() {
    let (list, again) = DependencyList::from_records(vec![
        plain("b", "1"),
        plain("a", "1"),
        plain("b", "2"),
        plain("a", "2"),
        plain("b", "3"),
    ]);
    assert_eq!(names(&list), vec!["a", "b"]);
    assert_eq!(list.get("a").unwrap().requirement, "2");
    assert_eq!(list.get("b").unwrap().requirement, "3");
    assert_eq!(again, vec!["b", "a", "b"]);
}

#[test]
fn many_records_are_sorted() {
    let mut records = Vec::new();
    for i in (0..50).rev() {
        records.push(plain(&format!("dep{:02}", (i * 7) % 50), "1"));
    }
    let (list, again) = DependencyList::from_records(records);
    let held = names(&list);
    let mut sorted = held.clone();
    sorted.sort();
    sorted.dedup();
    assert_eq!(held, sorted);
    assert_eq!(held.len(), 50);
    assert!(again.is_empty());
    for name in &held {
        assert_eq!(list.get(name).unwrap().name, *name);
    }
}
