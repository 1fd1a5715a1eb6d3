use crate_diff::list::DependencyList;
use crate_diff::record::{DependencyKind, DependencyRecord};
use crate_diff::report::{dependency_steps, Step};

fn plain(name: &str, requirement: &str) -> DependencyRecord {
    DependencyRecord {
        name: name.to_string(),
        requirement: requirement.to_string(),
        features: Vec::new(),
        package: None,
        kind: DependencyKind::Normal,
        registry: None,
        target: None,
        optional: false,
        default_features: true,
    }
}

fn list(records: Vec<DependencyRecord>) -> DependencyList {
    DependencyList::from_records(records).0
}

fn block(mark: char, name: &str, requirement: &str) -> String {
    let lines = [
        "Dependency {".to_string(),
        format!("    name: \"{}\",", name),
        format!("    req: \"{}\",", requirement),
        "    features: [],".to_string(),
        "    package: None,".to_string(),
        "    kind: Normal,".to_string(),
        "    registry: None,".to_string(),
        "    target: None,".to_string(),
        "    optional: false,".to_string(),
        "    default_features: true,".to_string(),
        "}".to_string(),
    ];
    lines.iter().map(|l| format!("{}{}", mark, l)).collect::<Vec<_>>().join("\n")
}

#[test]
fn removed_and_added_are_shown_and_unchanged_is_silent() {
    let old = list(vec![plain("a", "^1.0"), plain("b", "^2.0")]);
    let new = list(vec![plain("b", "^2.0"), plain("c", "^1.0")]);
    let steps = dependency_steps(&old, &new);
    assert_eq!(
        steps,
        vec![
            Step::Removed { name: "a".to_string(), block: block('-', "a", "^1.0") },
            Step::Added { name: "c".to_string(), block: block('+', "c", "^1.0") },
        ]
    );
}

#[test]
fn changed_requirement_is_compared() {
    let old = list(vec![plain("a", "^1.0"), plain("b", "^2.0")]);
    let new = list(vec![plain("b", "^2.1"), plain("c", "^1.0")]);
    let steps = dependency_steps(&old, &new);
    assert_eq!(steps.len(), 3);
    assert_eq!(steps[0].name(), "a");
    assert_eq!(steps[1].name(), "b");
    assert_eq!(steps[2].name(), "c");
    match &steps[1] {
        Step::Compare { name, old, new } => {
            assert_eq!(name, "b");
            assert_eq!(*old, format!("{}\n", plain("b", "^2.0").rendering()));
            assert_eq!(*new, format!("{}\n", plain("b", "^2.1").rendering()));
            assert!(old.contains("    req: \"^2.0\",\n"));
            assert!(new.contains("    req: \"^2.1\",\n"));
        }
        other => panic!("unexpected step {:?}", other),
    }
}

#[test]
fn identical_lists_need_no_step() {
    let records = vec![plain("a", "^1.0"), plain("b", "^2.0"), plain("c", "=3")];
    let steps = dependency_steps(&list(records.clone()), &list(records));
    assert!(steps.is_empty());
}

#[test]
fn every_differing_field_leads_to_a_comparison() {
    let base = plain("a", "1");
    let mut changed = Vec::new();
    let mut r = base.clone();
    r.requirement = "2".to_string();
    changed.push(r);
    let mut r = base.clone();
    r.features = vec!["std".to_string()];
    changed.push(r);
    let mut r = base.clone();
    r.package = Some("b".to_string());
    changed.push(r);
    let mut r = base.clone();
    r.kind = DependencyKind::Dev;
    changed.push(r);
    let mut r = base.clone();
    r.registry = Some("https://example.org".to_string());
    changed.push(r);
    let mut r = base.clone();
    r.target = Some("cfg(unix)".to_string());
    changed.push(r);
    let mut r = base.clone();
    r.optional = true;
    changed.push(r);
    let mut r = base.clone();
    r.default_features = false;
    changed.push(r);
    for after in changed {
        let steps = dependency_steps(&list(vec![base.clone()]), &list(vec![after.clone()]));
        assert_eq!(steps.len(), 1);
        match &steps[0] {
            Step::Compare { name, old, new } => {
                assert_eq!(name, "a");
                assert_ne!(old, new);
                assert_eq!(*old, format!("{}\n", base.rendering()));
                assert_eq!(*new, format!("{}\n", after.rendering()));
            }
            other => panic!("unexpected step {:?}", other),
        }
    }
}

#[test]
fn steps_are_in_the_order_of_the_names() {
    let old = list(vec![plain("zeta", "1"), plain("mid", "1"), plain("Alpha", "1")]);
    let new = list(vec![plain("omega", "1"), plain("mid", "2"), plain("beta", "1")]);
    let steps = dependency_steps(&old, &new);
    let names: Vec<&str> = steps.iter().map(|s| s.name()).collect();
    assert_eq!(names, vec!["Alpha", "beta", "mid", "omega", "zeta"]);
    assert!(matches!(steps[0], Step::Removed { .. }));
    assert!(matches!(steps[1], Step::Added { .. }));
    assert!(matches!(steps[2], Step::Compare { .. }));
    assert!(matches!(steps[3], Step::Added { .. }));
    assert!(matches!(steps[4], Step::Removed { .. }));
}

#[test]
fn steps_are_the_same_on_every_run() {
    let old = vec![plain("b", "1"), plain("a", "1"), plain("d", "1")];
    let new = vec![plain("d", "2"), plain("c", "1"), plain("b", "1")];
    let first = dependency_steps(&list(old.clone()), &list(new.clone()));
    let second = dependency_steps(&list(old), &list(new));
    assert_eq!(first, second);
}
