use crate_diff::error::DiffError;
use crate_diff::registry::{find_version, known_package, listed_versions, VersionInfo};

fn version(text: &str, yanked: bool) -> VersionInfo {
    VersionInfo { version: text.to_string(), yanked }
}

#[test]
fn yanked_versions_are_not_listed() {
    let versions =
        vec![version("0.1.0", false), version("0.1.1", true), version("0.2.0", false)];
    assert_eq!(listed_versions(&versions), vec!["0.1.0", "0.2.0"]);
}

#[test]
fn versions_are_listed_in_the_order_of_the_registry() {
    let versions = vec![version("2.0.0", false), version("0.9.0", false), version("1.0.0", false)];
    assert_eq!(listed_versions(&versions), vec!["2.0.0", "0.9.0", "1.0.0"]);
}

#[test]
fn nothing_is_listed_where_all_is_yanked() {
    assert!(listed_versions(&vec![version("1.0.0", true)]).is_empty());
    assert!(listed_versions(&Vec::new()).is_empty());
}

#[test]
fn version_is_found_at_its_first_position() {
    let versions = vec![version("1.0.0", false), version("1.1.0", true), version("1.1.0", false)];
    assert_eq!(find_version("p", &versions, "1.0.0"), Ok(0));
    assert_eq!(find_version("p", &versions, "1.1.0"), Ok(1));
}

#[test]
fn missing_version_is_named_with_its_package() {
    let versions = vec![version("1.0.0", false)];
    let error = find_version("serde", &versions, "9.9.9").unwrap_err();
    assert_eq!(
        error,
        DiffError::VersionNotFound { package: "serde".to_string(), version: "9.9.9".to_string() }
    );
    assert_eq!(error.message(), "Couldn't find version 9.9.9 for crate serde");
    assert!(find_version("serde", &Vec::new(), "1.0.0").is_err());
}

#[test]
fn version_must_match_as_a_whole() {
    let versions = vec![version("1.0.0", false)];
    assert!(find_version("p", &versions, "1.0").is_err());
    assert!(find_version("p", &versions, "1.0.0 ").is_err());
    assert!(find_version("p", &versions, "").is_err());
}

#[test]
fn unknown_package_is_named() {
    let missing: Option<Vec<VersionInfo>> = None;
    let error = known_package("no-such-package", missing).unwrap_err();
    assert_eq!(error, DiffError::PackageNotFound { package: "no-such-package".to_string() });
    assert_eq!(error.message(), "Couldn't find crate name no-such-package");
    assert!(error.message().contains("no-such-package"));
}

#[test]
fn known_package_is_handed_on() {
    let versions = vec![version("1.0.0", false)];
    assert_eq!(known_package("p", Some(versions.clone())), Ok(versions));
}
