use crate_diff::record::{DependencyKind, DependencyRecord};
use crate_diff::report::{block_of, snapshot_of};

fn plain(name: &str, requirement: &str) -> DependencyRecord {
    DependencyRecord {
        name: name.to_string(),
        requirement: requirement.to_string(),
        features: Vec::new(),
        package: None,
        kind: DependencyKind::Normal,
        registry: None,
        target: None,
        optional: false,
        default_features: true,
    }
}

#[test]
fn plain_record_is_rendered_field_by_field() {
    let expected = "Dependency {\n    name: \"serde\",\n    req: \"^1.0\",\n    features: [],\n    package: None,\n    kind: Normal,\n    registry: None,\n    target: None,\n    optional: false,\n    default_features: true,\n}";
    assert_eq!(plain("serde", "^1.0").rendering(), expected);
}

#[test]
fn plain_record_has_eleven_lines() {
    let lines = plain("serde", "^1.0").lines();
    assert_eq!(lines.len(), 11);
    assert_eq!(lines[0], "Dependency {");
    assert_eq!(lines[1], "    name: \"serde\",");
    assert_eq!(lines[2], "    req: \"^1.0\",");
    assert_eq!(lines[10], "}");
}

#[test]
fn full_record_is_rendered_field_by_field() {
    let record = DependencyRecord {
        name: "ssl".to_string(),
        requirement: ">=0.10, <0.12".to_string(),
        features: vec!["vendored".to_string(), "v111".to_string()],
        package: Some("openssl".to_string()),
        kind: DependencyKind::Build,
        registry: Some("https://example.org/index".to_string()),
        target: Some("cfg(target_os = \"linux\")".to_string()),
        optional: true,
        default_features: false,
    };
    let expected = vec![
        "Dependency {",
        "    name: \"ssl\",",
        "    req: \">=0.10, <0.12\",",
        "    features: [",
        "        \"vendored\",",
        "        \"v111\",",
        "    ],",
        "    package: Some(",
        "        \"openssl\",",
        "    ),",
        "    kind: Build,",
        "    registry: Some(",
        "        \"https://example.org/index\",",
        "    ),",
        "    target: Some(",
        "        \"cfg(target_os = \\\"linux\\\")\",",
        "    ),",
        "    optional: true,",
        "    default_features: false,",
        "}",
    ];
    assert_eq!(record.lines(), expected);
    assert_eq!(record.rendering(), expected.join("\n"));
}

#[test]
fn features_keep_the_order_of_the_record() {
    let mut record = plain("a", "1");
    record.features = vec!["z".to_string(), "a".to_string()];
    let lines = record.lines();
    assert_eq!(lines[4], "        \"z\",");
    assert_eq!(lines[5], "        \"a\",");
}

#[test]
fn dev_kind_is_named() {
    let mut record = plain("a", "1");
    record.kind = DependencyKind::Dev;
    assert_eq!(record.lines()[5], "    kind: Dev,");
}

#[test]
fn quotes_and_backslashes_are_escaped() {
    let record = plain("a", "say \"hi\" \\ bye");
    assert_eq!(record.lines()[2], "    req: \"say \\\"hi\\\" \\\\ bye\",");
}

#[test]
fn line_breaks_and_tabs_are_escaped() {
    let record = plain("a", "x\ny\r\tz\0");
    assert_eq!(record.lines()[2], "    req: \"x\\ny\\r\\tz\\0\",");
    assert_eq!(record.lines().len(), 11);
}

#[test]
fn control_characters_are_written_in_hexadecimal() {
    let record = plain("a", "\u{1}\u{b}\u{1b}\u{1f}\u{7f}");
    assert_eq!(record.lines()[2], "    req: \"\\u{1}\\u{b}\\u{1b}\\u{1f}\\u{7f}\",");
}

#[test]
fn escaping_agrees_with_the_debug_form_on_ascii() {
    for code in 0u8..128 {
        let text = (code as char).to_string();
        let record = plain("a", &text);
        assert_eq!(record.lines()[2], format!("    req: {:?},", text));
    }
}

#[test]
fn other_characters_stand_for_themselves() {
    let record = plain("a", "größer 'als' 1 ✓");
    assert_eq!(record.lines()[2], "    req: \"größer 'als' 1 ✓\",");
}

#[test]
fn empty_texts_are_rendered_as_empty_quotes() {
    let record = plain("", "");
    assert_eq!(record.lines()[1], "    name: \"\",");
    assert_eq!(record.lines()[2], "    req: \"\",");
}

#[test]
fn rendering_is_the_same_on_every_call() {
    let record = plain("serde", "^1.0");
    assert_eq!(record.rendering(), record.rendering());
    assert_eq!(record.rendering(), record.clone().rendering());
}

#[test]
fn block_marks_every_line() {
    let block = block_of(&plain("a", "^1.0"), '+');
    let expected = "+Dependency {\n+    name: \"a\",\n+    req: \"^1.0\",\n+    features: [],\n+    package: None,\n+    kind: Normal,\n+    registry: None,\n+    target: None,\n+    optional: false,\n+    default_features: true,\n+}";
    assert_eq!(block, expected);
    assert!(block.lines().all(|line| line.starts_with('+')));
}

#[test]
fn removed_block_is_marked_with_minus() {
    let block = block_of(&plain("a", "^1.0"), '-');
    assert_eq!(block.lines().count(), 11);
    assert!(block.lines().all(|line| line.starts_with('-')));
    assert!(!block.ends_with('\n'));
}

#[test]
fn snapshot_is_the_rendering_and_a_line_feed() {
    let record = plain("a", "^1.0");
    assert_eq!(snapshot_of(&record), format!("{}\n", record.rendering()));
}

#[test]
fn escaped_and_plain_texts_are_told_apart() {
    let pairs = [
        ("\n", "\\n"),
        ("\"", "\\\""),
        ("\\", "\\\\"),
        ("\u{1}", "\\u{1}"),
        ("\u{1f}", "\u{1}f"),
        ("a", "a "),
        ("", " "),
    ];
    for (one, other) in pairs {
        assert_ne!(plain("a", one).rendering(), plain("a", other).rendering());
        assert_ne!(plain(one, "1").rendering(), plain(other, "1").rendering());
    }
}

#[test]
fn records_that_differ_are_rendered_differently() {
    let mut with_feature = plain("a", "1");
    with_feature.features = vec!["x".to_string()];
    let mut with_two = plain("a", "1");
    with_two.features = vec!["x".to_string(), "y".to_string()];
    let mut with_package = plain("a", "1");
    with_package.package = Some("x".to_string());
    let mut with_target = plain("a", "1");
    with_target.target = Some("x".to_string());
    let mut with_registry = plain("a", "1");
    with_registry.registry = Some("x".to_string());
    let all = [plain("a", "1"), with_feature, with_two, with_package, with_target, with_registry];
    for (i, one) in all.iter().enumerate() {
        for (j, other) in all.iter().enumerate() {
            assert_eq!(i == j, one.rendering() == other.rendering());
        }
    }
}
