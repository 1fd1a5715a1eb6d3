use crate_diff::unified::{begins_with, changed_block, split_lines};

#[test]
fn text_is_split_at_line_feeds() {
    assert_eq!(split_lines("a\nb\nc"), vec!["a", "b", "c"]);
    assert_eq!(split_lines("a\nb\n"), vec!["a", "b"]);
    assert_eq!(split_lines("a\n\nb"), vec!["a", "", "b"]);
    assert_eq!(split_lines("\n"), vec![""]);
    assert!(split_lines("").is_empty());
}

#[test]
fn carriage_return_before_a_line_feed_ends_the_line() {
    assert_eq!(split_lines("a\r\nb\r\n"), vec!["a", "b"]);
    assert_eq!(split_lines("a\rb\n"), vec!["a\rb"]);
    assert_eq!(split_lines("a\r"), vec!["a\r"]);
    assert_eq!(split_lines("a\r\r\nb"), vec!["a\r", "b"]);
    assert_eq!(split_lines("\r\n"), vec![""]);
    assert_eq!(split_lines("\r"), vec!["\r"]);
}

#[test]
fn lines_are_those_of_the_standard_library() {
    let samples = [
        "",
        "\n",
        "\r",
        "\r\n",
        "a",
        "a\n",
        "a\r\n",
        "a\n\n",
        "\n\na",
        "a\r\rb\r\n\r\nc\r",
        "--- x\n+++ y\n@@ -1 +1 @@\n-a\n+b\n",
        "ä\nö\r\nü",
    ];
    for sample in samples {
        let expected: Vec<String> = sample.lines().map(|l| l.to_string()).collect();
        assert_eq!(split_lines(sample), expected);
    }
}

#[test]
fn prefix_is_recognised() {
    assert!(begins_with("--- a/file", "---"));
    assert!(begins_with("---", "---"));
    assert!(begins_with("anything", ""));
    assert!(!begins_with("--", "---"));
    assert!(!begins_with("+-- a", "---"));
    assert!(!begins_with("", "@@"));
    assert!(begins_with("äöü", "äö"));
    assert!(!begins_with("äöü", "äu"));
}

#[test]
fn header_lines_are_left_out() {
    let output = "--- p-1.0\t2024-01-01 00:00:00\n+++ p-1.1\t2024-01-01 00:00:00\n@@ -1,11 +1,11 @@\n Dependency {\n     name: \"b\",\n-    req: \"^2.0\",\n+    req: \"^2.1\",\n     features: [],\n }\n";
    let shown = changed_block(output);
    assert_eq!(
        shown,
        " Dependency {\n     name: \"b\",\n-    req: \"^2.0\",\n+    req: \"^2.1\",\n     features: [],\n }"
    );
    assert!(!shown.lines().any(|l| l.starts_with("---")));
    assert!(!shown.lines().any(|l| l.starts_with("+++")));
    assert!(!shown.lines().any(|l| l.starts_with("@@")));
    assert!(shown.contains("-    req: \"^2.0\","));
    assert!(shown.contains("+    req: \"^2.1\","));
}

#[test]
fn conventional_output_loses_its_first_three_lines() {
    let output = "--- a\n+++ b\n@@ -1 +1 @@\n-x\n+y\n";
    let expected: Vec<&str> = output.lines().skip(3).collect();
    assert_eq!(changed_block(output), expected.join("\n"));
}

#[test]
fn body_without_header_is_kept() {
    assert_eq!(changed_block(" a\n-b\n+c\n"), " a\n-b\n+c");
    assert_eq!(changed_block(""), "");
}

#[test]
fn only_leading_header_lines_are_left_out() {
    assert_eq!(changed_block("--- a\n+++ b\n@@ -1 +1 @@\n--- x\n+++ y\n"), "--- x\n+++ y");
    assert_eq!(changed_block("--- a\n x\n+++ y\n"), " x\n+++ y");
    assert_eq!(changed_block("+++ b\n@@ -1 +1 @@\n-x\n"), "-x");
    assert_eq!(changed_block("@@ -1 +1 @@\n-x\n"), "-x");
    assert_eq!(changed_block("--- a\n+++ b\n"), "");
}

#[test]
fn joined_lines_give_the_text_back() {
    for text in ["", "a", "a\nb", "a\n\nb", "\na", " x\n-y\n+z"] {
        assert_eq!(split_lines(text).join("\n"), text);
        let ended = format!("{}\n", text);
        assert_eq!(split_lines(&ended).join("\n"), text);
    }
    assert!(split_lines("a\nb\nc\n").iter().all(|line| !line.contains('\n')));
}
