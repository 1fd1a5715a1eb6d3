use crate_diff::error::DiffError;
use crate_diff::tools::{
    archive_name, download_url, extraction_arguments, record_diff_arguments, record_diff_outcome,
    shown, success_or_error, tool_failure, tree_diff_arguments, tree_diff_outcome,
    versioned_name, ToolOutput,
};

fn output(code: Option<i32>, stdout: &[u8], stderr: &[u8]) -> ToolOutput {
    ToolOutput { code, stdout: stdout.to_vec(), stderr: stderr.to_vec() }
}

#[test]
fn names_are_made_of_package_and_version() {
    assert_eq!(versioned_name("serde", "1.0.0"), "serde-1.0.0");
    assert_eq!(archive_name("serde", "1.0.0"), "serde-1.0.0.tar.gz");
    assert_eq!(versioned_name("", ""), "-");
}

#[test]
fn address_names_package_and_version() {
    assert_eq!(
        download_url("serde", "1.0.0"),
        "https://crates.io/api/v1/crates/serde/1.0.0/download"
    );
}

#[test]
fn tar_is_asked_to_unpack_the_archive() {
    assert_eq!(
        extraction_arguments("/tmp/x/serde-1.0.0.tar.gz"),
        vec!["xf", "/tmp/x/serde-1.0.0.tar.gz"]
    );
}

#[test]
fn trees_are_compared_without_packaging_files() {
    assert_eq!(
        tree_diff_arguments("serde", "1.0.0", "1.0.1"),
        vec![
            "-urw",
            "--color=always",
            "-x",
            "ci.yml",
            "-x",
            ".cargo_vcs_info.json",
            "serde-1.0.0",
            "serde-1.0.1",
        ]
    );
}

#[test]
fn snapshots_are_compared_with_full_context() {
    assert_eq!(
        record_diff_arguments("serde", "1.0.0", "1.0.1"),
        vec!["-w", "--unified=1000", "serde-1.0.0", "serde-1.0.1"]
    );
}

#[test]
fn successful_tool_hands_its_output_on() {
    let out = output(Some(0), b"fine", b"");
    assert_eq!(success_or_error("\"tar\" \"xf\"", out.clone()), Ok(out));
}

#[test]
fn failed_tool_is_reported_with_all_it_printed() {
    let error = success_or_error("\"tar\" \"xf\" \"a.tar.gz\"", output(Some(2), b"out\n", b"no such file\n"))
        .unwrap_err();
    assert_eq!(
        error,
        DiffError::ToolFailed {
            command: "\"tar\" \"xf\" \"a.tar.gz\"".to_string(),
            stdout: "out\n".to_string(),
            stderr: "no such file\n".to_string(),
        }
    );
    assert_eq!(
        error.message(),
        "Failed to run \"tar\" \"xf\" \"a.tar.gz\".\nstdout:\nout\n\nstderr:\nno such file\n"
    );
}

#[test]
fn tool_ended_by_a_signal_has_failed() {
    assert!(matches!(
        success_or_error("tar", output(None, b"", b"")),
        Err(DiffError::ToolFailed { .. })
    ));
    assert!(matches!(
        success_or_error("tar", output(Some(1), b"", b"")),
        Err(DiffError::ToolFailed { .. })
    ));
    assert!(matches!(
        success_or_error("tar", output(Some(-1), b"", b"")),
        Err(DiffError::ToolFailed { .. })
    ));
}

#[test]
fn failed_tool_is_reported_with_output_that_is_no_text() {
    let error =
        success_or_error("tar", output(Some(2), &[0x66, 0xff, 0x6f], b"cannot open\n")).unwrap_err();
    assert_eq!(
        error,
        DiffError::ToolFailed {
            command: "tar".to_string(),
            stdout: "f\u{fffd}o".to_string(),
            stderr: "cannot open\n".to_string(),
        }
    );
    assert_eq!(
        error.message(),
        "Failed to run tar.\nstdout:\nf\u{fffd}o\nstderr:\ncannot open\n"
    );
    let error = tool_failure("tar", &output(None, b"out", &[0x65, 0xc3]));
    assert_eq!(
        error,
        DiffError::ToolFailed {
            command: "tar".to_string(),
            stdout: "out".to_string(),
            stderr: "e\u{fffd}".to_string(),
        }
    );
}

#[test]
fn well_formed_bytes_are_shown_as_the_text_they_encode() {
    assert_eq!(shown(&Vec::new()), "");
    assert_eq!(shown(&b"plain\n".to_vec()), "plain\n");
    assert_eq!(shown(&"grün ✓ 日本".as_bytes().to_vec()), "grün ✓ 日本");
}

#[test]
fn other_bytes_are_shown_with_a_mark_in_their_place() {
    assert_eq!(shown(&vec![0xff]), "\u{fffd}");
    assert_eq!(shown(&vec![0x61, 0x80, 0x62]), "a\u{fffd}b");
    assert_eq!(shown(&vec![0x61, 0xe2, 0x82]), "a\u{fffd}");
}

#[test]
fn printed_text_is_decoded() {
    let error = tool_failure("tar", &output(Some(2), "grün ✓".as_bytes(), "größer".as_bytes()));
    assert_eq!(
        error,
        DiffError::ToolFailed {
            command: "tar".to_string(),
            stdout: "grün ✓".to_string(),
            stderr: "größer".to_string(),
        }
    );
}

#[test]
fn tree_comparison_shows_what_diff_printed() {
    assert_eq!(tree_diff_outcome("diff", &output(Some(0), b"", b"")), Ok(String::new()));
    assert_eq!(
        tree_diff_outcome("diff", &output(Some(1), b"--- a\n+++ b\n", b"")),
        Ok("--- a\n+++ b\n".to_string())
    );
}

#[test]
fn tree_comparison_fails_on_a_status_beyond_one() {
    assert_eq!(
        tree_diff_outcome("diff", &output(Some(2), b"", b"diff: missing operand\n")),
        Err(DiffError::ToolFailed {
            command: "diff".to_string(),
            stdout: String::new(),
            stderr: "diff: missing operand\n".to_string(),
        })
    );
    assert!(tree_diff_outcome("diff", &output(None, b"", b"")).is_err());
    assert_eq!(
        tree_diff_outcome("diff", &output(Some(2), &[0xff], &[0x62, 0xfe])),
        Err(DiffError::ToolFailed {
            command: "diff".to_string(),
            stdout: "\u{fffd}".to_string(),
            stderr: "b\u{fffd}".to_string(),
        })
    );
}

#[test]
fn tree_comparison_shows_files_that_are_no_text() {
    let printed = b"--- a/caf\xe9.txt\n+++ b/caf\xe9.txt\n-na\xefve\n+naive\n";
    assert_eq!(
        tree_diff_outcome("diff", &output(Some(1), printed, b"")),
        Ok("--- a/caf\u{fffd}.txt\n+++ b/caf\u{fffd}.txt\n-na\u{fffd}ve\n+naive\n".to_string())
    );
    assert_eq!(
        tree_diff_outcome("diff", &output(Some(0), &[0xff], b"")),
        Ok("\u{fffd}".to_string())
    );
}

#[test]
fn alike_snapshots_show_nothing() {
    assert_eq!(record_diff_outcome("diff", &output(Some(0), b"", b"")), Ok(None));
    assert_eq!(record_diff_outcome("diff", &output(Some(0), b"ignored", b"")), Ok(None));
}

#[test]
fn differing_snapshots_show_the_body() {
    let printed = b"--- p-1\n+++ p-2\n@@ -1,3 +1,3 @@\n Dependency {\n-    req: \"^2.0\",\n+    req: \"^2.1\",\n }\n";
    assert_eq!(
        record_diff_outcome("diff", &output(Some(1), printed, b"")),
        Ok(Some(" Dependency {\n-    req: \"^2.0\",\n+    req: \"^2.1\",\n }".to_string()))
    );
}

#[test]
fn snapshot_comparison_fails_on_a_status_beyond_one() {
    assert!(matches!(
        record_diff_outcome("diff", &output(Some(2), b"", b"trouble")),
        Err(DiffError::ToolFailed { .. })
    ));
    assert_eq!(
        record_diff_outcome("diff", &output(Some(3), &[0x80], b"")),
        Err(DiffError::ToolFailed {
            command: "diff".to_string(),
            stdout: "\u{fffd}".to_string(),
            stderr: String::new(),
        })
    );
}

#[test]
fn differing_snapshots_show_a_body_that_is_no_text() {
    let printed = b"--- p-1\n+++ p-2\n@@ -1 +1 @@\n-\x80\n+b\n";
    assert_eq!(
        record_diff_outcome("diff", &output(Some(1), printed, b"")),
        Ok(Some("-\u{fffd}\n+b".to_string()))
    );
}
