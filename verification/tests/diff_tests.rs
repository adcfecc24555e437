use lint_emit::diff::get_changed_lines_from_diff;
use lint_emit::get_changed_lines;
use lint_emit::LintError;

#[test]
fn two_context_then_two_added_lines_are_numbered_from_the_header() {
    let diff = "@@ -10,4 +20,5 @@\n context\n context\n+let a = 1;\n+let b = 2;\n";
    let lines = get_changed_lines_from_diff(diff).unwrap();
    assert_eq!(lines.len(), 2);
    assert_eq!(lines[0].line, 22);
    assert_eq!(lines[0].source, "let a = 1;");
    assert_eq!(lines[1].line, 23);
    assert_eq!(lines[1].source, "let b = 2;");
}

#[test]
fn removed_lines_do_not_advance_the_counter_context_lines_do() {
    let diff = "@@ -1,3 +1,3 @@\n-old\n+first\n context\n+third\n";
    let lines = get_changed_lines_from_diff(diff).unwrap();
    assert_eq!(lines.len(), 2);
    // the removed line is not counted: the first added line is line 1
    assert_eq!(lines[0].line, 1);
    assert_eq!(lines[0].source, "first");
    // the context line is counted: the next added line is line 3
    assert_eq!(lines[1].line, 3);
    assert_eq!(lines[1].source, "third");
}

#[test]
fn second_hunk_header_resets_the_counter() {
    let diff = "@@ -1,2 +1,2 @@\n context\n+two\n@@ -100,2 +200,2 @@\n context\n+ freshly added\n";
    let lines = get_changed_lines_from_diff(diff).unwrap();
    assert_eq!(lines.len(), 2);
    assert_eq!(lines[0].line, 2);
    // the second hunk starts over at its own new-start value
    assert_eq!(lines[1].line, 201);
    assert_eq!(lines[1].source, "freshly added");
}

#[test]
fn lines_before_the_first_hunk_header_are_ignored() {
    let diff = "diff --git a/x.rs b/x.rs\nindex 123..456 100644\n--- a/x.rs\n+++ b/x.rs\n@@ -1,1 +1,2 @@\n context\n+new line\n";
    let lines = get_changed_lines_from_diff(diff).unwrap();
    // the `+++ b/x.rs` header line must not be recorded as a change
    assert_eq!(lines.len(), 1);
    assert_eq!(lines[0].line, 2);
    assert_eq!(lines[0].source, "new line");
}

#[test]
fn diff_without_hunk_headers_is_an_empty_change_set() {
    let lines = get_changed_lines_from_diff("Binary files a/img b/img differ\n").unwrap();
    assert!(lines.is_empty());
    let lines = get_changed_lines_from_diff("").unwrap();
    assert!(lines.is_empty());
}

#[test]
fn malformed_hunk_header_is_a_parse_error() {
    let err = get_changed_lines_from_diff("@@ nonsense @@\n+added\n").unwrap_err();
    assert_eq!(err, LintError::Parse);
    // a new-start value too large for a line number is also unreadable
    let err = get_changed_lines_from_diff("@@ -1,1 +99999999999,1 @@\n").unwrap_err();
    assert_eq!(err, LintError::Parse);
}

#[test]
fn header_count_may_be_omitted_and_crlf_is_tolerated() {
    let diff = "@@ -3 +7 @@\r\n+only\r\n";
    let lines = get_changed_lines_from_diff(diff).unwrap();
    assert_eq!(lines.len(), 1);
    assert_eq!(lines[0].line, 7);
    assert_eq!(lines[0].source, "only");
}

#[test]
fn added_line_markers_and_indentation_are_stripped() {
    let diff = "@@ -1,0 +1,2 @@\n+    indented\n++leading plus kept after run\n";
    let lines = get_changed_lines_from_diff(diff).unwrap();
    assert_eq!(lines.len(), 2);
    assert_eq!(lines[0].source, "indented");
    // the marker run swallows the second plus; the text begins after it
    assert_eq!(lines[1].source, "leading plus kept after run");
}

#[test]
fn get_changed_lines_keys_the_change_set_by_the_file() {
    let diff = "@@ -1,1 +1,1 @@\n+x\n";
    let dm = get_changed_lines(diff, "/repo/src/a.rs").unwrap();
    assert_eq!(dm.file, "/repo/src/a.rs");
    assert_eq!(dm.changed_lines.len(), 1);
    assert_eq!(dm.changed_lines[0].line, 1);
    assert_eq!(dm.changed_lines[0].source, "x");
}

#[test]
fn error_messages_name_their_kind() {
    assert_eq!(LintError::IO.message(), "IO error");
    assert_eq!(LintError::Parse.message(), "Parsing error");
    assert_eq!(LintError::Config.message(), "Configuration error");
    assert_eq!(LintError::Invocation.message(), "Invocation error");
}
