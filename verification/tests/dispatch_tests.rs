use lint_emit::dispatch::extension;
use lint_emit::dispatch::get_valid_linters;
use lint_emit::dispatch::plan_units;
use lint_emit::dispatch::run_units;
use lint_emit::dispatch::UnitStatus;
use lint_emit::get_changed_lines;
use lint_emit::invoke::choose_output;
use lint_emit::invoke::render_arg;
use lint_emit::invoke::render_args;
use lint_emit::LintError;
use lint_emit::LinterConfig;

fn linter(name: &str, regex: &str, ext: &[&str]) -> LinterConfig {
    LinterConfig {
        name: name.to_string(),
        cmd: name.to_string(),
        args: vec!["{file}".to_string()],
        regex: regex.to_string(),
        ext: ext.iter().map(|e| e.to_string()).collect(),
    }
}

const RS_REGEX: &str = r"(?P<file>[^:]*):(?P<line>\d+): (?P<message>.*)";

#[test]
fn extensions_follow_the_last_dot_of_the_last_component() {
    assert_eq!(extension("/p/a.rs"), Some("rs".to_string()));
    assert_eq!(extension("a.tar.gz"), Some("gz".to_string()));
    assert_eq!(extension("/p/Makefile"), None);
    assert_eq!(extension("/p/.gitignore"), None);
    assert_eq!(extension("/p.d/noext"), None);
    assert_eq!(extension("trailing."), Some("".to_string()));
}

#[test]
fn valid_linters_are_those_listing_the_extension() {
    let linters = vec![
        linter("clippy", RS_REGEX, &["rs"]),
        linter("phpmd", RS_REGEX, &["php"]),
        linter("fmt", RS_REGEX, &["rs", "toml"]),
    ];
    let valid = get_valid_linters(&"rs".to_string(), &linters);
    assert_eq!(valid.len(), 2);
    assert_eq!(valid[0].name, "clippy");
    assert_eq!(valid[1].name, "fmt");
    assert!(get_valid_linters(&"py".to_string(), &linters).is_empty());
}

#[test]
fn plan_pairs_every_file_with_every_applicable_linter() {
    let files = vec!["/p/a.rs".to_string(), "/p/b.txt".to_string(), "/p/c.rs".to_string()];
    let linters = vec![linter("clippy", RS_REGEX, &["rs"]), linter("fmt", RS_REGEX, &["rs"])];
    let (pairs, skipped) = plan_units(&files, &linters);
    // the `.rs` files get both linters; the `.txt` file gets none
    assert_eq!(pairs, vec![(0, 0), (0, 1), (2, 0), (2, 1)]);
    assert_eq!(skipped, vec![1]);
}

#[test]
fn file_without_applicable_linter_yields_no_messages_and_a_skip_signal() {
    let files = vec!["/p/readme.md".to_string()];
    let linters = vec![linter("clippy", RS_REGEX, &["rs"])];
    let (pairs, skipped) = plan_units(&files, &linters);
    assert!(pairs.is_empty());
    assert_eq!(skipped, vec![0]);
    let dm = get_changed_lines("@@ -1,1 +1,1 @@\n+x\n", "/p/readme.md").unwrap();
    let (msgs, statuses) = run_units(&pairs, &vec![], &linters, &vec![dm]);
    assert!(msgs.is_empty());
    assert!(statuses.is_empty());
}

#[test]
fn two_linters_on_one_file_aggregate_the_union_of_their_messages() {
    let files = vec!["/p/a.rs".to_string()];
    let linters = vec![linter("clippy", RS_REGEX, &["rs"]), linter("fmt", RS_REGEX, &["rs"])];
    let (pairs, skipped) = plan_units(&files, &linters);
    assert_eq!(pairs, vec![(0, 0), (0, 1)]);
    assert!(skipped.is_empty());
    let dm = get_changed_lines("@@ -1,1 +1,2 @@\n keep\n+let x = 1;\n", "/p/a.rs").unwrap();
    let outs = vec![
        Some("/p/a.rs:2: style problem\n".to_string()),
        Some("/p/a.rs:2: needs formatting\n/p/a.rs:1: untouched line problem\n".to_string()),
    ];
    let (msgs, statuses) = run_units(&pairs, &outs, &linters, &vec![dm]);
    assert_eq!(statuses, vec![UnitStatus::Ran, UnitStatus::Ran]);
    // both linters' accepted messages arrive; the pre-existing one does not
    assert_eq!(msgs.len(), 2);
    assert_eq!(msgs[0].linter, "clippy");
    assert_eq!(msgs[0].message, "style problem");
    assert_eq!(msgs[1].linter, "fmt");
    assert_eq!(msgs[1].message, "needs formatting");
    for m in &msgs {
        assert_eq!(m.file, "/p/a.rs");
        assert_eq!(m.line, 2);
        assert_eq!(m.source, "let x = 1;");
    }
}

#[test]
fn failed_units_are_reported_and_never_abort_the_rest() {
    let files = vec!["/p/a.rs".to_string()];
    let mut broken = linter("broken", "(", &["rs"]);
    broken.args = vec![];
    let linters = vec![broken, linter("clippy", RS_REGEX, &["rs"])];
    let (pairs, _) = plan_units(&files, &linters);
    assert_eq!(pairs, vec![(0, 0), (0, 1)]);
    let dm = get_changed_lines("@@ -1,1 +1,2 @@\n keep\n+let x = 1;\n", "/p/a.rs").unwrap();
    let outs = vec![None, Some("/p/a.rs:2: style problem\n".to_string())];
    let (msgs, statuses) = run_units(&pairs, &outs, &linters, &vec![dm]);
    assert_eq!(
        statuses,
        vec![UnitStatus::Failed(LintError::Invocation), UnitStatus::Ran]
    );
    assert_eq!(msgs.len(), 1);
    assert_eq!(msgs[0].message, "style problem");

    // a unit whose pattern does not compile fails with a config error
    let dm2 = get_changed_lines("@@ -1,1 +1,2 @@\n keep\n+let x = 1;\n", "/p/a.rs").unwrap();
    let outs2 = vec![Some("anything".to_string()), Some("/p/a.rs:2: style problem\n".to_string())];
    let (msgs2, statuses2) = run_units(&pairs, &outs2, &linters, &vec![dm2]);
    assert_eq!(
        statuses2,
        vec![UnitStatus::Failed(LintError::Config), UnitStatus::Ran]
    );
    assert_eq!(msgs2.len(), 1);
}

#[test]
fn every_occurrence_of_the_placeholder_is_substituted() {
    assert_eq!(render_arg("{file}", "/p/a.rs"), "/p/a.rs");
    assert_eq!(render_arg("--path={file}", "/p/a.rs"), "--path=/p/a.rs");
    assert_eq!(render_arg("{file}:{file}", "a"), "a:a");
    assert_eq!(render_arg("no placeholder", "a"), "no placeholder");
    assert_eq!(render_arg("{file", "a"), "{file");
    assert_eq!(render_arg("{{file}}", "a"), "{a}");
    let rendered = render_args(
        &vec!["check".to_string(), "{file}".to_string()],
        "/p/a.rs",
    );
    assert_eq!(rendered, vec!["check".to_string(), "/p/a.rs".to_string()]);
}

#[test]
fn stdout_wins_when_non_empty_else_stderr_and_bad_bytes_are_a_parse_error() {
    let out = choose_output(b"from stdout".to_vec(), b"from stderr".to_vec()).unwrap();
    assert_eq!(out, "from stdout");
    let out = choose_output(Vec::new(), b"from stderr".to_vec()).unwrap();
    assert_eq!(out, "from stderr");
    let err = choose_output(vec![0xff, 0xfe], Vec::new()).unwrap_err();
    assert_eq!(err, LintError::Parse);
    let err = choose_output(Vec::new(), vec![0xff]).unwrap_err();
    assert_eq!(err, LintError::Parse);
}
