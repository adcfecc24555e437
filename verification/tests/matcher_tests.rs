use lint_emit::chars::parse_u32;
use lint_emit::config::validate_config;
use lint_emit::config::validate_configs;
use lint_emit::correlate::get_lint_message;
use lint_emit::get_changed_lines;
use lint_emit::get_lint_messages;
use lint_emit::matcher::run_pipeline;
use lint_emit::LintError;
use lint_emit::LinterConfig;

fn eslint_like() -> LinterConfig {
    LinterConfig {
        name: "eslint".to_string(),
        cmd: "eslint".to_string(),
        args: vec!["{file}".to_string(), "-f=compact".to_string()],
        regex: r"(?P<file>.*): line (?P<line>\d*), col \d*, (?P<message>.*)".to_string(),
        ext: vec!["js".to_string(), "jsx".to_string()],
    }
}

#[test]
fn candidate_on_changed_line_of_same_file_is_accepted_with_recorded_source() {
    let diff = "@@ -10,4 +20,5 @@\n a\n b\n+first added\n+changed text from the diff\n";
    let dm = get_changed_lines(diff, "/p/f.js").unwrap();
    // the diff records lines 22 and 23; 23 carries the text below
    let cand = (
        Some("/p/f.js".to_string()),
        Some("23".to_string()),
        Some("m".to_string()),
    );
    let msg = get_lint_message(&"eslint".to_string(), &cand, &dm).unwrap();
    assert_eq!(msg.linter, "eslint");
    assert_eq!(msg.file, "/p/f.js");
    assert_eq!(msg.line, 23);
    // the source comes from the change set, never from the tool's echo
    assert_eq!(msg.source, "changed text from the diff");
    assert_eq!(msg.message, "m");
}

#[test]
fn candidate_on_unchanged_line_is_rejected() {
    let diff = "@@ -10,4 +20,5 @@\n a\n b\n+first added\n+changed text from the diff\n";
    let dm = get_changed_lines(diff, "/p/f.js").unwrap();
    let cand = (
        Some("/p/f.js".to_string()),
        Some("24".to_string()),
        Some("m".to_string()),
    );
    assert!(get_lint_message(&"eslint".to_string(), &cand, &dm).is_none());
}

#[test]
fn candidate_naming_another_file_is_rejected_regardless_of_line() {
    let diff = "@@ -10,4 +20,5 @@\n a\n b\n+first added\n+changed text from the diff\n";
    let dm = get_changed_lines(diff, "/p/f.js").unwrap();
    let cand = (
        Some("/p/g.js".to_string()),
        Some("23".to_string()),
        Some("m".to_string()),
    );
    assert!(get_lint_message(&"eslint".to_string(), &cand, &dm).is_none());
}

#[test]
fn candidate_without_file_group_defaults_to_the_targeted_file() {
    let diff = "@@ -1,1 +1,1 @@\n+x\n";
    let dm = get_changed_lines(diff, "/p/f.js").unwrap();
    let cand = (None, Some("1".to_string()), Some("m".to_string()));
    let msg = get_lint_message(&"eslint".to_string(), &cand, &dm).unwrap();
    assert_eq!(msg.file, "/p/f.js");
}

#[test]
fn candidate_missing_line_or_message_is_silently_discarded() {
    let diff = "@@ -1,1 +1,1 @@\n+x\n";
    let dm = get_changed_lines(diff, "/p/f.js").unwrap();
    let no_line = (None, None, Some("m".to_string()));
    assert!(get_lint_message(&"eslint".to_string(), &no_line, &dm).is_none());
    let no_message = (None, Some("1".to_string()), None);
    assert!(get_lint_message(&"eslint".to_string(), &no_message, &dm).is_none());
    let unreadable_line = (None, Some("one".to_string()), Some("m".to_string()));
    assert!(get_lint_message(&"eslint".to_string(), &unreadable_line, &dm).is_none());
}

#[test]
fn messages_are_extracted_from_raw_output_and_filtered_to_changed_lines() {
    let diff = "@@ -1,2 +1,3 @@\n keep\n+var x = 1\n+var y = 2\n";
    let dm = get_changed_lines(diff, "/p/f.js").unwrap();
    let linters = vec![eslint_like()];
    let output = "/p/f.js: line 1, col 1, pre-existing problem\n\
                  /p/f.js: line 2, col 5, missing semicolon\n\
                  banner text that matches nothing\n\
                  /p/f.js: line 3, col 5, unused variable\n"
        .to_string();
    let msgs = get_lint_messages(&linters, &vec![output], &dm).unwrap();
    // line 1 was only context: its violation is suppressed
    assert_eq!(msgs.len(), 2);
    assert_eq!(msgs[0].line, 2);
    assert_eq!(msgs[0].message, "missing semicolon");
    assert_eq!(msgs[0].source, "var x = 1");
    assert_eq!(msgs[1].line, 3);
    assert_eq!(msgs[1].message, "unused variable");
    assert_eq!(msgs[1].source, "var y = 2");
}

#[test]
fn non_compiling_pattern_is_a_config_error() {
    let diff = "@@ -1,1 +1,1 @@\n+x\n";
    let dm = get_changed_lines(diff, "/p/f.js").unwrap();
    let mut bad = eslint_like();
    bad.regex = "(".to_string();
    let err = get_lint_messages(&vec![bad], &vec![String::new()], &dm).unwrap_err();
    assert_eq!(err, LintError::Config);
}

#[test]
fn validation_checks_compilation_and_mandatory_groups() {
    assert!(validate_config(&eslint_like()).is_ok());

    let mut no_groups = eslint_like();
    no_groups.regex = r"error: .*".to_string();
    assert_eq!(validate_config(&no_groups).unwrap_err(), LintError::Config);

    let mut only_line = eslint_like();
    only_line.regex = r"(?P<line>\d+)".to_string();
    assert_eq!(validate_config(&only_line).unwrap_err(), LintError::Config);

    let mut broken = eslint_like();
    broken.regex = "(".to_string();
    assert_eq!(validate_config(&broken).unwrap_err(), LintError::Config);

    assert!(validate_configs(&vec![eslint_like(), eslint_like()]).is_ok());
    assert_eq!(
        validate_configs(&vec![eslint_like(), broken]).unwrap_err(),
        LintError::Config
    );
}

#[test]
fn pipeline_is_idempotent_on_identical_inputs() {
    let diff = "@@ -1,2 +1,3 @@\n keep\n+var x = 1\n+var y = 2\n";
    let linters = vec![eslint_like()];
    let outputs = vec![
        "/p/f.js: line 2, col 5, missing semicolon\n/p/f.js: line 3, col 1, unused variable\n"
            .to_string(),
    ];
    let first = run_pipeline(diff, "/p/f.js", &linters, &outputs).unwrap();
    let second = run_pipeline(diff, "/p/f.js", &linters, &outputs).unwrap();
    assert_eq!(first, second);
    assert_eq!(first.len(), 2);
}

#[test]
fn line_numbers_parse_as_decimal_with_one_optional_plus() {
    assert_eq!(parse_u32("0"), Some(0));
    assert_eq!(parse_u32("23"), Some(23));
    assert_eq!(parse_u32("+7"), Some(7));
    assert_eq!(parse_u32("007"), Some(7));
    assert_eq!(parse_u32("4294967295"), Some(u32::MAX));
    assert_eq!(parse_u32("4294967296"), None);
    assert_eq!(parse_u32(""), None);
    assert_eq!(parse_u32("+"), None);
    assert_eq!(parse_u32("-1"), None);
    assert_eq!(parse_u32("1a"), None);
}
