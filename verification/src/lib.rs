//! Lint only what changed.
//!
//! This library is the verified core of a tool that runs external lint
//! programs over a git commit range and reports only the violations that
//! sit on lines the range actually added.  It parses unified-diff text
//! into per-file sets of changed lines, extracts candidate violations
//! from free-form linter output with per-tool regular expressions, keeps
//! exactly the candidates whose file and line fall in the changed set,
//! and plans which linter runs against which file.
//!
//! Everything around this core — running `git` and the linters, prompts,
//! configuration files, terminal rendering — lives outside the library
//! and hands it plain values.

pub mod chars;
pub mod config;
pub mod correlate;
pub mod diff;
pub mod dispatch;
pub mod errors;
pub mod invoke;
pub mod matcher;
pub mod rx;

pub use config::LinterConfig;
pub use correlate::LintMessage;
pub use diff::DiffMeta;
pub use diff::LineMeta;
pub use diff::get_changed_lines;
pub use errors::LintError;
pub use matcher::get_lint_messages;
