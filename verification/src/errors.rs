//! The error taxonomy of the library.
//!
//! Every failure a run can meet is scoped: a bad linter configuration is
//! found once, before any file is processed; everything else is confined
//! to one file or one (file, linter) unit and never aborts the rest.

use vstd::prelude::*;

verus! {

/// What went wrong in one unit of work.
///
/// - `IO`: an underlying read of a file or stream failed.
/// - `Parse`: diff text for a file failed hunk-number parsing, or a
///   tool's output was not valid text.
/// - `Config`: a linter's regular expression does not compile, or lacks
///   a mandatory named capture group.
/// - `Invocation`: a configured command could not be spawned at all.
#[derive(Debug, Clone, Copy, PartialEq, Eq, Structural)]
pub enum LintError {
    IO,
    Parse,
    Config,
    Invocation,
}

impl LintError {
    /// A short human-readable description of the error.
    pub fn message(&self) -> (r: String)
        ensures
            r@ == self.spec_message(),
    {
        proof {
            reveal_strlit("IO error");
            reveal_strlit("Parsing error");
            reveal_strlit("Configuration error");
            reveal_strlit("Invocation error");
        }
        match self {
            LintError::IO => String::from_str("IO error"),
            LintError::Parse => String::from_str("Parsing error"),
            LintError::Config => String::from_str("Configuration error"),
            LintError::Invocation => String::from_str("Invocation error"),
        }
    }

    /// The description each variant carries.
    pub open spec fn spec_message(&self) -> Seq<char> {
        match self {
            LintError::IO => "IO error"@,
            LintError::Parse => "Parsing error"@,
            LintError::Config => "Configuration error"@,
            LintError::Invocation => "Invocation error"@,
        }
    }
}

} // verus!
