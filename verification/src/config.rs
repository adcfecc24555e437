//! Linter configurations.
//!
//! One `LinterConfig` describes how one external lint tool is run and
//! read: its command, its argument templates with the `{file}`
//! placeholder, the regular expression that picks violations out of its
//! output, and the file extensions it applies to.  Configurations are
//! loaded once per run and read-only afterwards.

use crate::errors::LintError;
use crate::rx::group_names_of;
use crate::rx::regex_compiles;
use crate::rx::regex_group_names;
use vstd::prelude::*;
use vstd::string::*;

verus! {

/// How one lint tool is run and read.
#[derive(Debug, PartialEq, Eq)]
pub struct LinterConfig {
    /// Unique name of the linter.
    pub name: String,
    /// Executable name or path.
    pub cmd: String,
    /// Argument templates; each occurrence of `{file}` stands for the
    /// path of the file being linted.
    pub args: Vec<String>,
    /// Pattern with named capture groups `line` and `message`, and
    /// optionally `file`, matched against the tool's output.
    pub regex: String,
    /// File extensions, without the leading dot, the linter applies to.
    pub ext: Vec<String>,
}

/// The mathematical content of a `LinterConfig`.
pub struct LinterConfigView {
    pub name: Seq<char>,
    pub cmd: Seq<char>,
    pub args: Seq<Seq<char>>,
    pub regex: Seq<char>,
    pub ext: Seq<Seq<char>>,
}

impl View for LinterConfig {
    type V = LinterConfigView;

    open spec fn view(&self) -> LinterConfigView {
        LinterConfigView {
            name: self.name@,
            cmd: self.cmd@,
            args: self.args.deep_view(),
            regex: self.regex@,
            ext: self.ext.deep_view(),
        }
    }
}

impl DeepView for LinterConfig {
    type V = LinterConfigView;

    open spec fn deep_view(&self) -> LinterConfigView {
        self.view()
    }
}

impl Clone for LinterConfig {
    /// A configuration with the same content.
    fn clone(&self) -> (r: Self)
        ensures
            r@ == self@,
    {
        let r = LinterConfig {
            name: self.name.clone(),
            cmd: self.cmd.clone(),
            args: self.args.clone(),
            regex: self.regex.clone(),
            ext: self.ext.clone(),
        };
        proof {
            assert forall|i: int| 0 <= i < self.args@.len() implies r.args.deep_view()[i]
                == self.args.deep_view()[i] by {
                assert(cloned::<String>(self.args[i], r.args[i]));
            }
            assert(r.args.deep_view() =~= self.args.deep_view());
            assert forall|i: int| 0 <= i < self.ext@.len() implies r.ext.deep_view()[i]
                == self.ext.deep_view()[i] by {
                assert(cloned::<String>(self.ext[i], r.ext[i]));
            }
            assert(r.ext.deep_view() =~= self.ext.deep_view());
        }
        r
    }
}

/// A configuration is well-formed when its pattern compiles and names
/// the two capture groups every match must offer.
pub open spec fn spec_config_valid(c: LinterConfigView) -> bool {
    &&& regex_compiles(c.regex)
    &&& group_names_of(c.regex).contains(Some("line"@))
    &&& group_names_of(c.regex).contains(Some("message"@))
}

/// Is `name` among the capture-group names?
fn names_contain(names: &Vec<Option<String>>, name: &String) -> (b: bool)
    ensures
        b == names.deep_view().contains(Some(name@)),
{
    let mut i: usize = 0;
    while i < names.len()
        invariant
            i <= names@.len(),
            forall|j: int| 0 <= j < i ==> names.deep_view()[j] != Some(name@),
        decreases names@.len() - i,
    {
        match &names[i] {
            Some(n) => {
                if n.eq(name) {
                    assert(names.deep_view()[i as int] == Some(name@));
                    return true;
                }
            },
            None => {},
        }
        i = i + 1;
    }
    assert(forall|j: int| 0 <= j < names.deep_view().len() ==> names.deep_view()[j] != Some(
        name@,
    ));
    false
}

/// Check a configuration before any file is processed: its pattern must
/// compile and must define the named groups `line` and `message`.
pub fn validate_config(c: &LinterConfig) -> (r: Result<(), LintError>)
    ensures
        r is Ok <==> spec_config_valid(c@),
        r is Err ==> r.unwrap_err() == LintError::Config,
{
    match regex_group_names(c.regex.as_str()) {
        Some(names) => {
            let line_group = String::from_str("line");
            let message_group = String::from_str("message");
            if names_contain(&names, &line_group) && names_contain(&names, &message_group) {
                Ok(())
            } else {
                Err(LintError::Config)
            }
        },
        None => Err(LintError::Config),
    }
}

/// Check a whole set of configurations, as a run does once at startup.
pub fn validate_configs(cs: &Vec<LinterConfig>) -> (r: Result<(), LintError>)
    ensures
        r is Ok <==> (forall|i: int| 0 <= i < cs@.len() ==> spec_config_valid(#[trigger] cs@[i]@)),
        r is Err ==> r.unwrap_err() == LintError::Config,
{
    let mut i: usize = 0;
    while i < cs.len()
        invariant
            i <= cs@.len(),
            forall|j: int| 0 <= j < i ==> spec_config_valid(#[trigger] cs@[j]@),
        decreases cs@.len() - i,
    {
        match validate_config(&cs[i]) {
            Ok(()) => {},
            Err(e) => {
                return Err(e);
            },
        }
        i = i + 1;
    }
    Ok(())
}

} // verus!
