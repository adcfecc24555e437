//! The correlation filter.
//!
//! A linter reports violations for a whole file; only those that sit on
//! a line the diff actually added may surface.  A candidate match taken
//! from the tool's output is accepted exactly when its file equals the
//! change set's file and its line number is among the changed lines; the
//! accepted message carries the changed line's own recorded source text,
//! never text the tool echoed.

use crate::chars::spec_parse_u32;
use crate::chars::parse_u32;
use crate::diff::ChangedLine;
use crate::diff::DiffMeta;
use crate::diff::DiffMetaView;
use vstd::prelude::*;

verus! {

/// One accepted violation: one linter, one file, one changed line.
#[derive(Debug, Clone, PartialEq, Eq)]
pub struct LintMessage {
    /// Name of the linter that reported it.
    pub linter: String,
    /// Path of the file it is about.
    pub file: String,
    /// Line number in the post-change file.
    pub line: u32,
    /// The changed line's own source text, as the diff recorded it.
    pub source: String,
    /// The linter's message.
    pub message: String,
}

/// The mathematical content of a `LintMessage`.
pub struct LintMessageView {
    pub linter: Seq<char>,
    pub file: Seq<char>,
    pub line: nat,
    pub source: Seq<char>,
    pub message: Seq<char>,
}

impl View for LintMessage {
    type V = LintMessageView;

    open spec fn view(&self) -> LintMessageView {
        LintMessageView {
            linter: self.linter@,
            file: self.file@,
            line: self.line as nat,
            source: self.source@,
            message: self.message@,
        }
    }
}

impl DeepView for LintMessage {
    type V = LintMessageView;

    open spec fn deep_view(&self) -> LintMessageView {
        self.view()
    }
}

/// What one match of a linter's pattern captured: the optional `file`
/// group and the `line` and `message` groups, where they took part.
pub type CandidateView = (Option<Seq<char>>, Option<Seq<char>>, Option<Seq<char>>);

/// The first changed line numbered `n`, if any.
pub open spec fn find_changed(lines: Seq<ChangedLine>, n: nat) -> Option<ChangedLine>
    decreases lines.len(),
{
    if lines.len() == 0 {
        None
    } else if lines[0].line == n {
        Some(lines[0])
    } else {
        find_changed(lines.drop_first(), n)
    }
}

/// `find_changed` answers exactly when some changed line has the number,
/// and then with the first such line.
pub proof fn lemma_find_changed(lines: Seq<ChangedLine>, n: nat)
    ensures
        (find_changed(lines, n) is Some) <==> (exists|i: int|
            0 <= i < lines.len() && lines[i].line == n),
        find_changed(lines, n) is Some ==> find_changed(lines, n).unwrap().line == n,
        find_changed(lines, n) is Some ==> (exists|i: int|
            0 <= i < lines.len() && lines[i] == find_changed(lines, n).unwrap()),
    decreases lines.len(),
{
    if lines.len() == 0 {
    } else if lines[0].line == n {
    } else {
        lemma_find_changed(lines.drop_first(), n);
        if find_changed(lines, n) is Some {
            let i = choose|i: int|
                0 <= i < lines.drop_first().len() && lines.drop_first()[i]
                    == find_changed(lines.drop_first(), n).unwrap();
            assert(lines[i + 1] == find_changed(lines, n).unwrap());
        }
        if exists|i: int| 0 <= i < lines.len() && lines[i].line == n {
            let i = choose|i: int| 0 <= i < lines.len() && lines[i].line == n;
            assert(i >= 1);
            assert(lines.drop_first()[i - 1].line == n);
        }
    }
}

/// What the correlation filter owes for one candidate against one change
/// set: a message exactly when the candidate has its `message` group, a
/// `line` group that reads as a number, a file equal to the change set's
/// (or none, which stands for the file the run targeted), and a line the
/// change set contains — and then the message carries the changed line's
/// recorded source text.
pub open spec fn spec_lint_message(
    linter: Seq<char>,
    cand: CandidateView,
    dm: DiffMetaView,
) -> Option<LintMessageView> {
    match cand.2 {
        None => None,
        Some(message) => match cand.1 {
            None => None,
            Some(line_text) => match spec_parse_u32(line_text) {
                None => None,
                Some(line) => {
                    let file = match cand.0 {
                        Some(f) => f,
                        None => dm.file,
                    };
                    if file == dm.file {
                        match find_changed(dm.changed_lines, line as nat) {
                            None => None,
                            Some(cl) => Some(
                                LintMessageView {
                                    linter,
                                    file,
                                    line: line as nat,
                                    source: cl.source,
                                    message,
                                },
                            ),
                        }
                    } else {
                        None
                    }
                },
            },
        },
    }
}

/// Correlate one candidate match with the file's change set.
#[verifier::loop_isolation(false)]
pub fn get_lint_message(
    linter: &String,
    cand: &(Option<String>, Option<String>, Option<String>),
    diff_meta: &DiffMeta,
) -> (r: Option<LintMessage>)
    ensures
        r.deep_view() == spec_lint_message(linter@, cand.deep_view(), diff_meta@),
{
    let message = match &cand.2 {
        Some(m) => m,
        None => {
            return None;
        },
    };
    let line_text = match &cand.1 {
        Some(t) => t,
        None => {
            return None;
        },
    };
    let line = match parse_u32(line_text.as_str()) {
        Some(v) => v,
        None => {
            return None;
        },
    };
    let file: &String = match &cand.0 {
        Some(f) => f,
        None => &diff_meta.file,
    };
    if !file.eq(&diff_meta.file) {
        return None;
    }
    let lines = &diff_meta.changed_lines;
    let ghost all = diff_meta@.changed_lines;
    proof {
        assert(all.skip(0) =~= all);
    }
    let mut i: usize = 0;
    while i < lines.len()
        invariant
            i <= lines@.len(),
            all == lines.deep_view(),
            find_changed(all, line as nat) == find_changed(all.skip(i as int), line as nat),
        decreases lines@.len() - i,
    {
        proof {
            assert(all.skip(i as int)[0] == all[i as int]);
            assert(all.skip(i as int).drop_first() =~= all.skip(i as int + 1));
        }
        if lines[i].line == line {
            proof {
                assert(all[i as int] == lines@[i as int].deep_view());
                assert(all[i as int].line == line as nat);
                assert(find_changed(all.skip(i as int), line as nat) == Some(all[i as int]));
            }
            let r = LintMessage {
                linter: linter.clone(),
                file: file.clone(),
                line,
                source: lines[i].source.clone(),
                message: message.clone(),
            };
            return Some(r);
        }
        i = i + 1;
    }
    proof {
        assert(all.skip(i as int) =~= Seq::<ChangedLine>::empty());
    }
    None
}

/// A candidate whose file names the change set's file (or names none)
/// and whose line the change set contains is accepted, and the accepted
/// message's source text is the change set's recorded text for that
/// line — taken from the changed line itself, never from the candidate.
pub proof fn lemma_correlation_accepts(linter: Seq<char>, cand: CandidateView, dm: DiffMetaView)
    requires
        cand.2 is Some,
        cand.1 is Some,
        spec_parse_u32(cand.1.unwrap()) is Some,
        cand.0 is Some ==> cand.0.unwrap() == dm.file,
        find_changed(dm.changed_lines, spec_parse_u32(cand.1.unwrap()).unwrap() as nat) is Some,
    ensures
        spec_lint_message(linter, cand, dm) is Some,
        spec_lint_message(linter, cand, dm).unwrap().source == find_changed(
            dm.changed_lines,
            spec_parse_u32(cand.1.unwrap()).unwrap() as nat,
        ).unwrap().source,
        spec_lint_message(linter, cand, dm).unwrap().message == cand.2.unwrap(),
        spec_lint_message(linter, cand, dm).unwrap().line == spec_parse_u32(
            cand.1.unwrap(),
        ).unwrap() as nat,
{
}

/// A candidate on a line no changed line carries produces nothing.
pub proof fn lemma_correlation_rejects_line(
    linter: Seq<char>,
    cand: CandidateView,
    dm: DiffMetaView,
    n: u32,
)
    requires
        cand.1 is Some,
        spec_parse_u32(cand.1.unwrap()) == Some(n),
        forall|i: int| 0 <= i < dm.changed_lines.len() ==> dm.changed_lines[i].line != n as nat,
    ensures
        spec_lint_message(linter, cand, dm) is None,
{
    lemma_find_changed(dm.changed_lines, n as nat);
}

/// A candidate that names another file produces nothing, wherever its
/// line may sit.
pub proof fn lemma_correlation_rejects_file(linter: Seq<char>, cand: CandidateView, dm: DiffMetaView)
    requires
        cand.0 is Some,
        cand.0.unwrap() != dm.file,
    ensures
        spec_lint_message(linter, cand, dm) is None,
{
}

} // verus!
