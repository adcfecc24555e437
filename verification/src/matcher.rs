//! The output matcher.
//!
//! A linter's raw output is scanned with the linter's own pattern; every
//! non-overlapping match becomes a candidate violation, and each
//! candidate is correlated with the file's change set in order.  The
//! messages of a whole run are a function of the diff text and the tool
//! outputs alone.

use crate::config::LinterConfig;
use crate::config::LinterConfigView;
use crate::correlate::CandidateView;
use crate::correlate::LintMessage;
use crate::correlate::LintMessageView;
use crate::correlate::get_lint_message;
use crate::correlate::spec_lint_message;
use crate::diff::DiffMeta;
use crate::diff::DiffMetaView;
use crate::diff::get_changed_lines;
use crate::diff::spec_changed_lines;
use crate::errors::LintError;
use crate::rx::captures_of;
use crate::rx::regex_captures;
use crate::rx::regex_compiles;
use vstd::prelude::*;

verus! {

/// The messages one linter's candidates yield against one change set:
/// each candidate correlated, in match order.
pub open spec fn spec_collect(
    name: Seq<char>,
    cands: Seq<CandidateView>,
    dm: DiffMetaView,
) -> Seq<LintMessageView>
    decreases cands.len(),
{
    if cands.len() == 0 {
        Seq::empty()
    } else {
        (match spec_lint_message(name, cands[0], dm) {
            Some(m) => seq![m],
            None => Seq::empty(),
        }) + spec_collect(name, cands.drop_first(), dm)
    }
}

/// Correlating one more candidate appends its outcome.
pub proof fn lemma_collect_push(
    name: Seq<char>,
    cands: Seq<CandidateView>,
    c: CandidateView,
    dm: DiffMetaView,
)
    ensures
        spec_collect(name, cands.push(c), dm) == spec_collect(name, cands, dm) + (
        match spec_lint_message(name, c, dm) {
            Some(m) => seq![m],
            None => Seq::<LintMessageView>::empty(),
        }),
    decreases cands.len(),
{
    if cands.len() == 0 {
        assert(cands.push(c)[0] == c);
        assert(cands.push(c).drop_first() =~= cands);
        assert(spec_collect(name, cands, dm) == Seq::<LintMessageView>::empty());
        assert(spec_collect(name, cands.push(c), dm) =~= spec_collect(name, cands, dm) + (
        match spec_lint_message(name, c, dm) {
            Some(m) => seq![m],
            None => Seq::<LintMessageView>::empty(),
        }));
    } else {
        assert(cands.push(c)[0] == cands[0]);
        assert(cands.push(c).drop_first() =~= cands.drop_first().push(c));
        lemma_collect_push(name, cands.drop_first(), c, dm);
        assert(spec_collect(name, cands.push(c), dm) =~= spec_collect(name, cands, dm) + (
        match spec_lint_message(name, c, dm) {
            Some(m) => seq![m],
            None => Seq::<LintMessageView>::empty(),
        }));
    }
}

/// Every collected message carries the change set's file and the name
/// of the linter it came from.
pub proof fn lemma_collect_fields(name: Seq<char>, cands: Seq<CandidateView>, dm: DiffMetaView)
    ensures
        forall|mi: int|
            0 <= mi < spec_collect(name, cands, dm).len() ==> (#[trigger] spec_collect(
                name,
                cands,
                dm,
            )[mi]).file == dm.file && spec_collect(name, cands, dm)[mi].linter == name,
    decreases cands.len(),
{
    if cands.len() == 0 {
    } else {
        lemma_collect_fields(name, cands.drop_first(), dm);
        let head = match spec_lint_message(name, cands[0], dm) {
            Some(m) => seq![m],
            None => Seq::<LintMessageView>::empty(),
        };
        let tail = spec_collect(name, cands.drop_first(), dm);
        assert forall|mi: int|
            0 <= mi < spec_collect(name, cands, dm).len() implies (#[trigger] spec_collect(
            name,
            cands,
            dm,
        )[mi]).file == dm.file && spec_collect(name, cands, dm)[mi].linter == name by {
            if mi < head.len() {
                assert(spec_collect(name, cands, dm)[mi] == head[0]);
            } else {
                assert(spec_collect(name, cands, dm)[mi] == tail[mi - head.len()]);
            }
        }
    }
}

/// The messages one linter owes for one raw output.
pub open spec fn spec_messages_for(
    linter: LinterConfigView,
    output: Seq<char>,
    dm: DiffMetaView,
) -> Seq<LintMessageView> {
    spec_collect(linter.name, captures_of(linter.regex, output), dm)
}

/// The messages a run of several linters owes, in linter order.
pub open spec fn spec_lint_messages(
    linters: Seq<LinterConfigView>,
    outputs: Seq<Seq<char>>,
    dm: DiffMetaView,
) -> Seq<LintMessageView>
    decreases linters.len(),
{
    if linters.len() == 0 {
        Seq::empty()
    } else {
        spec_messages_for(linters[0], outputs[0], dm) + spec_lint_messages(
            linters.drop_first(),
            outputs.drop_first(),
            dm,
        )
    }
}

/// Extract and correlate the violations in one linter's raw output
/// against one file's change set: one unit of the dispatcher's work.
///
/// The call fails, with a configuration error, exactly when the
/// linter's pattern does not compile.
#[verifier::loop_isolation(false)]
pub fn get_lint_messages_one(
    linter: &LinterConfig,
    output: &String,
    diff_meta: &DiffMeta,
) -> (r: Result<Vec<LintMessage>, LintError>)
    ensures
        r is Ok <==> regex_compiles(linter@.regex),
        r is Ok ==> r.unwrap().deep_view() == spec_messages_for(linter@, output@, diff_meta@),
        r is Err ==> r.unwrap_err() == LintError::Config,
{
    let ghost dm = diff_meta@;
    let cands = match regex_captures(linter.regex.as_str(), output.as_str()) {
        Some(c) => c,
        None => {
            return Err(LintError::Config);
        },
    };
    let ghost cv = cands.deep_view();
    let mut acc: Vec<LintMessage> = Vec::new();
    proof {
        assert(cv == captures_of(linter@.regex, output@));
        assert(cv.take(0) =~= Seq::<CandidateView>::empty());
        assert(acc.deep_view() =~= Seq::<LintMessageView>::empty());
    }
    let mut j: usize = 0;
    while j < cands.len()
        invariant
            j <= cv.len(),
            acc.deep_view() == spec_collect(linter@.name, cv.take(j as int), dm),
        decreases cv.len() - j,
    {
        proof {
            assert(cv.take(j as int + 1) =~= cv.take(j as int).push(cv[j as int]));
            lemma_collect_push(linter@.name, cv.take(j as int), cv[j as int], dm);
        }
        match get_lint_message(&linter.name, &cands[j], diff_meta) {
            Some(m) => {
                let ghost before = acc.deep_view();
                acc.push(m);
                proof {
                    assert(acc.deep_view() =~= before.push(m@));
                    assert(before.push(m@) =~= before + seq![m@]);
                }
            },
            None => {},
        }
        j = j + 1;
    }
    proof {
        assert(cv.take(cv.len() as int) =~= cv);
    }
    Ok(acc)
}

/// Extract and correlate the violations in every linter's raw output
/// against one file's change set.
///
/// The outputs sit at the same positions as their linters.  The call
/// fails, with a configuration error, exactly when some linter's
/// pattern does not compile.
#[verifier::loop_isolation(false)]
pub fn get_lint_messages(
    linters: &Vec<LinterConfig>,
    outputs: &Vec<String>,
    diff_meta: &DiffMeta,
) -> (r: Result<Vec<LintMessage>, LintError>)
    requires
        linters@.len() == outputs@.len(),
    ensures
        r is Ok <==> (forall|i: int|
            0 <= i < linters@.len() ==> regex_compiles(#[trigger] linters@[i]@.regex)),
        r is Ok ==> r.unwrap().deep_view() == spec_lint_messages(
            linters.deep_view(),
            outputs.deep_view(),
            diff_meta@,
        ),
        r is Err ==> r.unwrap_err() == LintError::Config,
{
    let ghost lv = linters.deep_view();
    let ghost ov = outputs.deep_view();
    let ghost dm = diff_meta@;
    let mut acc: Vec<LintMessage> = Vec::new();
    proof {
        assert(lv.skip(0) =~= lv);
        assert(ov.skip(0) =~= ov);
        assert(acc.deep_view() =~= Seq::<LintMessageView>::empty());
    }
    let mut i: usize = 0;
    while i < linters.len()
        invariant
            i <= lv.len(),
            forall|j: int| 0 <= j < i ==> regex_compiles(#[trigger] lv[j].regex),
            spec_lint_messages(lv, ov, dm) == acc.deep_view() + spec_lint_messages(
                lv.skip(i as int),
                ov.skip(i as int),
                dm,
            ),
        decreases lv.len() - i,
    {
        proof {
            assert(lv.skip(i as int)[0] == lv[i as int]);
            assert(ov.skip(i as int)[0] == ov[i as int]);
            assert(lv.skip(i as int).drop_first() =~= lv.skip(i as int + 1));
            assert(ov.skip(i as int).drop_first() =~= ov.skip(i as int + 1));
        }
        let linter = &linters[i];
        let mut msgs = match get_lint_messages_one(linter, &outputs[i], diff_meta) {
            Ok(m) => m,
            Err(e) => {
                return Err(e);
            },
        };
        let ghost before = acc.deep_view();
        let ghost added = msgs.deep_view();
        acc.append(&mut msgs);
        proof {
            assert(acc.deep_view() =~= before + added);
        }
        i = i + 1;
    }
    proof {
        assert(lv.skip(i as int) =~= Seq::<LinterConfigView>::empty());
        assert(ov.skip(i as int) =~= Seq::<Seq<char>>::empty());
        assert forall|k: int| 0 <= k < linters@.len() implies regex_compiles(
            #[trigger] linters@[k]@.regex,
        ) by {
            assert(lv[k] == linters@[k]@);
            assert(regex_compiles(lv[k].regex));
        }
    }
    Ok(acc)
}

/// The whole core on plain values: the diff text decides the change
/// set, the tool outputs decide the candidates, correlation decides the
/// messages; nothing else has a say.
pub open spec fn spec_pipeline(
    diff: Seq<char>,
    file: Seq<char>,
    linters: Seq<LinterConfigView>,
    outputs: Seq<Seq<char>>,
) -> Option<Seq<LintMessageView>> {
    match spec_changed_lines(diff) {
        None => None,
        Some(changed) => Some(
            spec_lint_messages(linters, outputs, DiffMetaView { file, changed_lines: changed }),
        ),
    }
}

/// One full run for one file: parse its diff text, then extract and
/// correlate every linter's raw output.
pub fn run_pipeline(
    diff: &str,
    file: &str,
    linters: &Vec<LinterConfig>,
    outputs: &Vec<String>,
) -> (r: Result<Vec<LintMessage>, LintError>)
    requires
        linters@.len() == outputs@.len(),
    ensures
        r is Ok <==> (spec_changed_lines(diff@) is Some && (forall|i: int|
            0 <= i < linters@.len() ==> regex_compiles(#[trigger] linters@[i]@.regex))),
        r is Ok ==> Some(r.unwrap().deep_view()) == spec_pipeline(
            diff@,
            file@,
            linters.deep_view(),
            outputs.deep_view(),
        ),
        r is Err ==> r.unwrap_err() == (if spec_changed_lines(diff@) is None {
            LintError::Parse
        } else {
            LintError::Config
        }),
{
    let diff_meta = match get_changed_lines(diff, file) {
        Ok(dm) => dm,
        Err(e) => {
            return Err(e);
        },
    };
    get_lint_messages(linters, outputs, &diff_meta)
}

/// Running the pipeline twice on identical diff text and identical tool
/// outputs yields identical messages — in particular the same multiset,
/// whatever order a collector later stores them in.
pub proof fn lemma_pipeline_idempotent(
    diff: Seq<char>,
    file: Seq<char>,
    linters: Seq<LinterConfigView>,
    outputs: Seq<Seq<char>>,
    r1: Seq<LintMessageView>,
    r2: Seq<LintMessageView>,
)
    requires
        spec_pipeline(diff, file, linters, outputs) == Some(r1),
        spec_pipeline(diff, file, linters, outputs) == Some(r2),
    ensures
        r1 == r2,
        r1.to_multiset() == r2.to_multiset(),
{
}

} // verus!
