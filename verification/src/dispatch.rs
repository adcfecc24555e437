//! The dispatcher.
//!
//! A run has a set of changed files and a set of linter configurations.
//! Each file is bucketed by its extension; the linters whose extension
//! lists contain it apply; each (file, linter) pair is one independent
//! unit of work.  The plan of those units, and the aggregation of their
//! outcomes into one message list, are computed and verified here; the
//! runner outside the library only executes the units.

use crate::config::LinterConfig;
use crate::config::LinterConfigView;
use crate::correlate::LintMessage;
use crate::correlate::LintMessageView;
use crate::diff::DiffMeta;
use crate::diff::DiffMetaView;
use crate::errors::LintError;
use crate::matcher::get_lint_messages_one;
use crate::matcher::lemma_collect_fields;
use crate::matcher::spec_messages_for;
use crate::rx::regex_compiles;
use vstd::prelude::*;
use vstd::string::*;

verus! {

/// Index of the first character of the last `/`-separated component.
pub open spec fn comp_start(path: Seq<char>) -> nat
    decreases path.len(),
{
    if path.len() == 0 {
        0
    } else if path.last() == '/' {
        path.len() as nat
    } else {
        comp_start(path.drop_last())
    }
}

/// Position of the last dot of a path component, if it has one.
pub open spec fn last_dot(comp: Seq<char>) -> Option<nat>
    decreases comp.len(),
{
    if comp.len() == 0 {
        None
    } else if comp.last() == '.' {
        Some((comp.len() - 1) as nat)
    } else {
        last_dot(comp.drop_last())
    }
}

/// The extension a file is bucketed by: what follows the last dot of the
/// path's last component — none when that component has no dot, or only
/// its leading hidden-file dot.
pub open spec fn spec_extension(path: Seq<char>) -> Option<Seq<char>> {
    let comp = path.skip(comp_start(path) as int);
    match last_dot(comp) {
        None => None,
        Some(d) => if d == 0 {
            None
        } else {
            Some(comp.skip(d as int + 1))
        },
    }
}

/// Find the start of the last path component, scanning from the end.
#[verifier::loop_isolation(false)]
fn find_comp_start(path: &str) -> (start: usize)
    ensures
        start == comp_start(path@),
        start <= path@.len(),
{
    let n = path.unicode_len();
    let mut k: usize = n;
    proof {
        assert(path@.take(n as int) =~= path@);
    }
    while k > 0
        invariant
            k <= n,
            comp_start(path@) == comp_start(path@.take(k as int)),
        decreases k,
    {
        let c = path.get_char(k - 1);
        let ghost pre = path@.take(k as int);
        proof {
            assert(pre.last() == path@[k - 1]);
            assert(pre.drop_last() =~= path@.take(k as int - 1));
        }
        if c == '/' {
            return k;
        }
        k = k - 1;
    }
    proof {
        assert(comp_start(path@.take(0)) == 0);
    }
    0
}

/// The file's extension, if it has a recognizable one.
#[verifier::loop_isolation(false)]
pub fn extension(path: &str) -> (r: Option<String>)
    ensures
        r.deep_view() == spec_extension(path@),
{
    let n = path.unicode_len();
    let start = find_comp_start(path);
    let ghost comp = path@.skip(comp_start(path@) as int);
    proof {
        assert(comp =~= path@.subrange(start as int, n as int));
        assert(comp.take(comp.len() as int) =~= comp);
    }
    let mut j: usize = n;
    while j > start
        invariant
            start <= j <= n,
            last_dot(comp) == last_dot(comp.take(j as int - start)),
        decreases j,
    {
        let c = path.get_char(j - 1);
        let ghost pre = comp.take(j as int - start);
        proof {
            assert(pre.last() == path@[j - 1]);
            assert(pre.drop_last() =~= comp.take(j as int - 1 - start));
        }
        if c == '.' {
            proof {
                assert(last_dot(comp) == Some((j - 1 - start) as nat));
            }
            if j - 1 == start {
                return None;
            }
            let piece = path.substring_char(j, n);
            let ext = piece.to_owned();
            proof {
                assert(comp.skip(j as int - start) =~= path@.subrange(j as int, n as int));
            }
            return Some(ext);
        }
        j = j - 1;
    }
    proof {
        assert(comp.take(0) =~= Seq::<char>::empty());
        assert(last_dot(comp) is None);
    }
    None
}

/// Is `e` among the strings of `list`?
fn ext_list_contains(list: &Vec<String>, e: &String) -> (b: bool)
    ensures
        b == list.deep_view().contains(e@),
{
    let mut i: usize = 0;
    while i < list.len()
        invariant
            i <= list@.len(),
            forall|j: int| 0 <= j < i ==> list.deep_view()[j] != e@,
        decreases list@.len() - i,
    {
        if list[i].eq(e) {
            assert(list.deep_view()[i as int] == e@);
            return true;
        }
        i = i + 1;
    }
    assert(forall|j: int| 0 <= j < list.deep_view().len() ==> list.deep_view()[j] != e@);
    false
}

/// Does the linter apply to the file: does the file have an extension
/// and does the linter's extension list contain it?
pub open spec fn spec_applies(linter: LinterConfigView, path: Seq<char>) -> bool {
    match spec_extension(path) {
        Some(e) => linter.ext.contains(e),
        None => false,
    }
}

/// The linters that apply to files with extension `ext`, in their
/// configured order.
pub open spec fn spec_valid_linters(
    linters: Seq<LinterConfigView>,
    ext: Seq<char>,
) -> Seq<LinterConfigView>
    decreases linters.len(),
{
    if linters.len() == 0 {
        Seq::empty()
    } else {
        let rest = spec_valid_linters(linters.drop_first(), ext);
        if linters[0].ext.contains(ext) {
            seq![linters[0]] + rest
        } else {
            rest
        }
    }
}

/// Select the linters whose extension lists contain `ext`.
#[verifier::loop_isolation(false)]
pub fn get_valid_linters(ext: &String, linters: &Vec<LinterConfig>) -> (r: Vec<LinterConfig>)
    ensures
        r.deep_view() == spec_valid_linters(linters.deep_view(), ext@),
{
    let ghost lv = linters.deep_view();
    let mut r: Vec<LinterConfig> = Vec::new();
    proof {
        assert(lv.skip(0) =~= lv);
        assert(r.deep_view() =~= Seq::<LinterConfigView>::empty());
    }
    let mut i: usize = 0;
    while i < linters.len()
        invariant
            i <= lv.len(),
            spec_valid_linters(lv, ext@) == r.deep_view() + spec_valid_linters(
                lv.skip(i as int),
                ext@,
            ),
        decreases lv.len() - i,
    {
        proof {
            assert(lv.skip(i as int)[0] == lv[i as int]);
            assert(lv.skip(i as int).drop_first() =~= lv.skip(i as int + 1));
        }
        if ext_list_contains(&linters[i].ext, ext) {
            let ghost before = r.deep_view();
            r.push(linters[i].clone());
            proof {
                assert(r.deep_view() =~= before + seq![lv[i as int]]);
            }
        }
        i = i + 1;
    }
    proof {
        assert(lv.skip(i as int) =~= Seq::<LinterConfigView>::empty());
    }
    r
}

/// No configured linter applies to the file: its bucket is skipped.
pub open spec fn spec_file_skipped(linters: Seq<LinterConfigView>, path: Seq<char>) -> bool {
    forall|li: int| 0 <= li < linters.len() ==> !spec_applies(#[trigger] linters[li], path)
}

/// Plan a run: one unit of work for every pair of a file and a linter
/// that applies to it, in file order then linter order, together with
/// the files no linter applies to — those are skipped, and reported,
/// not failed.
#[verifier::loop_isolation(false)]
pub fn plan_units(files: &Vec<String>, linters: &Vec<LinterConfig>) -> (r: (
    Vec<(usize, usize)>,
    Vec<usize>,
))
    ensures
        forall|k: int|
            0 <= k < r.0@.len() ==> (#[trigger] r.0@[k]).0 < files@.len() && r.0@[k].1
                < linters@.len() && spec_applies(
                linters@[r.0@[k].1 as int]@,
                files@[r.0@[k].0 as int]@,
            ),
        forall|fi: int, li: int|
            0 <= fi < files@.len() && 0 <= li < linters@.len() && spec_applies(
                #[trigger] linters@[li]@,
                #[trigger] files@[fi]@,
            ) ==> r.0@.contains((fi as usize, li as usize)),
        forall|k1: int, k2: int|
            0 <= k1 < k2 < r.0@.len() ==> ((#[trigger] r.0@[k1]).0 < (#[trigger] r.0@[k2]).0 || (
            r.0@[k1].0 == r.0@[k2].0 && r.0@[k1].1 < r.0@[k2].1)),
        forall|k: int|
            0 <= k < r.1@.len() ==> (#[trigger] r.1@[k]) < files@.len() && spec_file_skipped(
                linters.deep_view(),
                files@[r.1@[k] as int]@,
            ),
        forall|fi: int|
            0 <= fi < files@.len() && spec_file_skipped(linters.deep_view(), #[trigger] files@[fi]@)
                ==> r.1@.contains(fi as usize),
        forall|k1: int, k2: int| 0 <= k1 < k2 < r.1@.len() ==> r.1@[k1] < r.1@[k2],
{
    let mut pairs: Vec<(usize, usize)> = Vec::new();
    let mut skipped: Vec<usize> = Vec::new();
    let mut fi: usize = 0;
    while fi < files.len()
        invariant
            fi <= files@.len(),
            forall|k: int|
                0 <= k < pairs@.len() ==> (#[trigger] pairs@[k]).0 < fi && pairs@[k].1
                    < linters@.len() && spec_applies(
                    linters@[pairs@[k].1 as int]@,
                    files@[pairs@[k].0 as int]@,
                ),
            forall|fi2: int, li2: int|
                0 <= fi2 < fi && 0 <= li2 < linters@.len() && spec_applies(
                    #[trigger] linters@[li2]@,
                    #[trigger] files@[fi2]@,
                ) ==> pairs@.contains((fi2 as usize, li2 as usize)),
            forall|k1: int, k2: int|
                0 <= k1 < k2 < pairs@.len() ==> ((#[trigger] pairs@[k1]).0 < (
                #[trigger] pairs@[k2]).0 || (pairs@[k1].0 == pairs@[k2].0 && pairs@[k1].1
                    < pairs@[k2].1)),
            forall|k: int|
                0 <= k < skipped@.len() ==> (#[trigger] skipped@[k]) < fi && spec_file_skipped(
                    linters.deep_view(),
                    files@[skipped@[k] as int]@,
                ),
            forall|fi2: int|
                0 <= fi2 < fi && spec_file_skipped(linters.deep_view(), #[trigger] files@[fi2]@)
                    ==> skipped@.contains(fi2 as usize),
            forall|k1: int, k2: int| 0 <= k1 < k2 < skipped@.len() ==> skipped@[k1] < skipped@[k2],
        decreases files@.len() - fi,
    {
        let ext = extension(files[fi].as_str());
        let mut any: bool = false;
        let mut li: usize = 0;
        while li < linters.len()
            invariant
                li <= linters@.len(),
                any == (exists|li2: int|
                    0 <= li2 < li && spec_applies(#[trigger] linters@[li2]@, files@[fi as int]@)),
                forall|k: int|
                    0 <= k < pairs@.len() ==> ((#[trigger] pairs@[k]).0 < fi || (pairs@[k].0 == fi
                        && pairs@[k].1 < li)),
                forall|k: int|
                    0 <= k < pairs@.len() ==> (#[trigger] pairs@[k]).0 < files@.len() && pairs@[k].1
                        < linters@.len() && spec_applies(
                        linters@[pairs@[k].1 as int]@,
                        files@[pairs@[k].0 as int]@,
                    ),
                forall|fi2: int, li2: int|
                    0 <= fi2 < fi && 0 <= li2 < linters@.len() && spec_applies(
                        #[trigger] linters@[li2]@,
                        #[trigger] files@[fi2]@,
                    ) ==> pairs@.contains((fi2 as usize, li2 as usize)),
                forall|li2: int|
                    0 <= li2 < li && spec_applies(linters@[li2]@, files@[fi as int]@)
                        ==> pairs@.contains((fi, li2 as usize)),
                forall|k1: int, k2: int|
                    0 <= k1 < k2 < pairs@.len() ==> ((#[trigger] pairs@[k1]).0 < (
                    #[trigger] pairs@[k2]).0 || (pairs@[k1].0 == pairs@[k2].0 && pairs@[k1].1
                        < pairs@[k2].1)),
            decreases linters@.len() - li,
        {
            let applies = match &ext {
                Some(e) => ext_list_contains(&linters[li].ext, e),
                None => false,
            };
            assert(applies == spec_applies(linters@[li as int]@, files@[fi as int]@));
            if applies {
                let ghost old_pairs = pairs@;
                pairs.push((fi, li));
                any = true;
                proof {
                    assert(pairs@ == old_pairs.push((fi, li)));
                    assert forall|p: (usize, usize)| old_pairs.contains(p) implies pairs@.contains(
                        p,
                    ) by {
                        let idx = choose|idx: int|
                            0 <= idx < old_pairs.len() && old_pairs[idx] == p;
                        assert(pairs@[idx] == p);
                    }
                    assert(pairs@[pairs@.len() - 1] == (fi, li));
                }
            }
            li = li + 1;
        }
        proof {
            if !any {
                assert forall|li2: int|
                    0 <= li2 < linters.deep_view().len() implies !spec_applies(
                    #[trigger] linters.deep_view()[li2],
                    files@[fi as int]@,
                ) by {
                    assert(linters.deep_view()[li2] == linters@[li2]@);
                }
                assert(spec_file_skipped(linters.deep_view(), files@[fi as int]@));
            } else {
                let li2 = choose|li2: int|
                    0 <= li2 < linters@.len() && spec_applies(linters@[li2]@, files@[fi as int]@);
                assert(linters.deep_view()[li2] == linters@[li2]@);
                assert(!spec_file_skipped(linters.deep_view(), files@[fi as int]@));
            }
        }
        if !any {
            let ghost old_skipped = skipped@;
            skipped.push(fi);
            proof {
                assert forall|f: usize| old_skipped.contains(f) implies skipped@.contains(f) by {
                    let idx = choose|idx: int|
                        0 <= idx < old_skipped.len() && old_skipped[idx] == f;
                    assert(skipped@[idx] == f);
                }
                assert(skipped@[skipped@.len() - 1] == fi);
            }
        }
        proof {
            assert forall|fi2: int, li2: int|
                0 <= fi2 < fi + 1 && 0 <= li2 < linters@.len() && spec_applies(
                    #[trigger] linters@[li2]@,
                    #[trigger] files@[fi2]@,
                ) implies pairs@.contains((fi2 as usize, li2 as usize)) by {
                if fi2 == fi {
                    assert(pairs@.contains((fi as usize, li2 as usize)));
                }
            }
        }
        fi = fi + 1;
    }
    (pairs, skipped)
}

/// How one unit of work ended: it ran and its messages were collected,
/// or it failed — scoped to the unit, never fatal to the run.
#[derive(Debug, Clone, Copy, PartialEq, Eq, Structural)]
pub enum UnitStatus {
    Ran,
    Failed(LintError),
}

/// A unit's status: a failed invocation when the runner brought no
/// output, a configuration failure when the linter's pattern does not
/// compile, a clean run otherwise.
pub open spec fn spec_unit_status(linter: LinterConfigView, out: Option<Seq<char>>) -> UnitStatus {
    match out {
        None => UnitStatus::Failed(LintError::Invocation),
        Some(_) => if regex_compiles(linter.regex) {
            UnitStatus::Ran
        } else {
            UnitStatus::Failed(LintError::Config)
        },
    }
}

/// What one unit contributes to the aggregate: the correlated messages
/// of its linter's output, or nothing when it failed.
pub open spec fn spec_unit_messages(
    linter: LinterConfigView,
    dm: DiffMetaView,
    out: Option<Seq<char>>,
) -> Seq<LintMessageView> {
    match out {
        None => Seq::empty(),
        Some(text) => if regex_compiles(linter.regex) {
            spec_messages_for(linter, text, dm)
        } else {
            Seq::empty()
        },
    }
}

/// The aggregate of a run: every unit's messages, in plan order.
pub open spec fn spec_aggregate(
    pairs: Seq<(usize, usize)>,
    outs: Seq<Option<Seq<char>>>,
    linters: Seq<LinterConfigView>,
    dms: Seq<DiffMetaView>,
) -> Seq<LintMessageView>
    decreases pairs.len(),
{
    if pairs.len() == 0 {
        Seq::empty()
    } else {
        spec_unit_messages(linters[pairs[0].1 as int], dms[pairs[0].0 as int], outs[0])
            + spec_aggregate(pairs.drop_first(), outs.drop_first(), linters, dms)
    }
}

/// Correlate every unit's outcome and aggregate the accepted messages.
///
/// `outs[k]` is the decoded output of unit `pairs[k]`, or nothing when
/// its command could not be run or left unreadable bytes.  Each unit is
/// independent: one that failed contributes no messages and is reported
/// failed in its status, and the rest of the run goes on.
#[verifier::loop_isolation(false)]
pub fn run_units(
    pairs: &Vec<(usize, usize)>,
    outs: &Vec<Option<String>>,
    linters: &Vec<LinterConfig>,
    diff_metas: &Vec<DiffMeta>,
) -> (r: (Vec<LintMessage>, Vec<UnitStatus>))
    requires
        outs@.len() == pairs@.len(),
        forall|k: int|
            0 <= k < pairs@.len() ==> (#[trigger] pairs@[k]).0 < diff_metas@.len() && pairs@[k].1
                < linters@.len(),
    ensures
        r.0.deep_view() == spec_aggregate(
            pairs@,
            outs.deep_view(),
            linters.deep_view(),
            diff_metas.deep_view(),
        ),
        r.1@.len() == pairs@.len(),
        forall|k: int|
            0 <= k < pairs@.len() ==> r.1@[k] == spec_unit_status(
                linters.deep_view()[(#[trigger] pairs@[k]).1 as int],
                outs.deep_view()[k],
            ),
{
    let ghost lv = linters.deep_view();
    let ghost dv = diff_metas.deep_view();
    let ghost ov = outs.deep_view();
    let mut acc: Vec<LintMessage> = Vec::new();
    let mut statuses: Vec<UnitStatus> = Vec::new();
    proof {
        assert(pairs@.skip(0) =~= pairs@);
        assert(ov.skip(0) =~= ov);
        assert(acc.deep_view() =~= Seq::<LintMessageView>::empty());
    }
    let mut k: usize = 0;
    while k < pairs.len()
        invariant
            k <= pairs@.len(),
            statuses@.len() == k,
            forall|j: int|
                0 <= j < k ==> statuses@[j] == spec_unit_status(
                    lv[(#[trigger] pairs@[j]).1 as int],
                    ov[j],
                ),
            spec_aggregate(pairs@, ov, lv, dv) == acc.deep_view() + spec_aggregate(
                pairs@.skip(k as int),
                ov.skip(k as int),
                lv,
                dv,
            ),
        decreases pairs@.len() - k,
    {
        proof {
            assert(pairs@.skip(k as int)[0] == pairs@[k as int]);
            assert(ov.skip(k as int)[0] == ov[k as int]);
            assert(pairs@.skip(k as int).drop_first() =~= pairs@.skip(k as int + 1));
            assert(ov.skip(k as int).drop_first() =~= ov.skip(k as int + 1));
        }
        let (fi, li) = pairs[k];
        match &outs[k] {
            None => {
                statuses.push(UnitStatus::Failed(LintError::Invocation));
            },
            Some(text) => {
                match get_lint_messages_one(&linters[li], text, &diff_metas[fi]) {
                    Ok(mut msgs) => {
                        let ghost before = acc.deep_view();
                        let ghost added = msgs.deep_view();
                        acc.append(&mut msgs);
                        proof {
                            assert(acc.deep_view() =~= before + added);
                        }
                        statuses.push(UnitStatus::Ran);
                    },
                    Err(_) => {
                        statuses.push(UnitStatus::Failed(LintError::Config));
                    },
                }
            },
        }
        k = k + 1;
    }
    proof {
        assert(pairs@.skip(k as int) =~= Seq::<(usize, usize)>::empty());
    }
    (acc, statuses)
}

/// A file whose extension two configured linters both list is linted by
/// both — the plan's completeness puts one unit in for each — and the
/// aggregate of the two units is the one linter's accepted messages
/// followed by the other's: their union.
pub proof fn lemma_two_linters_union(
    fi: usize,
    l1: usize,
    l2: usize,
    o1: Seq<char>,
    o2: Seq<char>,
    linters: Seq<LinterConfigView>,
    dms: Seq<DiffMetaView>,
)
    requires
        fi < dms.len(),
        l1 < linters.len(),
        l2 < linters.len(),
        regex_compiles(linters[l1 as int].regex),
        regex_compiles(linters[l2 as int].regex),
    ensures
        spec_aggregate(seq![(fi, l1), (fi, l2)], seq![Some(o1), Some(o2)], linters, dms)
            == spec_messages_for(linters[l1 as int], o1, dms[fi as int]) + spec_messages_for(
            linters[l2 as int],
            o2,
            dms[fi as int],
        ),
{
    reveal_with_fuel(spec_aggregate, 3);
    let pairs = seq![(fi, l1), (fi, l2)];
    let outs = seq![Some(o1), Some(o2)];
    assert(pairs[0] == (fi, l1));
    assert(outs[0] == Some(o1));
    assert(pairs.drop_first() =~= seq![(fi, l2)]);
    assert(outs.drop_first() =~= seq![Some(o2)]);
    assert(pairs.drop_first()[0] == (fi, l2));
    assert(outs.drop_first()[0] == Some(o2));
    assert(pairs.drop_first().drop_first() =~= Seq::<(usize, usize)>::empty());
    assert(outs.drop_first().drop_first() =~= Seq::<Option<Seq<char>>>::empty());
    let tail = spec_aggregate(pairs.drop_first(), outs.drop_first(), linters, dms);
    assert(spec_aggregate(
        pairs.drop_first().drop_first(),
        outs.drop_first().drop_first(),
        linters,
        dms,
    ) =~= Seq::<LintMessageView>::empty());
    assert(tail =~= spec_messages_for(linters[l2 as int], o2, dms[fi as int]));
    assert(spec_aggregate(pairs, outs, linters, dms) =~= spec_messages_for(
        linters[l1 as int],
        o1,
        dms[fi as int],
    ) + tail);
}

/// Every aggregated message names the file of some unit of the plan.
pub proof fn lemma_aggregate_files(
    pairs: Seq<(usize, usize)>,
    outs: Seq<Option<Seq<char>>>,
    linters: Seq<LinterConfigView>,
    dms: Seq<DiffMetaView>,
)
    requires
        outs.len() == pairs.len(),
        forall|k: int|
            0 <= k < pairs.len() ==> (#[trigger] pairs[k]).0 < dms.len() && pairs[k].1
                < linters.len(),
    ensures
        forall|m: LintMessageView|
            spec_aggregate(pairs, outs, linters, dms).contains(m) ==> (exists|k: int|
                0 <= k < pairs.len() && m.file == dms[(#[trigger] pairs[k]).0 as int].file),
    decreases pairs.len(),
{
    if pairs.len() == 0 {
    } else {
        let head = spec_unit_messages(linters[pairs[0].1 as int], dms[pairs[0].0 as int], outs[0]);
        let tail = spec_aggregate(pairs.drop_first(), outs.drop_first(), linters, dms);
        lemma_aggregate_files(pairs.drop_first(), outs.drop_first(), linters, dms);
        assert forall|m: LintMessageView|
            spec_aggregate(pairs, outs, linters, dms).contains(m) implies (exists|k: int|
            0 <= k < pairs.len() && m.file == dms[(#[trigger] pairs[k]).0 as int].file) by {
            let idx = choose|idx: int|
                0 <= idx < (head + tail).len() && (head + tail)[idx] == m;
            if idx < head.len() {
                lemma_collect_fields(
                    linters[pairs[0].1 as int].name,
                    crate::rx::captures_of(
                        linters[pairs[0].1 as int].regex,
                        outs[0].unwrap(),
                    ),
                    dms[pairs[0].0 as int],
                );
                assert(m.file == dms[pairs[0].0 as int].file);
                assert(0 <= 0 < pairs.len() && m.file == dms[(pairs[0]).0 as int].file);
            } else {
                assert(tail[idx - head.len()] == m);
                assert(tail.contains(m));
                let k2 = choose|k2: int|
                    0 <= k2 < pairs.drop_first().len() && m.file == dms[(
                    #[trigger] pairs.drop_first()[k2]).0 as int].file;
                assert(pairs[k2 + 1] == pairs.drop_first()[k2]);
                assert(m.file == dms[(pairs[k2 + 1]).0 as int].file);
            }
        }
    }
}

/// A file no linter applies to is linted by nothing: the plan's
/// soundness gives it no unit, and — the run's files being distinct —
/// no aggregated message names it.  Its only trace is the plan's
/// skipped list: a report, not an error.
pub proof fn lemma_skipped_file_silent(
    pairs: Seq<(usize, usize)>,
    outs: Seq<Option<Seq<char>>>,
    linters: Seq<LinterConfigView>,
    dms: Seq<DiffMetaView>,
    fi: usize,
)
    requires
        outs.len() == pairs.len(),
        forall|k: int|
            0 <= k < pairs.len() ==> (#[trigger] pairs[k]).0 < dms.len() && pairs[k].1
                < linters.len(),
        fi < dms.len(),
        forall|k: int| 0 <= k < pairs.len() ==> (#[trigger] pairs[k]).0 != fi,
        forall|j: int|
            0 <= j < dms.len() && j != fi ==> (#[trigger] dms[j]).file != dms[fi as int].file,
    ensures
        forall|m: LintMessageView|
            spec_aggregate(pairs, outs, linters, dms).contains(m) ==> m.file != dms[fi as int].file,
{
    lemma_aggregate_files(pairs, outs, linters, dms);
    assert forall|m: LintMessageView|
        spec_aggregate(pairs, outs, linters, dms).contains(m) implies m.file != dms[fi as int].file by {
        let k = choose|k: int|
            0 <= k < pairs.len() && m.file == dms[(#[trigger] pairs[k]).0 as int].file;
        assert(pairs[k].0 != fi);
    }
}

} // verus!
