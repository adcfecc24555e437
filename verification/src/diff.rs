//! The diff hunk parser.
//!
//! Given the unified-diff text for one file, reconstruct the set of added
//! lines: each with the line number it has in the post-change file and
//! its source text, stripped of the diff markers.  The text is first cut
//! into lines; a single pass then walks them, resetting a line counter at
//! every hunk header, skipping removed lines, counting every other line,
//! and recording the added ones.

use crate::errors::LintError;
use crate::chars::digit_prefix;
use crate::chars::digit_run_value;
use crate::chars::digits_val;
use crate::chars::is_digit;
use crate::chars::lemma_digit_prefix_exact;
use crate::chars::scan_digits;
use vstd::prelude::*;
use vstd::string::*;

verus! {

/// Index of the first newline of `s`, or `s.len()` when there is none.
pub open spec fn first_nl(s: Seq<char>) -> nat
    decreases s.len(),
{
    if s.len() == 0 {
        0
    } else if s[0] == '\n' {
        0
    } else {
        1 + first_nl(s.drop_first())
    }
}

/// `first_nl` points at the first newline: nothing before it is one, and
/// it is a newline itself unless it is the end of the sequence.
pub proof fn lemma_first_nl(s: Seq<char>)
    ensures
        first_nl(s) <= s.len(),
        forall|j: int| 0 <= j < first_nl(s) ==> s[j] != '\n',
        first_nl(s) < s.len() ==> s[first_nl(s) as int] == '\n',
    decreases s.len(),
{
    if s.len() == 0 {
    } else if s[0] == '\n' {
    } else {
        lemma_first_nl(s.drop_first());
        assert forall|j: int| 0 <= j < first_nl(s) implies s[j] != '\n' by {
            if j > 0 {
                assert(s.drop_first()[j - 1] == s[j]);
            }
        }
    }
}

/// Any position with no newline before it and a newline (or the end) at
/// it is exactly `first_nl`.
pub proof fn lemma_first_nl_exact(s: Seq<char>, k: int)
    requires
        0 <= k <= s.len(),
        forall|j: int| 0 <= j < k ==> s[j] != '\n',
        k == s.len() || s[k] == '\n',
    ensures
        first_nl(s) == k,
    decreases s.len(),
{
    if s.len() == 0 {
    } else if s[0] == '\n' {
        assert(k == 0);
    } else {
        assert(k >= 1);
        lemma_first_nl_exact(s.drop_first(), k - 1);
    }
}

/// A line with its trailing carriage return, if any, removed.
pub open spec fn strip_cr(l: Seq<char>) -> Seq<char> {
    if l.len() > 0 && l.last() == '\r' {
        l.drop_last()
    } else {
        l
    }
}

/// The lines of `s`: pieces between newlines, each with one trailing
/// carriage return removed, and no final empty piece when `s` ends with
/// a newline.
pub open spec fn spec_lines(s: Seq<char>) -> Seq<Seq<char>>
    decreases s.len(),
{
    if s.len() == 0 {
        Seq::empty()
    } else {
        let i = first_nl(s) as int;
        if i >= s.len() {
            seq![strip_cr(s)]
        } else {
            seq![strip_cr(s.subrange(0, i))] + spec_lines(s.subrange(i + 1, s.len() as int))
        }
    }
}

/// A piece that ends with its only newline is one line.
pub proof fn lemma_lines_one_terminated(s: Seq<char>)
    requires
        s.len() > 0,
        s.last() == '\n',
        forall|j: int| 0 <= j < s.len() - 1 ==> s[j] != '\n',
    ensures
        spec_lines(s) =~= seq![strip_cr(s.subrange(0, s.len() - 1))],
{
    reveal_with_fuel(spec_lines, 2);
    lemma_first_nl_exact(s, s.len() - 1);
    assert(s.subrange(s.len() as int, s.len() as int).len() == 0);
}

/// A non-empty piece without any newline is one line.
pub proof fn lemma_lines_one_open(s: Seq<char>)
    requires
        s.len() > 0,
        forall|j: int| 0 <= j < s.len() ==> s[j] != '\n',
    ensures
        spec_lines(s) =~= seq![strip_cr(s)],
{
    lemma_first_nl_exact(s, s.len() as int);
}

/// Splitting distributes over concatenation at a newline boundary.
pub proof fn lemma_lines_append(a: Seq<char>, b: Seq<char>)
    requires
        a.len() > 0,
        a.last() == '\n',
    ensures
        spec_lines(a + b) =~= spec_lines(a) + spec_lines(b),
    decreases a.len(),
{
    reveal_with_fuel(spec_lines, 2);
    lemma_first_nl(a);
    let i = first_nl(a) as int;
    assert(i < a.len());
    let ab = a + b;
    assert forall|j: int| 0 <= j < i implies ab[j] != '\n' by {
        assert(ab[j] == a[j]);
    }
    assert(ab[i] == a[i]);
    lemma_first_nl_exact(ab, i);
    assert(ab.subrange(0, i) =~= a.subrange(0, i));
    let a2 = a.subrange(i + 1, a.len() as int);
    assert(ab.subrange(i + 1, ab.len() as int) =~= a2 + b);
    if a2.len() == 0 {
        assert(a2 + b =~= b);
    } else {
        assert(a2.last() == a.last());
        lemma_lines_append(a2, b);
    }
}

/// Cut `s` into lines at every newline, dropping one carriage return at
/// the end of each line, as the diff text of a tool that writes
/// CRLF-terminated lines needs.
pub fn split_lines(s: &str) -> (r: Vec<String>)
    ensures
        r.deep_view() == spec_lines(s@),
{
    let n = s.unicode_len();
    let mut r: Vec<String> = Vec::new();
    let mut line_start: usize = 0;
    let mut i: usize = 0;
    while i < n
        invariant
            0 <= line_start <= i <= n,
            n == s@.len(),
            r.deep_view() =~= spec_lines(s@.subrange(0, line_start as int)),
            line_start == 0 || s@[line_start - 1] == '\n',
            forall|j: int| line_start <= j < i ==> s@[j] != '\n',
        decreases n - i,
    {
        if s.get_char(i) == '\n' {
            let end: usize = if i > line_start && s.get_char(i - 1) == '\r' {
                i - 1
            } else {
                i
            };
            let piece = s.substring_char(line_start, end);
            let line = piece.to_owned();
            proof {
                let whole = s@.subrange(line_start as int, i as int + 1);
                assert(whole.last() == '\n');
                assert(forall|j: int| 0 <= j < whole.len() - 1 ==> whole[j] == s@[line_start + j]);
                lemma_lines_one_terminated(whole);
                assert(whole.subrange(0, whole.len() - 1) =~= s@.subrange(
                    line_start as int,
                    i as int,
                ));
                assert(line@ =~= strip_cr(s@.subrange(line_start as int, i as int)));
                if line_start > 0 {
                    lemma_lines_append(s@.subrange(0, line_start as int), whole);
                }
                assert(s@.subrange(0, line_start as int) + whole =~= s@.subrange(
                    0,
                    i as int + 1,
                ));
            }
            r.push(line);
            proof {
                assert(r.deep_view() =~= spec_lines(s@.subrange(0, i as int + 1)));
            }
            line_start = i + 1;
        }
        i = i + 1;
    }
    if line_start < n {
        let end: usize = if s.get_char(n - 1) == '\r' {
            n - 1
        } else {
            n
        };
        let piece = s.substring_char(line_start, end);
        let line = piece.to_owned();
        proof {
            let whole = s@.subrange(line_start as int, n as int);
            lemma_lines_one_open(whole);
            assert(line@ =~= strip_cr(whole));
            if line_start > 0 {
                lemma_lines_append(s@.subrange(0, line_start as int), whole);
            }
            assert(s@.subrange(0, line_start as int) + whole =~= s@);
        }
        r.push(line);
        proof {
            assert(s@.subrange(0, s@.len() as int) =~= s@);
            assert(r.deep_view() =~= spec_lines(s@));
        }
    } else {
        proof {
            assert(s@.subrange(0, line_start as int) =~= s@);
        }
    }
    r
}

/// Does the line open a hunk, that is, start with `@@`?
pub open spec fn is_hunk_header(l: Seq<char>) -> bool {
    l.len() >= 2 && l[0] == '@' && l[1] == '@'
}

/// The run of digits after the first `+` that a digit follows, as the
/// new-start component `+<start>` of a hunk header carries it.
pub open spec fn plus_digits(l: Seq<char>) -> Option<Seq<char>>
    decreases l.len(),
{
    if l.len() < 2 {
        None
    } else if l[0] == '+' && is_digit(l[1]) {
        Some(digit_prefix(l.drop_first()))
    } else {
        plus_digits(l.drop_first())
    }
}

/// The new-start value of a hunk header: the value of its `+<start>`
/// digits, when they are there and fit in 32 bits.
pub open spec fn spec_hunk_start(l: Seq<char>) -> Option<u32> {
    match plus_digits(l) {
        None => None,
        Some(ds) => if digits_val(ds) <= u32::MAX {
            Some(digits_val(ds) as u32)
        } else {
            None
        },
    }
}

/// Is the line a hunk header?
pub fn line_is_hunk_header(l: &str) -> (b: bool)
    ensures
        b == is_hunk_header(l@),
{
    let n = l.unicode_len();
    n >= 2 && l.get_char(0) == '@' && l.get_char(1) == '@'
}

/// Read the new-start line number out of a hunk header.
pub fn hunk_start(l: &str) -> (r: Option<u32>)
    ensures
        r == spec_hunk_start(l@),
{
    let n = l.unicode_len();
    if n < 2 {
        return None;
    }
    proof {
        assert(l@.subrange(0, n as int) =~= l@);
    }
    let mut i: usize = 0;
    while i + 1 < n
        invariant
            i < n,
            n == l@.len(),
            plus_digits(l@) == plus_digits(l@.subrange(i as int, n as int)),
        decreases n - i,
    {
        let c = l.get_char(i);
        let ghost suffix = l@.subrange(i as int, n as int);
        proof {
            assert(suffix[0] == l@[i as int]);
            assert(suffix[1] == l@[i as int + 1]);
        }
        if c == '+' {
            let cv2 = l.get_char(i + 1) as u32;
            if 48 <= cv2 && cv2 <= 57 {
                let end = scan_digits(l, i + 1);
                proof {
                    assert(suffix.drop_first() =~= l@.subrange(i as int + 1, n as int));
                    lemma_digit_prefix_exact(
                        l@.subrange(i as int + 1, n as int),
                        end - (i + 1),
                    );
                    assert(l@.subrange(i as int + 1, n as int).subrange(
                        0,
                        end - (i + 1),
                    ) =~= l@.subrange(i as int + 1, end as int));
                }
                let v = digit_run_value(l, i + 1, end);
                if v > 0xFFFF_FFFF {
                    return None;
                } else {
                    return Some(v as u32);
                }
            }
        }
        proof {
            assert(suffix.drop_first() =~= l@.subrange(i as int + 1, n as int));
        }
        i = i + 1;
    }
    proof {
        assert(l@.subrange(i as int, n as int).len() < 2);
    }
    None
}

/// Is `c` a diff marker or a space?
pub open spec fn is_marker(c: char) -> bool {
    c == '+' || c == '-' || c == ' '
}

/// `l` with its leading run of marker and space characters removed.
pub open spec fn strip_marker_run(l: Seq<char>) -> Seq<char>
    decreases l.len(),
{
    if l.len() > 0 && is_marker(l[0]) {
        strip_marker_run(l.drop_first())
    } else {
        l
    }
}

/// The source text an added line carries: the one-character marker and
/// the run of marker and space characters right after it stripped.
pub open spec fn sanitize(l: Seq<char>) -> Seq<char> {
    if l.len() == 0 {
        l
    } else {
        strip_marker_run(l.drop_first())
    }
}

/// The marker run reaches exactly to the first non-marker.
pub proof fn lemma_strip_marker_run_exact(s: Seq<char>, k: int)
    requires
        0 <= k <= s.len(),
        forall|j: int| 0 <= j < k ==> is_marker(s[j]),
        k == s.len() || !is_marker(s[k]),
    ensures
        strip_marker_run(s) =~= s.subrange(k, s.len() as int),
    decreases s.len(),
{
    if s.len() == 0 {
    } else if is_marker(s[0]) {
        assert(k >= 1);
        lemma_strip_marker_run_exact(s.drop_first(), k - 1);
        assert(s.drop_first().subrange(k - 1, s.len() - 1) =~= s.subrange(k, s.len() as int));
    } else {
        assert(k == 0);
        assert(s.subrange(0, s.len() as int) =~= s);
    }
}

/// Index just past the run of marker and space characters that starts at
/// `start`.
fn scan_markers(l: &str, start: usize) -> (end: usize)
    requires
        start <= l@.len(),
    ensures
        start <= end <= l@.len(),
        forall|j: int| start <= j < end ==> is_marker(l@[j]),
        end == l@.len() || !is_marker(l@[end as int]),
{
    let n = l.unicode_len();
    let mut end: usize = start;
    while end < n
        invariant
            start <= end <= n,
            n == l@.len(),
            forall|j: int| start <= j < end ==> is_marker(l@[j]),
        decreases n - end,
    {
        let c = l.get_char(end);
        if !(c == '+' || c == '-' || c == ' ') {
            return end;
        }
        end = end + 1;
    }
    end
}

/// Strip an added line down to its source text.
pub fn sanitize_line(l: &str) -> (r: String)
    ensures
        r@ == sanitize(l@),
{
    let n = l.unicode_len();
    if n == 0 {
        return String::new();
    }
    let k = scan_markers(l, 1);
    let piece = l.substring_char(k, n);
    let r = piece.to_owned();
    proof {
        let rest = l@.drop_first();
        assert(rest =~= l@.subrange(1, n as int));
        lemma_strip_marker_run_exact(rest, k - 1);
        assert(rest.subrange(k - 1, rest.len() as int) =~= l@.subrange(k as int, n as int));
    }
    r
}

/// One added line, as the post-change file has it: its 1-based line
/// number there and its source text.
#[derive(Debug, Clone, PartialEq, Eq)]
pub struct LineMeta {
    pub line: u32,
    pub source: String,
}

/// The mathematical content of one added line.
pub struct ChangedLine {
    pub line: nat,
    pub source: Seq<char>,
}

impl View for LineMeta {
    type V = ChangedLine;

    open spec fn view(&self) -> ChangedLine {
        ChangedLine { line: self.line as nat, source: self.source@ }
    }
}

impl DeepView for LineMeta {
    type V = ChangedLine;

    open spec fn deep_view(&self) -> ChangedLine {
        self.view()
    }
}

/// The changed lines of one file, keyed by the file's path.
#[derive(Debug, Clone, PartialEq, Eq)]
pub struct DiffMeta {
    pub file: String,
    pub changed_lines: Vec<LineMeta>,
}

/// The mathematical content of a `DiffMeta`.
pub struct DiffMetaView {
    pub file: Seq<char>,
    pub changed_lines: Seq<ChangedLine>,
}

impl View for DiffMeta {
    type V = DiffMetaView;

    open spec fn view(&self) -> DiffMetaView {
        DiffMetaView { file: self.file@, changed_lines: self.changed_lines.deep_view() }
    }
}

impl DeepView for DiffMeta {
    type V = DiffMetaView;

    open spec fn deep_view(&self) -> DiffMetaView {
        self.view()
    }
}

/// The running state of the walk over a diff's lines: whether a hunk
/// header has been seen yet, the line number the next non-removed line
/// will have, and the changed lines collected so far.
pub struct ParseState {
    pub in_hunk: bool,
    pub next_line: nat,
    pub changed: Seq<ChangedLine>,
}

/// Before any line: no hunk seen, nothing collected.
pub open spec fn initial_state() -> ParseState {
    ParseState { in_hunk: false, next_line: 0, changed: Seq::empty() }
}

/// One line of the walk.
///
/// A hunk header resets the counter to its new-start value — a header
/// without a readable value is a parse error.  Lines before the first
/// header are ignored.  Inside a hunk, a removed line leaves the counter
/// alone; every other line takes the counter's value as its line number
/// and advances it; an added line is also recorded, and is a parse error
/// when its number does not fit in 32 bits.
pub open spec fn parse_step(st: ParseState, l: Seq<char>) -> Option<ParseState> {
    if is_hunk_header(l) {
        match spec_hunk_start(l) {
            Some(n) => Some(ParseState { in_hunk: true, next_line: n as nat, changed: st.changed }),
            None => None,
        }
    } else if !st.in_hunk {
        Some(st)
    } else if l.len() > 0 && l[0] == '-' {
        Some(st)
    } else if l.len() > 0 && l[0] == '+' {
        if st.next_line <= u32::MAX {
            Some(
                ParseState {
                    in_hunk: true,
                    next_line: st.next_line + 1,
                    changed: st.changed.push(
                        ChangedLine { line: st.next_line, source: sanitize(l) },
                    ),
                },
            )
        } else {
            None
        }
    } else {
        Some(ParseState { in_hunk: true, next_line: st.next_line + 1, changed: st.changed })
    }
}

/// The walk over a sequence of lines, from a given state.
pub open spec fn parse_fold(st: ParseState, lines: Seq<Seq<char>>) -> Option<ParseState>
    decreases lines.len(),
{
    if lines.len() == 0 {
        Some(st)
    } else {
        match parse_step(st, lines[0]) {
            None => None,
            Some(st2) => parse_fold(st2, lines.drop_first()),
        }
    }
}

/// What the diff hunk parser owes for a whole diff text: the changed
/// lines its hunks add, or nothing when the text has a malformed hunk
/// header.
pub open spec fn spec_changed_lines(diff: Seq<char>) -> Option<Seq<ChangedLine>> {
    match parse_fold(initial_state(), spec_lines(diff)) {
        None => None,
        Some(st) => Some(st.changed),
    }
}

/// Walk the diff text for one file and collect every added line with its
/// post-change line number and sanitized source text.
pub fn get_changed_lines_from_diff(diff: &str) -> (r: Result<Vec<LineMeta>, LintError>)
    ensures
        r is Ok <==> spec_changed_lines(diff@) is Some,
        r is Ok ==> r.unwrap().deep_view() == spec_changed_lines(diff@).unwrap(),
        r is Err ==> r.unwrap_err() == LintError::Parse,
{
    let lines = split_lines(diff);
    let mut changed: Vec<LineMeta> = Vec::new();
    let mut in_hunk: bool = false;
    let mut next_line: u128 = 0;
    let mut k: usize = 0;
    proof {
        assert(changed.deep_view() =~= Seq::<ChangedLine>::empty());
        assert(spec_lines(diff@).skip(0) =~= spec_lines(diff@));
    }
    while k < lines.len()
        invariant
            k <= lines.len(),
            lines.deep_view() == spec_lines(diff@),
            next_line <= 0xFFFF_FFFFu128 + k as u128,
            parse_fold(initial_state(), spec_lines(diff@)) == parse_fold(
                ParseState {
                    in_hunk,
                    next_line: next_line as nat,
                    changed: changed.deep_view(),
                },
                spec_lines(diff@).skip(k as int),
            ),
        decreases lines.len() - k,
    {
        let ghost cur = ParseState {
            in_hunk,
            next_line: next_line as nat,
            changed: changed.deep_view(),
        };
        let ghost lv = lines.deep_view();
        let ghost rest = lv.skip(k as int);
        proof {
            assert(rest[0] == lv[k as int]);
            assert(rest.drop_first() =~= lv.skip(k as int + 1));
        }
        let l = &lines[k];
        assert(l@ == lv[k as int]);
        let ln = l.as_str().unicode_len();
        if line_is_hunk_header(l.as_str()) {
            match hunk_start(l.as_str()) {
                Some(n) => {
                    in_hunk = true;
                    next_line = n as u128;
                },
                None => {
                    return Err(LintError::Parse);
                },
            }
        } else if !in_hunk {
        } else if ln >= 1 && l.as_str().get_char(0) == '-' {
        } else if ln >= 1 && l.as_str().get_char(0) == '+' {
            if next_line > 0xFFFF_FFFFu128 {
                return Err(LintError::Parse);
            }
            let src = sanitize_line(l.as_str());
            let meta = LineMeta { line: next_line as u32, source: src };
            changed.push(meta);
            proof {
                assert(changed.deep_view() =~= cur.changed.push(
                    ChangedLine { line: next_line as nat, source: sanitize(l@) },
                ));
            }
            next_line = next_line + 1;
        } else {
            next_line = next_line + 1;
        }
        proof {
            assert(parse_step(cur, rest[0]) == Some(
                ParseState {
                    in_hunk,
                    next_line: next_line as nat,
                    changed: changed.deep_view(),
                },
            ));
        }
        k = k + 1;
    }
    proof {
        assert(spec_lines(diff@).skip(k as int) =~= Seq::<Seq<char>>::empty());
    }
    Ok(changed)
}

/// Parse the unified-diff text produced for `file` into the file's
/// changed-line set.
pub fn get_changed_lines(diff: &str, file: &str) -> (r: Result<DiffMeta, LintError>)
    ensures
        r is Ok <==> spec_changed_lines(diff@) is Some,
        r is Ok ==> r.unwrap()@.file == file@,
        r is Ok ==> r.unwrap()@.changed_lines == spec_changed_lines(diff@).unwrap(),
        r is Err ==> r.unwrap_err() == LintError::Parse,
{
    match get_changed_lines_from_diff(diff) {
        Ok(changed_lines) => Ok(DiffMeta { file: file.to_owned(), changed_lines }),
        Err(e) => Err(e),
    }
}

/// Inside a hunk, a removed line never advances the line counter, and a
/// context line always does.
pub proof fn lemma_counter_advance(st: ParseState, l: Seq<char>)
    requires
        st.in_hunk,
        !is_hunk_header(l),
    ensures
        l.len() > 0 && l[0] == '-' ==> parse_step(st, l) == Some(st),
        !(l.len() > 0 && (l[0] == '-' || l[0] == '+')) ==> parse_step(st, l) == Some(
            ParseState { in_hunk: true, next_line: st.next_line + 1, changed: st.changed },
        ),
{
}

/// At a hunk header the counter resets to the header's own new-start
/// value, whatever any earlier hunk left behind: two walks that reach the
/// same header, with any states at all, continue with the same counter.
pub proof fn lemma_header_resets(st1: ParseState, st2: ParseState, l: Seq<char>)
    requires
        is_hunk_header(l),
    ensures
        parse_step(st1, l) is Some <==> parse_step(st2, l) is Some,
        parse_step(st1, l) is Some ==> parse_step(st1, l).unwrap().next_line == parse_step(
            st2,
            l,
        ).unwrap().next_line,
        parse_step(st1, l) is Some ==> parse_step(st1, l).unwrap().next_line
            == spec_hunk_start(l).unwrap() as nat,
{
}

} // verus!
