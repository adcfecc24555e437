//! Decimal digits and line numbers.
//!
//! Diff hunk headers and linter output both carry line numbers as runs of
//! decimal digits; this module gives those runs a mathematical value and
//! the executable parsers proved against it.

use vstd::prelude::*;
use vstd::string::*;

verus! {

/// Is `c` one of the ten decimal digit characters?
pub open spec fn is_digit(c: char) -> bool {
    48 <= c as u32 && c as u32 <= 57
}

/// The numeric value of one digit character.
pub open spec fn digit_val(c: char) -> nat
    recommends
        is_digit(c),
{
    (c as u32 - 48) as nat
}

/// The value of a run of decimal digits, most significant digit first.
pub open spec fn digits_val(s: Seq<char>) -> nat
    decreases s.len(),
{
    if s.len() == 0 {
        0
    } else {
        digits_val(s.drop_last()) * 10 + digit_val(s.last())
    }
}

/// Does every character of `s` satisfy `is_digit`?
pub open spec fn all_digits(s: Seq<char>) -> bool {
    forall|i: int| 0 <= i < s.len() ==> is_digit(s[i])
}

/// The longest run of digits at the front of `s`.
pub open spec fn digit_prefix(s: Seq<char>) -> Seq<char>
    decreases s.len(),
{
    if s.len() > 0 && is_digit(s[0]) {
        seq![s[0]] + digit_prefix(s.drop_first())
    } else {
        Seq::empty()
    }
}

/// Appending a digit multiplies the value by ten and adds the digit.
pub proof fn lemma_digits_val_push(s: Seq<char>, c: char)
    ensures
        digits_val(s.push(c)) == digits_val(s) * 10 + digit_val(c),
{
    assert(s.push(c).drop_last() =~= s);
    assert(s.push(c).last() == c);
}

/// The digit prefix reaches exactly to the first non-digit.
pub proof fn lemma_digit_prefix_exact(s: Seq<char>, k: int)
    requires
        0 <= k <= s.len(),
        forall|j: int| 0 <= j < k ==> is_digit(s[j]),
        k == s.len() || !is_digit(s[k]),
    ensures
        digit_prefix(s) =~= s.subrange(0, k),
    decreases s.len(),
{
    if s.len() == 0 {
    } else if is_digit(s[0]) {
        assert(k >= 1);
        lemma_digit_prefix_exact(s.drop_first(), k - 1);
        assert(s.subrange(0, k) =~= seq![s[0]] + s.drop_first().subrange(0, k - 1));
    } else {
        assert(k == 0);
    }
}

/// Index just past the run of digits that starts at `start`.
pub fn scan_digits(s: &str, start: usize) -> (end: usize)
    requires
        start <= s@.len(),
    ensures
        start <= end <= s@.len(),
        forall|j: int| start <= j < end ==> is_digit(s@[j]),
        end == s@.len() || !is_digit(s@[end as int]),
{
    let n = s.unicode_len();
    let mut end: usize = start;
    while end < n
        invariant
            start <= end <= n,
            n == s@.len(),
            forall|j: int| start <= j < end ==> is_digit(s@[j]),
        decreases n - end,
    {
        let cv = s.get_char(end) as u32;
        if cv < 48 || cv > 57 {
            return end;
        }
        end = end + 1;
    }
    end
}

/// The saturation mark `digit_run_value` answers with when a run's value
/// does not fit in 32 bits: one past the largest 32-bit value.
pub const TOO_BIG: u64 = 0x1_0000_0000;

/// The value of the all-digit range `[start, end)` of `s`, or `TOO_BIG`
/// when that value exceeds `u32::MAX`.
pub fn digit_run_value(s: &str, start: usize, end: usize) -> (acc: u64)
    requires
        start <= end <= s@.len(),
        forall|j: int| start <= j < end ==> is_digit(s@[j]),
    ensures
        digits_val(s@.subrange(start as int, end as int)) <= u32::MAX ==> acc == digits_val(
            s@.subrange(start as int, end as int),
        ),
        digits_val(s@.subrange(start as int, end as int)) > u32::MAX ==> acc == TOO_BIG,
{
    let mut acc: u64 = 0;
    let mut i: usize = start;
    while i < end
        invariant
            start <= i <= end <= s@.len(),
            forall|j: int| start <= j < end ==> is_digit(s@[j]),
            acc <= TOO_BIG,
            digits_val(s@.subrange(start as int, i as int)) <= u32::MAX ==> acc == digits_val(
                s@.subrange(start as int, i as int),
            ),
            digits_val(s@.subrange(start as int, i as int)) > u32::MAX ==> acc == TOO_BIG,
        decreases end - i,
    {
        let cv = s.get_char(i) as u32;
        let ghost pre = s@.subrange(start as int, i as int);
        proof {
            assert(s@.subrange(start as int, i as int + 1) =~= pre.push(s@[i as int]));
            lemma_digits_val_push(pre, s@[i as int]);
        }
        let d = (cv - 48) as u64;
        acc = if acc * 10 + d > 0xFFFF_FFFFu64 {
            TOO_BIG
        } else {
            acc * 10 + d
        };
        i = i + 1;
    }
    acc
}

/// What `parse_u32` returns: the value of the digit run, after one
/// optional leading plus sign, when the run is non-empty, all digits and
/// fits in 32 bits; nothing otherwise.
pub open spec fn spec_parse_u32(s: Seq<char>) -> Option<u32> {
    let ds = if s.len() > 0 && s[0] == '+' {
        s.drop_first()
    } else {
        s
    };
    if ds.len() > 0 && all_digits(ds) && digits_val(ds) <= u32::MAX {
        Some(digits_val(ds) as u32)
    } else {
        None
    }
}

/// Parse a whole string as a 32-bit line number, accepting one optional
/// leading `+` as decimal notation does.
pub fn parse_u32(s: &str) -> (r: Option<u32>)
    ensures
        r == spec_parse_u32(s@),
{
    let n = s.unicode_len();
    let start: usize = if n > 0 && s.get_char(0) == '+' {
        1
    } else {
        0
    };
    let ghost ds = if s@.len() > 0 && s@[0] == '+' {
        s@.drop_first()
    } else {
        s@
    };
    assert(ds =~= s@.subrange(start as int, n as int));
    if start >= n {
        return None;
    }
    let end = scan_digits(s, start);
    if end < n {
        proof {
            assert(ds[(end - start) as int] == s@[end as int]);
            assert(!all_digits(ds));
        }
        return None;
    }
    let acc = digit_run_value(s, start, end);
    proof {
        assert(all_digits(ds));
    }
    if acc > 0xFFFF_FFFF {
        None
    } else {
        Some(acc as u32)
    }
}

} // verus!
