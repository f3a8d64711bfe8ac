//! The mathematical vocabulary of source text: line and column numbers, scanning
//! for the first position where a stop condition holds, prefixes, and the
//! character classes that the lexer uses.
use vstd::prelude::*;

verus! {

/// Line number (counting from 1) of the position just before `s[i]`: one more than
/// the number of newlines in `s[0..i]`.
pub open spec fn line_at(s: Seq<char>, i: int) -> int
    decreases i,
{
    if i <= 0 {
        1
    } else if s[i - 1] == '\n' {
        line_at(s, i - 1) + 1
    } else {
        line_at(s, i - 1)
    }
}

/// Column number (counting from 0) of the position just before `s[i]`: the number
/// of characters between the last newline before `i` (or the start) and `i`.
pub open spec fn col_at(s: Seq<char>, i: int) -> int
    decreases i,
{
    if i <= 0 {
        0
    } else if s[i - 1] == '\n' {
        0
    } else {
        col_at(s, i - 1) + 1
    }
}

/// The text that remains from position `j` on.
pub open spec fn text_at(s: Seq<char>, j: int) -> Seq<char> {
    s.subrange(j, s.len() as int)
}

/// The character just before position `j`, if there is one.
pub open spec fn prev_char(s: Seq<char>, j: int) -> Option<char> {
    if j > 0 {
        Some(s[j - 1])
    } else {
        None
    }
}

/// `s` begins with `p`.
pub open spec fn starts_with(s: Seq<char>, p: Seq<char>) -> bool {
    p.len() <= s.len() && s.subrange(0, p.len() as int) =~= p
}

/// The first position `j >= i` that is at or past the end of `s`, or where `stop` holds.
pub open spec fn scan_until(s: Seq<char>, i: int, stop: spec_fn(int) -> bool) -> int
    decreases s.len() - i,
{
    if i >= s.len() || stop(i) {
        i
    } else {
        scan_until(s, i + 1, stop)
    }
}

pub proof fn lemma_line_col_bounds(s: Seq<char>, i: int)
    requires
        0 <= i,
    ensures
        1 <= line_at(s, i) <= i + 1,
        0 <= col_at(s, i) <= i,
    decreases i,
{
    if i > 0 {
        lemma_line_col_bounds(s, i - 1);
    }
}

/// `scan_until` stops between `i` and the end, where `stop` holds or at the end, and
/// `stop` holds nowhere before.
pub proof fn lemma_scan_until(s: Seq<char>, i: int, stop: spec_fn(int) -> bool)
    requires
        0 <= i <= s.len(),
    ensures
        i <= scan_until(s, i, stop) <= s.len(),
        scan_until(s, i, stop) < s.len() ==> stop(scan_until(s, i, stop)),
        forall|j: int| i <= j < scan_until(s, i, stop) ==> !#[trigger] stop(j),
    decreases s.len() - i,
{
    if i < s.len() && !stop(i) {
        lemma_scan_until(s, i + 1, stop);
    }
}

/// Any `e` past which `stop` fails everywhere and at which the scan must end is the
/// result of `scan_until`.
pub proof fn lemma_scan_until_unique(s: Seq<char>, i: int, e: int, stop: spec_fn(int) -> bool)
    requires
        0 <= i <= e <= s.len(),
        forall|j: int| i <= j < e ==> !#[trigger] stop(j),
        e < s.len() ==> stop(e),
    ensures
        scan_until(s, i, stop) == e,
    decreases e - i,
{
    if i < e {
        lemma_scan_until_unique(s, i + 1, e, stop);
    }
}

pub proof fn lemma_starts_with(s: Seq<char>, p: Seq<char>)
    requires
        starts_with(s, p),
    ensures
        p.len() <= s.len(),
        forall|k: int| 0 <= k < p.len() ==> #[trigger] s[k] == p[k],
{
    assert forall|k: int| 0 <= k < p.len() implies #[trigger] s[k] == p[k] by {
        assert(s.subrange(0, p.len() as int)[k] == p[k]);
    }
}

/// Unicode's White_Space property (PropList.txt), the class that `char::is_whitespace`
/// tests.
pub open spec fn is_whitespace_spec(c: char) -> bool {
    ||| ('\u{9}' <= c && c <= '\u{d}')
    ||| c == ' '
    ||| c == '\u{85}'
    ||| c == '\u{a0}'
    ||| c == '\u{1680}'
    ||| ('\u{2000}' <= c && c <= '\u{200a}')
    ||| c == '\u{2028}'
    ||| c == '\u{2029}'
    ||| c == '\u{202f}'
    ||| c == '\u{205f}'
    ||| c == '\u{3000}'
}

/// A decimal digit.
pub open spec fn is_digit_spec(c: char) -> bool {
    '0' <= c && c <= '9'
}

/// Whether `c` is white space in the sense of Unicode's White_Space property.
pub fn is_whitespace(c: char) -> (r: bool)
    ensures
        r == is_whitespace_spec(c),
{
    ('\u{9}' <= c && c <= '\u{d}') || c == ' ' || c == '\u{85}' || c == '\u{a0}' || c
        == '\u{1680}' || ('\u{2000}' <= c && c <= '\u{200a}') || c == '\u{2028}' || c
        == '\u{2029}' || c == '\u{202f}' || c == '\u{205f}' || c == '\u{3000}'
}

/// Whether `c` is a decimal digit.
pub fn is_digit(c: char) -> (r: bool)
    ensures
        r == is_digit_spec(c),
{
    '0' <= c && c <= '9'
}

/// Whether the text of `s` begins with the text of `p`.
pub fn str_starts_with(s: &str, p: &str) -> (r: bool)
    ensures
        r == starts_with(s@, p@),
{
    let n = s.unicode_len();
    let m = p.unicode_len();
    if m > n {
        return false;
    }
    let mut k: usize = 0;
    while k < m
        invariant
            m <= n,
            n == s@.len(),
            m == p@.len(),
            k <= m,
            forall|j: int| 0 <= j < k ==> s@[j] == p@[j],
        decreases m - k,
    {
        if s.get_char(k) != p.get_char(k) {
            assert(s@.subrange(0, m as int)[k as int] != p@[k as int]);
            return false;
        }
        k = k + 1;
    }
    true
}

} // verus!
