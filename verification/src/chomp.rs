//! The chomper: a cursor over source text that consumes ("chomps") runs of characters
//! and reports the span it consumed, with line and column numbers.
use vstd::prelude::*;
use vstd::std_specs::ops::AddSpecImpl;
use std::ops::Add;
use crate::text::{line_at, col_at, text_at, prev_char, starts_with, lemma_line_col_bounds};

verus! {

/// A place in the source text: the index of the next character, and its line and
/// column numbers.
#[derive(Clone, Copy, Debug, PartialEq, Eq, Structural)]
pub struct Position {
    pub index: usize,
    pub line_no: usize,
    pub col_no: usize,
}

/// The stretch of source text between two positions.
#[derive(Clone, Copy, Debug, PartialEq, Eq, Structural)]
pub struct Span {
    pub start_pos: Position,
    pub end_pos: Position,
}

/// What one chomp consumed, and whether it ran into the end of the text.
#[derive(Clone, Copy, Debug, PartialEq, Eq, Structural)]
pub struct ChompResult {
    pub hit_eof: bool,
    pub span: Span,
}

/// The position before `s[i]`, with its line and column numbers.
pub open spec fn position_at(s: Seq<char>, i: int) -> Position {
    Position { index: i as usize, line_no: line_at(s, i) as usize, col_no: col_at(s, i) as usize }
}

/// The span from position `i` to position `j` of `s`.
pub open spec fn span_between(s: Seq<char>, i: int, j: int) -> Span {
    Span { start_pos: position_at(s, i), end_pos: position_at(s, j) }
}

/// The result of chomping `s[i..j]`: it hit the end exactly when `j` is the end.
pub open spec fn chomped(s: Seq<char>, i: int, j: int) -> ChompResult {
    ChompResult { hit_eof: j >= s.len(), span: span_between(s, i, j) }
}

/// What a chomp that started at `i` and stopped at `e` returns: nothing if it
/// consumed nothing, else the span `s[i..e]`.
pub open spec fn chomp_outcome(s: Seq<char>, i: int, e: int, r: Option<ChompResult>) -> bool {
    &&& i <= e <= s.len()
    &&& r == if e == i {
        None::<ChompResult>
    } else {
        Some(chomped(s, i, e))
    }
}

/// Whatever carries a span.
pub trait ToSpan {
    spec fn span_of(&self) -> Span;

    fn to_span(&self) -> (r: &Span)
        ensures
            *r == self.span_of(),
    ;
}

impl ToSpan for Span {
    open spec fn span_of(&self) -> Span {
        *self
    }

    fn to_span(&self) -> (r: &Span) {
        self
    }
}

impl ToSpan for ChompResult {
    open spec fn span_of(&self) -> Span {
        self.span
    }

    fn to_span(&self) -> (r: &Span) {
        &self.span
    }
}

/// Joining two chomp results: the first one's start, the second one's end and end-of-text
/// flag.
pub open spec fn joined(lhs: ChompResult, rhs: ChompResult) -> ChompResult {
    ChompResult {
        span: Span { start_pos: lhs.span.start_pos, end_pos: rhs.span.end_pos },
        hit_eof: rhs.hit_eof,
    }
}

/// `rhs` starts where `lhs` ends.
pub open spec fn adjacent(lhs: ChompResult, rhs: ChompResult) -> bool {
    rhs.span.start_pos.index == lhs.span.end_pos.index
}

impl Add<ChompResult> for ChompResult {
    type Output = ChompResult;

    fn add(self, rhs: ChompResult) -> (r: ChompResult) {
        ChompResult {
            span: Span { start_pos: self.span.start_pos, end_pos: rhs.span.end_pos },
            hit_eof: rhs.hit_eof,
        }
    }
}

impl AddSpecImpl<ChompResult> for ChompResult {
    open spec fn obeys_add_spec() -> bool {
        true
    }

    open spec fn add_req(self, rhs: ChompResult) -> bool {
        adjacent(self, rhs)
    }

    open spec fn add_spec(self, rhs: ChompResult) -> ChompResult {
        joined(self, rhs)
    }
}

impl Add<Option<ChompResult>> for ChompResult {
    type Output = ChompResult;

    fn add(self, rhs: Option<ChompResult>) -> (r: ChompResult) {
        match rhs {
            None => self,
            Some(cr) => self + cr,
        }
    }
}

impl AddSpecImpl<Option<ChompResult>> for ChompResult {
    open spec fn obeys_add_spec() -> bool {
        true
    }

    open spec fn add_req(self, rhs: Option<ChompResult>) -> bool {
        match rhs {
            None => true,
            Some(cr) => adjacent(self, cr),
        }
    }

    open spec fn add_spec(self, rhs: Option<ChompResult>) -> ChompResult {
        match rhs {
            None => self,
            Some(cr) => joined(self, cr),
        }
    }
}

/// The chomper stops at positions where the character test said `true`.
pub open spec fn char_says<F: Fn(char) -> bool>(f: F, c: char, b: bool) -> bool {
    call_ensures(f, (c,), b)
}

/// The test on the remaining text, called on the text from `j` on, said `b`.
pub open spec fn text_says<G: Fn(&str) -> bool>(g: G, s: Seq<char>, j: int, b: bool) -> bool {
    exists|t: &str| t@ == text_at(s, j) && #[trigger] call_ensures(g, (t,), b)
}

/// The test on the remaining text and the character before it, called at `j`, said `b`.
pub open spec fn text_prev_says<G: Fn(&str, Option<char>) -> bool>(
    g: G,
    s: Seq<char>,
    j: int,
    b: bool,
) -> bool {
    exists|t: &str| t@ == text_at(s, j) && #[trigger] call_ensures(g, (t, prev_char(s, j)), b)
}

/// At position `j`, none of the three tests says stop.
pub open spec fn goes_on_at<F: Fn(char) -> bool, G: Fn(&str) -> bool, H: Fn(&str, Option<char>) -> bool>(
    f: F,
    g: G,
    h: H,
    s: Seq<char>,
    j: int,
) -> bool {
    &&& char_says(f, s[j], false)
    &&& text_says(g, s, j, false)
    &&& text_prev_says(h, s, j, false)
}

/// At position `j`, the tests, called in turn until one says yes, say stop.
pub open spec fn stops_at<F: Fn(char) -> bool, G: Fn(&str) -> bool, H: Fn(&str, Option<char>) -> bool>(
    f: F,
    g: G,
    h: H,
    s: Seq<char>,
    j: int,
) -> bool {
    ||| char_says(f, s[j], true)
    ||| (char_says(f, s[j], false) && text_says(g, s, j, true))
    ||| (char_says(f, s[j], false) && text_says(g, s, j, false) && text_prev_says(h, s, j, true))
}

/// A cursor over `code`. `index` is the index of the next character; once the cursor
/// has stepped past the last character, `is_eof` is set (and `index` is one past the
/// length). `line_no` and `col_no` are those of the cursor's position.
pub struct Chomper<'a> {
    pub code: &'a str,
    pub index: usize,
    pub is_eof: bool,
    pub line_no: usize,
    pub col_no: usize,
}

impl<'a> Chomper<'a> {
    /// Where the cursor stands: `index`, or the end of the text once it is at the end.
    pub open spec fn cursor(&self) -> int {
        if self.is_eof {
            self.code@.len() as int
        } else {
            self.index as int
        }
    }

    /// The cursor is consistent: it lies within the text (one past it once at the end),
    /// and the line and column numbers are those of its position.
    pub open spec fn wf(&self) -> bool {
        &&& self.code@.len() < usize::MAX
        &&& if self.is_eof {
            self.index == self.code@.len() + 1
        } else {
            self.index <= self.code@.len()
        }
        &&& self.line_no == line_at(self.code@, self.cursor())
        &&& self.col_no == col_at(self.code@, self.cursor())
    }

    /// Where a chomp that ends at `e` leaves the cursor: before `s[e]`, or at the end of
    /// the text, having hit it, if `e` is the end.
    pub open spec fn settled_at(&self, e: int) -> bool {
        &&& self.wf()
        &&& if e < self.code@.len() {
            !self.is_eof && self.index == e
        } else {
            self.is_eof
        }
    }

    /// A chomper at the start of `code`: index 0, line 1, column 0.
    pub fn new(code: &'a str) -> (r: Chomper<'a>)
        requires
            code@.len() < usize::MAX,
        ensures
            r.code == code,
            r.index == 0,
            !r.is_eof,
            r.line_no == 1,
            r.col_no == 0,
            r.wf(),
    {
        Chomper { code: code, index: 0, is_eof: false, line_no: 1, col_no: 0 }
    }

    /// The cursor's position.
    pub fn position(&self) -> (r: Position)
        ensures
            r == (Position { index: self.index, line_no: self.line_no, col_no: self.col_no }),
    {
        Position { index: self.index, line_no: self.line_no, col_no: self.col_no }
    }

    /// The next character, if the cursor stands before one.
    pub fn peek(&self) -> (r: Option<char>)
        ensures
            r == if self.index < self.code@.len() {
                Some(self.code@[self.index as int])
            } else {
                None::<char>
            },
    {
        let target = self.index;
        if target >= self.code.unicode_len() {
            return None;
        }
        Some(self.code.get_char(target))
    }

    /// The text from the cursor on.
    pub fn text(&self) -> (r: &'a str)
        requires
            self.index <= self.code@.len(),
        ensures
            r@ == text_at(self.code@, self.index as int),
    {
        let n = self.code.unicode_len();
        self.code.substring_char(self.index, n)
    }

    /// Steps over the next character and returns it with its index; at the end of the
    /// text, returns `None` and marks the chomper as at the end. The index always
    /// advances by one; a newline moves to the next line, at column 0.
    pub fn next(&mut self) -> (r: Option<(usize, char)>)
        requires
            old(self).wf(),
            !old(self).is_eof,
        ensures
            final(self).wf(),
            final(self).code == old(self).code,
            final(self).index == old(self).index + 1,
            final(self).is_eof == (old(self).index >= old(self).code@.len()),
            r == if old(self).index < old(self).code@.len() {
                Some((old(self).index, old(self).code@[old(self).index as int]))
            } else {
                None::<(usize, char)>
            },
    {
        let n = self.code.unicode_len();
        proof {
            lemma_line_col_bounds(self.code@, self.index as int + 1);
        }
        if self.index >= n {
            self.index = self.index + 1;
            self.is_eof = true;
            return None;
        }
        let ch = self.code.get_char(self.index);
        let i = self.index;
        self.index = self.index + 1;
        if ch == '\n' {
            self.line_no = self.line_no + 1;
            self.col_no = 0;
        } else {
            self.col_no = self.col_no + 1;
        }
        Some((i, ch))
    }

    /// Consumes the text `expectation`, which the remaining text must begin with.
    pub fn expect(&mut self, expectation: &str) -> (r: ChompResult)
        requires
            old(self).wf(),
            !old(self).is_eof,
            expectation@.len() > 0,
            starts_with(text_at(old(self).code@, old(self).index as int), expectation@),
        ensures
            final(self).code == old(self).code,
            final(self).settled_at(old(self).index + expectation@.len()),
            r == chomped(old(self).code@, old(self).index as int, old(self).index + expectation@.len()),
    {
        let ghost s = self.code@;
        let ghost i = self.index as int;
        assert(text_at(s, i).len() >= expectation@.len());
        let m = expectation.unicode_len();
        let r = self.chomp_count(m);
        r.unwrap()
    }

    /// Consumes up to `count` characters; `None` if it consumed none.
    pub fn chomp_count(&mut self, count: usize) -> (r: Option<ChompResult>)
        requires
            old(self).wf(),
        ensures
            final(self).code == old(self).code,
            final(self).settled_at(final(self).cursor()),
            final(self).cursor() == if old(self).is_eof {
                old(self).code@.len() as int
            } else if old(self).index + count < old(self).code@.len() {
                old(self).index + count
            } else {
                old(self).code@.len() as int
            },
            chomp_outcome(old(self).code@, old(self).cursor(), final(self).cursor(), r),
            old(self).is_eof ==> *final(self) == *old(self),
    {
        if self.is_eof {
            return None;
        }
        let ghost s = self.code@;
        let ghost i = self.index as int;
        let n = self.code.unicode_len();
        let remaining = n - self.index;
        // The text that remains at the stopping position is this long (0: never).
        let target: usize = if count < remaining {
            remaining - count
        } else {
            0
        };
        let never_c = |c: char| -> (b: bool)
            ensures
                !b,
            { false };
        let at_count = |t: &str| -> (b: bool)
            ensures
                b == (t@.len() == target),
            { t.unicode_len() == target };
        let never_p = |t: &str, p: Option<char>| -> (b: bool)
            ensures
                !b,
            { false };
        let r = self.chomp_internal(never_c, at_count, never_p);
        proof {
            let e = self.cursor();
            if e < n {
                assert(stops_at(never_c, at_count, never_p, s, e));
                assert(!char_says(never_c, s[e], true));
                if text_says(at_count, s, e, false) {
                    assert(!text_prev_says(never_p, s, e, true));
                }
                assert(text_says(at_count, s, e, true));
                let t = choose|t: &str|
                    t@ == text_at(s, e) && #[trigger] call_ensures(at_count, (t,), true);
                assert(n - e == target);
            }
            if i + count < n && e > i + count {
                let j = i + count;
                assert(goes_on_at(never_c, at_count, never_p, s, j));
                let t = choose|t: &str|
                    t@ == text_at(s, j) && #[trigger] call_ensures(at_count, (t,), false);
                assert(n - j != target);
            }
        }
        r
    }

    /// Consumes characters until the remaining text passes the test `quit` (which is
    /// called once per position, in order) or the text ends. `None` if it consumed none.
    pub fn chomp_till_str<G: Fn(&str) -> bool>(&mut self, quit: G) -> (r: Option<ChompResult>)
        requires
            old(self).wf(),
            forall|t: &str| call_requires(quit, (t,)),
        ensures
            final(self).code == old(self).code,
            final(self).settled_at(final(self).cursor()),
            chomp_outcome(old(self).code@, old(self).cursor(), final(self).cursor(), r),
            old(self).is_eof ==> *final(self) == *old(self),
            forall|j: int|
                old(self).cursor() <= j < final(self).cursor() ==> text_says(
                    quit,
                    old(self).code@,
                    j,
                    false,
                ),
            final(self).cursor() < old(self).code@.len() ==> text_says(
                quit,
                old(self).code@,
                final(self).cursor(),
                true,
            ),
    {
        let never_c = |c: char| -> (b: bool)
            ensures
                !b,
            { false };
        let never_p = |t: &str, p: Option<char>| -> (b: bool)
            ensures
                !b,
            { false };
        let r = self.chomp_internal(never_c, quit, never_p);
        proof {
            let s = old(self).code@;
            let e = self.cursor();
            assert forall|j: int| old(self).cursor() <= j < e implies text_says(quit, s, j, false) by {
                assert(goes_on_at(never_c, quit, never_p, s, j));
            }
            if e < s.len() {
                assert(stops_at(never_c, quit, never_p, s, e));
                assert(!char_says(never_c, s[e], true));
                assert(!text_prev_says(never_p, s, e, true));
            }
        }
        r
    }

    /// Consumes characters until the test `quit`, given the remaining text and the
    /// character before it, passes, or the text ends. `None` if it consumed none.
    pub fn chomp_till_str_with_previous<G: Fn(&str, Option<char>) -> bool>(
        &mut self,
        quit: G,
    ) -> (r: Option<ChompResult>)
        requires
            old(self).wf(),
            forall|t: &str, p: Option<char>| call_requires(quit, (t, p)),
        ensures
            final(self).code == old(self).code,
            final(self).settled_at(final(self).cursor()),
            chomp_outcome(old(self).code@, old(self).cursor(), final(self).cursor(), r),
            old(self).is_eof ==> *final(self) == *old(self),
            forall|j: int|
                old(self).cursor() <= j < final(self).cursor() ==> text_prev_says(
                    quit,
                    old(self).code@,
                    j,
                    false,
                ),
            final(self).cursor() < old(self).code@.len() ==> text_prev_says(
                quit,
                old(self).code@,
                final(self).cursor(),
                true,
            ),
    {
        let never_c = |c: char| -> (b: bool)
            ensures
                !b,
            { false };
        let never_t = |t: &str| -> (b: bool)
            ensures
                !b,
            { false };
        let r = self.chomp_internal(never_c, never_t, quit);
        proof {
            let s = old(self).code@;
            let e = self.cursor();
            assert forall|j: int|
                old(self).cursor() <= j < e implies text_prev_says(quit, s, j, false) by {
                assert(goes_on_at(never_c, never_t, quit, s, j));
            }
            if e < s.len() {
                assert(stops_at(never_c, never_t, quit, s, e));
                assert(!char_says(never_c, s[e], true));
                assert(!text_says(never_t, s, e, true));
            }
        }
        r
    }

    /// Consumes characters until one passes the test `quit` (which is called once per
    /// character, in order) or the text ends. `None` if it consumed none.
    pub fn chomp<F: Fn(char) -> bool>(&mut self, quit: F) -> (r: Option<ChompResult>)
        requires
            old(self).wf(),
            forall|c: char| call_requires(quit, (c,)),
        ensures
            final(self).code == old(self).code,
            final(self).settled_at(final(self).cursor()),
            chomp_outcome(old(self).code@, old(self).cursor(), final(self).cursor(), r),
            old(self).is_eof ==> *final(self) == *old(self),
            forall|j: int|
                old(self).cursor() <= j < final(self).cursor() ==> char_says(
                    quit,
                    old(self).code@[j],
                    false,
                ),
            final(self).cursor() < old(self).code@.len() ==> char_says(
                quit,
                old(self).code@[final(self).cursor()],
                true,
            ),
    {
        let never_t = |t: &str| -> (b: bool)
            ensures
                !b,
            { false };
        let never_p = |t: &str, p: Option<char>| -> (b: bool)
            ensures
                !b,
            { false };
        let r = self.chomp_internal(quit, never_t, never_p);
        proof {
            let s = old(self).code@;
            let e = self.cursor();
            assert forall|j: int| old(self).cursor() <= j < e implies char_says(quit, s[j], false) by {
                assert(goes_on_at(quit, never_t, never_p, s, j));
            }
            if e < s.len() {
                assert(stops_at(quit, never_t, never_p, s, e));
                assert(!text_says(never_t, s, e, true));
                assert(!text_prev_says(never_p, s, e, true));
            }
        }
        r
    }

    /// The loop that all chomps share. At each position before the end, the tests are
    /// called in turn (the character, then the remaining text, then the remaining text
    /// with the character before it) until one says yes; the chomp stops at the first
    /// position where one says yes, or at the end of the text.
    pub fn chomp_internal<
        F: Fn(char) -> bool,
        G: Fn(&str) -> bool,
        H: Fn(&str, Option<char>) -> bool,
    >(&mut self, char_quit: F, str_quit: G, prev_quit: H) -> (r: Option<ChompResult>)
        requires
            old(self).wf(),
            forall|c: char| call_requires(char_quit, (c,)),
            forall|t: &str| call_requires(str_quit, (t,)),
            forall|t: &str, p: Option<char>| call_requires(prev_quit, (t, p)),
        ensures
            final(self).code == old(self).code,
            final(self).settled_at(final(self).cursor()),
            chomp_outcome(old(self).code@, old(self).cursor(), final(self).cursor(), r),
            old(self).is_eof ==> *final(self) == *old(self),
            forall|j: int|
                old(self).cursor() <= j < final(self).cursor() ==> goes_on_at(
                    char_quit,
                    str_quit,
                    prev_quit,
                    old(self).code@,
                    j,
                ),
            final(self).cursor() < old(self).code@.len() ==> stops_at(
                char_quit,
                str_quit,
                prev_quit,
                old(self).code@,
                final(self).cursor(),
            ),
    {
        if self.is_eof {
            return None;
        }
        let ghost s = self.code@;
        let ghost i = self.index as int;
        let n = self.code.unicode_len();
        let start_position = self.position();
        let ghost code0 = self.code;
        proof {
            lemma_line_col_bounds(s, i);
        }
        loop
            invariant
                self.wf(),
                self.code == code0,
                code0 == old(self).code,
                !self.is_eof,
                self.code@ == s,
                n == s.len(),
                i == old(self).cursor(),
                !old(self).is_eof,
                i <= self.index <= n,
                start_position == position_at(s, i),
                forall|c: char| call_requires(char_quit, (c,)),
                forall|t: &str| call_requires(str_quit, (t,)),
                forall|t: &str, p: Option<char>| call_requires(prev_quit, (t, p)),
                forall|j: int|
                    i <= j < self.index ==> goes_on_at(char_quit, str_quit, prev_quit, s, j),
            decreases n - self.index,
        {
            proof {
                lemma_line_col_bounds(s, self.index as int);
            }
            let ghost j = self.index as int;
            let should_quit = match self.peek() {
                None => true,
                Some(ch) => {
                    if char_quit(ch) {
                        true
                    } else {
                        let t = self.text();
                        if str_quit(t) {
                            assert(text_says(str_quit, s, j, true));
                            true
                        } else {
                            assert(text_says(str_quit, s, j, false));
                            let prev = if self.index > 0 {
                                Some(self.code.get_char(self.index - 1))
                            } else {
                                None
                            };
                            assert(prev == prev_char(s, j));
                            let by_prev = prev_quit(t, prev);
                            if by_prev {
                                assert(text_prev_says(prev_quit, s, j, true));
                            } else {
                                assert(text_prev_says(prev_quit, s, j, false));
                            }
                            by_prev
                        }
                    }
                },
            };
            if should_quit {
                let end_position = self.position();
                assert(end_position == position_at(s, j));
                if self.index >= n {
                    // There is no next character: step past the end.
                    self.next();
                }
                if end_position.index == start_position.index {
                    return None;
                }
                return Some(
                    ChompResult {
                        span: Span { start_pos: start_position, end_pos: end_position },
                        hit_eof: self.is_eof,
                    },
                );
            }
            self.next();
        }
    }

    /// The text of a chomp result.
    pub fn value(&self, chomp_result: ChompResult) -> (r: &'a str)
        requires
            chomp_result.span.start_pos.index <= chomp_result.span.end_pos.index
                <= self.code@.len(),
        ensures
            r@ == self.code@.subrange(
                chomp_result.span.start_pos.index as int,
                chomp_result.span.end_pos.index as int,
            ),
    {
        self.code.substring_char(chomp_result.span.start_pos.index, chomp_result.span.end_pos.index)
    }
}

} // verus!
