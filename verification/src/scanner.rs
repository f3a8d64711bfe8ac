//! A simpler scanner: it consumes characters up to and including the first one that
//! passes a test, and reports the text before that character.
use vstd::prelude::*;

verus! {

/// What one call of `consume_till` consumed: the text before the character that stopped
/// it, and that text's start and end indices.
#[derive(Debug)]
pub struct ConsumeResult<'a> {
    pub value: &'a str,
    pub start_index: usize,
    pub end_index: usize,
}

/// A cursor over `code`: `pos` is the index of the next character; `is_eof` is set once
/// a step has found no character left.
pub struct Scanner<'a> {
    pub code: &'a str,
    pub pos: usize,
    pub is_eof: bool,
}

impl<'a> Scanner<'a> {
    /// The cursor lies within the text, at its end once the end has been hit.
    pub open spec fn wf(&self) -> bool {
        &&& self.code@.len() < usize::MAX
        &&& self.pos <= self.code@.len()
        &&& self.is_eof ==> self.pos == self.code@.len()
    }

    /// The first index from `p` on whose character passes the test (as the calls of
    /// `quit` answered), or the end of the text.
    pub open spec fn stops_at<F: Fn(char) -> bool>(&self, quit: F, p: int, e: int) -> bool {
        &&& p <= e <= self.code@.len()
        &&& forall|k: int| p <= k < e ==> call_ensures(quit, (self.code@[k],), false)
        &&& e < self.code@.len() ==> call_ensures(quit, (self.code@[e],), true)
    }

    /// A scanner at the start of `code`.
    pub fn new(code: &'a str) -> (r: Scanner<'a>)
        requires
            code@.len() < usize::MAX,
        ensures
            r.code == code,
            r.pos == 0,
            !r.is_eof,
            r.wf(),
    {
        Scanner { code: code, pos: 0, is_eof: false }
    }

    /// Steps over the next character and returns it with its index, or marks the scanner
    /// as at the end and returns `None`.
    pub fn next(&mut self) -> (r: Option<(usize, char)>)
        requires
            old(self).wf(),
            !old(self).is_eof,
        ensures
            final(self).wf(),
            final(self).code == old(self).code,
            old(self).pos < old(self).code@.len() ==> {
                &&& r == Some((old(self).pos, old(self).code@[old(self).pos as int]))
                &&& final(self).pos == old(self).pos + 1
                &&& !final(self).is_eof
            },
            old(self).pos >= old(self).code@.len() ==> {
                &&& r is None
                &&& final(self).pos == old(self).pos
                &&& final(self).is_eof
            },
    {
        if self.pos >= self.code.unicode_len() {
            self.is_eof = true;
            return None;
        }
        let i = self.pos;
        let ch = self.code.get_char(i);
        self.pos = self.pos + 1;
        Some((i, ch))
    }

    /// Consumes characters up to and including the first one that passes `quit` (called
    /// once per character, in order), or to the end of the text; returns the text from
    /// where it started up to, not including, that character.
    pub fn consume_till<F: Fn(char) -> bool>(&mut self, quit: F) -> (r: ConsumeResult<'a>)
        requires
            old(self).wf(),
            !old(self).is_eof,
            old(self).pos < old(self).code@.len(),
            forall|c: char| call_requires(quit, (c,)),
        ensures
            final(self).wf(),
            final(self).code == old(self).code,
            r.start_index == old(self).pos,
            old(self).stops_at(quit, old(self).pos as int, r.end_index as int),
            r.value@ == old(self).code@.subrange(old(self).pos as int, r.end_index as int),
            r.end_index < old(self).code@.len() ==> !final(self).is_eof && final(self).pos == r.end_index + 1,
            r.end_index == old(self).code@.len() ==> final(self).is_eof,
    {
        let ghost p = self.pos as int;
        let ghost s = self.code@;
        let mut start_index: Option<usize> = None;
        let mut end_index: Option<usize> = None;
        loop
            invariant
                self.wf(),
                !self.is_eof,
                self.code == old(self).code,
                s == self.code@,
                p == old(self).pos,
                p <= self.pos,
                start_index == if self.pos > p {
                    Some(p as usize)
                } else {
                    None::<usize>
                },
                end_index == if self.pos > p {
                    Some((self.pos - 1) as usize)
                } else {
                    None::<usize>
                },
                p < s.len(),
                forall|c: char| call_requires(quit, (c,)),
                forall|k: int| p <= k < self.pos ==> call_ensures(quit, (s[k],), false),
            decreases s.len() - self.pos,
        {
            let ghost before = self.pos;
            let should_quit = match self.next() {
                None => {
                    end_index = Some(end_index.unwrap() + 1);
                    true
                },
                Some((i, ch)) => {
                    if start_index.is_none() {
                        start_index = Some(i);
                    }
                    end_index = Some(i);
                    quit(ch)
                },
            };
            if should_quit {
                let start = start_index.unwrap();
                let end = end_index.unwrap();
                return ConsumeResult {
                    value: self.code.substring_char(start, end),
                    start_index: start,
                    end_index: end,
                };
            }
        }
    }
}

} // verus!
