//! The lexer: turns source text into tokens (numbers, words, operators, white space,
//! newlines with their indentation, comments, here-comments, and strings with
//! interpolated code), each with the span of text it covers.
use vstd::prelude::*;
use crate::chomp::{
    Chomper, Span, ToSpan, span_between, char_says, text_says,
    text_prev_says,
};
use crate::text::{
    scan_until, text_at, prev_char, starts_with, is_whitespace_spec, is_digit_spec,
    is_whitespace, is_digit, str_starts_with, lemma_scan_until, lemma_scan_until_unique,
    lemma_starts_with,
};

verus! {

/// The kinds of token.
#[derive(Clone, Copy, Debug, PartialEq, Eq, Structural)]
pub enum TokenTag {
    Number,
    Whitespace,
    Operator,
    Herecomment,
    Comment,
    Word,
    NewlineAndIndent,
    OpenQuote,
    StringFragment,
    OpenInterpolation,
    InterpolatedCode,
    CloseInterpolation,
    CloseQuote,
}

/// A token: its kind and the span of text it covers.
#[derive(Clone, Copy, Debug, PartialEq, Eq, Structural)]
pub struct Token {
    pub tag: TokenTag,
    pub span: Span,
}

/// Why the lexer gave up on a text. Each of these is an input that the lexer refuses
/// with an error value rather than by stopping the program.
#[derive(Clone, Copy, Debug, PartialEq, Eq, Structural)]
pub enum LexError {
    /// No token starts with the character at this index.
    UnexpectedChar(usize),
    /// A `#` at this index is followed by fewer than two characters.
    TruncatedComment(usize),
    /// The `###` at this index is immediately followed by another `###`.
    EmptyHerecomment(usize),
    /// The text ended inside a string.
    UnterminatedString,
    /// The text ended inside interpolated code.
    UnterminatedInterpolation,
}

impl ToSpan for Token {
    open spec fn span_of(&self) -> Span {
        self.span
    }

    fn to_span(&self) -> (r: &Span) {
        &self.span
    }
}

impl TokenTag {
    /// A token of this kind covering the span of `to_span`.
    pub fn at<T: ToSpan>(&self, to_span: T) -> (r: Token)
        ensures
            r == (Token { tag: *self, span: to_span.span_of() }),
    {
        Token::make(*self, *to_span.to_span())
    }

    /// A token of this kind covering the span of `maybe_to_span`, which must be there.
    pub fn assert_at<T: ToSpan>(&self, maybe_to_span: Option<T>) -> (r: Token)
        requires
            maybe_to_span is Some,
        ensures
            r == (Token { tag: *self, span: maybe_to_span.unwrap().span_of() }),
    {
        self.at(maybe_to_span.unwrap())
    }
}

/// The name of a token kind, as the token's text shows it.
pub open spec fn tag_name(tag: TokenTag) -> Seq<char> {
    match tag {
        TokenTag::Number => "Number"@,
        TokenTag::Whitespace => "Whitespace"@,
        TokenTag::Operator => "Operator"@,
        TokenTag::Herecomment => "Herecomment"@,
        TokenTag::Comment => "Comment"@,
        TokenTag::Word => "Word"@,
        TokenTag::NewlineAndIndent => "NewlineAndIndent"@,
        TokenTag::OpenQuote => "OpenQuote"@,
        TokenTag::StringFragment => "StringFragment"@,
        TokenTag::OpenInterpolation => "OpenInterpolation"@,
        TokenTag::InterpolatedCode => "InterpolatedCode"@,
        TokenTag::CloseInterpolation => "CloseInterpolation"@,
        TokenTag::CloseQuote => "CloseQuote"@,
    }
}

/// How a token shows itself: `[`, its kind, a space, its text, `]`.
pub open spec fn rendered(tag: TokenTag, region: Seq<char>) -> Seq<char> {
    "["@ + tag_name(tag) + " "@ + region + "]"@
}

fn tag_name_str(tag: TokenTag) -> (r: &'static str)
    ensures
        r@ == tag_name(tag),
{
    match tag {
        TokenTag::Number => "Number",
        TokenTag::Whitespace => "Whitespace",
        TokenTag::Operator => "Operator",
        TokenTag::Herecomment => "Herecomment",
        TokenTag::Comment => "Comment",
        TokenTag::Word => "Word",
        TokenTag::NewlineAndIndent => "NewlineAndIndent",
        TokenTag::OpenQuote => "OpenQuote",
        TokenTag::StringFragment => "StringFragment",
        TokenTag::OpenInterpolation => "OpenInterpolation",
        TokenTag::InterpolatedCode => "InterpolatedCode",
        TokenTag::CloseInterpolation => "CloseInterpolation",
        TokenTag::CloseQuote => "CloseQuote",
    }
}

/// Whatever can hand out the source text that spans refer to.
pub trait SourceCodeProvider {
    spec fn source_view(&self) -> Seq<char>;

    fn get_source_code(&self) -> (r: &str)
        ensures
            r@ == self.source_view(),
    ;
}

impl<'s> SourceCodeProvider for &'s str {
    open spec fn source_view(&self) -> Seq<char> {
        (*self)@
    }

    fn get_source_code(&self) -> (r: &str) {
        *self
    }
}

impl<'c> SourceCodeProvider for Chomper<'c> {
    open spec fn source_view(&self) -> Seq<char> {
        self.code@
    }

    fn get_source_code(&self) -> (r: &str) {
        self.code
    }
}

impl<'l> SourceCodeProvider for Lexer<'l> {
    open spec fn source_view(&self) -> Seq<char> {
        self.chomper.code@
    }

    fn get_source_code(&self) -> (r: &str) {
        self.chomper.code
    }
}

/// The span lies within `text`.
pub open spec fn span_within(span: Span, text: Seq<char>) -> bool {
    span.start_pos.index <= span.end_pos.index <= text.len()
}

/// The text that `span` covers.
pub open spec fn region_of(span: Span, text: Seq<char>) -> Seq<char> {
    text.subrange(span.start_pos.index as int, span.end_pos.index as int)
}

/// The text of `source` that `span` covers.
pub fn get_region<'x, TSource: SourceCodeProvider, TSpan: ToSpan>(
    source: &'x TSource,
    span: TSpan,
) -> (r: &'x str)
    requires
        span_within(span.span_of(), source.source_view()),
    ensures
        r@ == region_of(span.span_of(), source.source_view()),
{
    let span = span.to_span();
    source.get_source_code().substring_char(span.start_pos.index, span.end_pos.index)
}

/// Whatever can hand out the text that a span covers.
pub trait FullSource {
    spec fn full_view(&self) -> Seq<char>;

    fn get_slice<'x, TSpan: ToSpan, TSource: SourceCodeProvider>(&'x self, span: &TSpan) -> (r:
        &'x str)
        requires
            span_within(span.span_of(), self.full_view()),
        ensures
            r@ == region_of(span.span_of(), self.full_view()),
    ;
}

impl<'coolness, T: SourceCodeProvider> FullSource for &'coolness T {
    open spec fn full_view(&self) -> Seq<char> {
        (**self).source_view()
    }

    fn get_slice<'x, TSpan: ToSpan, TSource: SourceCodeProvider>(&'x self, span: &TSpan) -> (r:
        &'x str) {
        let span = span.to_span();
        (**self).get_source_code().substring_char(span.start_pos.index, span.end_pos.index)
    }
}

impl Token {
    /// A token of kind `tag` covering `span`.
    pub fn make(tag: TokenTag, span: Span) -> (r: Token)
        ensures
            r == (Token { tag: tag, span: span }),
    {
        Token { tag: tag, span: span }
    }

    /// The token as text: `[`, its kind, a space, the text it covers in `code`, `]`.
    pub fn text<TSource: SourceCodeProvider>(&self, code: &TSource) -> (r: String)
        requires
            span_within(self.span, code.source_view()),
        ensures
            r@ == rendered(self.tag, region_of(self.span, code.source_view())),
    {
        let region = get_region(code, *self);
        let mut out = String::from_str("[");
        out.append(tag_name_str(self.tag));
        out.append(" ");
        out.append(region);
        out.append("]");
        out
    }
}

// ---------------------------------------------------------------------------------------
// What the lexer does, stated over the source text.
// ---------------------------------------------------------------------------------------

/// A character that can start a word.
pub open spec fn word_first_spec(c: char) -> bool {
    c == '$' || c == '_' || ('A' <= c && c <= 'Z') || ('a' <= c && c <= 'z')
}

/// A character that can continue a word.
pub open spec fn word_rest_spec(c: char) -> bool {
    word_first_spec(c) || ('0' <= c && c <= '9')
}

pub open spec fn triple_hash() -> Seq<char> {
    seq!['#', '#', '#']
}

/// A word ends before the first character that cannot continue it.
pub open spec fn word_stop(s: Seq<char>) -> spec_fn(int) -> bool {
    |k: int| !word_rest_spec(s[k])
}

/// The indentation after a newline ends at the next newline or the next character that
/// is not white space.
pub open spec fn indent_stop(s: Seq<char>) -> spec_fn(int) -> bool {
    |k: int| s[k] == '\n' || !is_whitespace_spec(s[k])
}

/// White space ends at a newline or at a character that is not white space.
pub open spec fn whitespace_stop(s: Seq<char>) -> spec_fn(int) -> bool {
    |k: int| !is_whitespace_spec(s[k]) || s[k] == '\n'
}

/// A number ends before the first character that is not a digit.
pub open spec fn number_stop(s: Seq<char>) -> spec_fn(int) -> bool {
    |k: int| !is_digit_spec(s[k])
}

/// An operator ends before the first character other than `+` and `-`.
pub open spec fn operator_stop(s: Seq<char>) -> spec_fn(int) -> bool {
    |k: int| s[k] != '+' && s[k] != '-'
}

/// A comment ends before the next newline.
pub open spec fn comment_stop(s: Seq<char>) -> spec_fn(int) -> bool {
    |k: int| s[k] == '\n'
}

/// The body of a here-comment ends where `###` begins.
pub open spec fn herecomment_stop(s: Seq<char>) -> spec_fn(int) -> bool {
    |k: int| starts_with(text_at(s, k), triple_hash())
}

/// A fragment of a string ends at a `"` that does not follow a backslash, or at `#{`.
pub open spec fn quote_stop(s: Seq<char>) -> spec_fn(int) -> bool {
    |k: int|
        (starts_with(text_at(s, k), seq!['"']) && prev_char(s, k) != Some('\\')) || starts_with(
            text_at(s, k),
            seq!['#', '{'],
        )
}

/// Interpolated code ends at `}` or `"`.
pub open spec fn code_stop(s: Seq<char>) -> spec_fn(int) -> bool {
    |k: int| s[k] == '}' || s[k] == '"'
}

/// The token of kind `tag` covering `s[i..j]`.
pub open spec fn token_at(s: Seq<char>, tag: TokenTag, i: int, j: int) -> Token {
    Token { tag: tag, span: span_between(s, i, j) }
}

/// The `###` at `i` is immediately followed by another `###`.
pub open spec fn herecomment_is_empty(s: Seq<char>, i: int) -> bool {
    i + 3 < s.len() && starts_with(text_at(s, i + 3), triple_hash())
}

/// Where a here-comment that starts at `i` ends: after the closing `###`, or at the end
/// of the text if there is none.
pub open spec fn herecomment_end(s: Seq<char>, i: int) -> int {
    if i + 3 >= s.len() {
        s.len() as int
    } else {
        let b = scan_until(s, i + 3, herecomment_stop(s));
        if b >= s.len() {
            s.len() as int
        } else {
            b + 3
        }
    }
}

/// Where the comment that starts with the `#` at `i` ends.
pub open spec fn comment_end(s: Seq<char>, i: int) -> int {
    if starts_with(text_at(s, i), triple_hash()) {
        herecomment_end(s, i)
    } else {
        scan_until(s, i, comment_stop(s))
    }
}

/// The comment token that starts with the `#` at `i` (there being at least three
/// characters from `i` on).
pub open spec fn comment_token(s: Seq<char>, i: int) -> Token {
    if starts_with(text_at(s, i), triple_hash()) {
        token_at(s, TokenTag::Herecomment, i, comment_end(s, i))
    } else {
        token_at(s, TokenTag::Comment, i, comment_end(s, i))
    }
}

/// One step of lexing a string at nesting `depth` (odd: inside a string; even: inside
/// interpolated code) from `j` on: the tokens up to and including the next delimiter,
/// where the step ends, the new depth, and the error if the text ends first.
pub open spec fn string_step(s: Seq<char>, j: int, depth: nat) -> (Seq<Token>, int, nat, Option<LexError>) {
    if depth % 2 == 1 {
        let e = scan_until(s, j, quote_stop(s));
        let frag: Seq<Token> = if e > j {
            seq![token_at(s, TokenTag::StringFragment, j, e)]
        } else {
            seq![]
        };
        if e >= s.len() {
            (seq![], s.len() as int, depth, Some(LexError::UnterminatedString))
        } else if s[e] == '"' {
            (frag + seq![token_at(s, TokenTag::CloseQuote, e, e + 1)], e + 1, (depth - 1) as nat, None)
        } else {
            (frag + seq![token_at(s, TokenTag::OpenInterpolation, e, e + 2)], e + 2, depth + 1, None)
        }
    } else {
        let e = scan_until(s, j, code_stop(s));
        let frag: Seq<Token> = if e > j {
            seq![token_at(s, TokenTag::InterpolatedCode, j, e)]
        } else {
            seq![]
        };
        if e >= s.len() {
            (seq![], s.len() as int, depth, Some(LexError::UnterminatedInterpolation))
        } else if s[e] == '}' {
            (frag + seq![token_at(s, TokenTag::CloseInterpolation, e, e + 1)], e + 1, (depth - 1) as nat, None)
        } else {
            (frag + seq![token_at(s, TokenTag::OpenQuote, e, e + 1)], e + 1, depth + 1, None)
        }
    }
}

/// The tokens of the rest of a string from `j` on, at nesting `depth` (0: done), where
/// the lexing of the string ends, and the error if it fails.
pub open spec fn string_from(s: Seq<char>, j: int, depth: nat) -> (Seq<Token>, int, Option<LexError>)
    decreases s.len() - j,
{
    if depth == 0 || j < 0 || j > s.len() {
        (seq![], j, None)
    } else {
        let step = string_step(s, j, depth);
        if step.3 is Some {
            (step.0, step.1, step.3)
        } else {
            proof {
                lemma_string_step_advances(s, j, depth);
            }
            let rest = string_from(s, step.1, step.2);
            (step.0 + rest.0, rest.1, rest.2)
        }
    }
}

/// The tokens of the string that opens with the `"` at `i`, where it ends, and the error
/// if it fails.
pub open spec fn string_lex(s: Seq<char>, i: int) -> (Seq<Token>, int, Option<LexError>) {
    let rest = string_from(s, i + 1, 1);
    (seq![token_at(s, TokenTag::OpenQuote, i, i + 1)] + rest.0, rest.1, rest.2)
}

/// The tokens that the character at `i` starts, and where lexing goes on; or why the
/// lexer gives up there.
pub open spec fn lex_step(s: Seq<char>, i: int) -> Result<(Seq<Token>, int), LexError> {
    let c = s[i];
    if word_first_spec(c) {
        let e = scan_until(s, i + 1, word_stop(s));
        Ok((seq![token_at(s, TokenTag::Word, i, e)], e))
    } else if c == '\n' {
        let e = scan_until(s, i + 1, indent_stop(s));
        Ok((seq![token_at(s, TokenTag::NewlineAndIndent, i, e)], e))
    } else if c == '"' {
        let r = string_lex(s, i);
        match r.2 {
            Some(err) => Err(err),
            None => Ok((r.0, r.1)),
        }
    } else if is_whitespace_spec(c) {
        let e = scan_until(s, i, whitespace_stop(s));
        Ok((seq![token_at(s, TokenTag::Whitespace, i, e)], e))
    } else if is_digit_spec(c) {
        let e = scan_until(s, i, number_stop(s));
        Ok((seq![token_at(s, TokenTag::Number, i, e)], e))
    } else if c == '+' || c == '-' {
        let e = scan_until(s, i, operator_stop(s));
        Ok((seq![token_at(s, TokenTag::Operator, i, e)], e))
    } else if c == '#' {
        if i + 3 > s.len() {
            Err(LexError::TruncatedComment(i as usize))
        } else if starts_with(text_at(s, i), triple_hash()) && herecomment_is_empty(s, i) {
            Err(LexError::EmptyHerecomment(i as usize))
        } else {
            Ok((seq![comment_token(s, i)], comment_end(s, i)))
        }
    } else {
        Err(LexError::UnexpectedChar(i as usize))
    }
}

/// Where a fragment of a string stops, there is either a `"` or `#{`.
pub proof fn lemma_quote_stop_cases(s: Seq<char>, e: int)
    requires
        0 <= e < s.len(),
        quote_stop(s)(e),
    ensures
        s[e] == '"' || (e + 2 <= s.len() && s[e] == '#' && s[e + 1] == '{'),
{
    let t = text_at(s, e);
    if starts_with(t, seq!['"']) {
        lemma_starts_with(t, seq!['"']);
        assert(t[0] == '"');
    } else {
        lemma_starts_with(t, seq!['#', '{']);
        assert(t[0] == '#');
        assert(t[1] == '{');
    }
}

/// A chomp by a character test that answers as `stop` does ends where `scan_until` does.
pub proof fn lemma_char_chomp_end<F: Fn(char) -> bool>(
    f: F,
    s: Seq<char>,
    i: int,
    e: int,
    stop: spec_fn(int) -> bool,
)
    requires
        0 <= i <= e <= s.len(),
        forall|j: int| i <= j < e ==> char_says(f, s[j], false),
        e < s.len() ==> char_says(f, s[e], true),
        forall|j: int, b: bool| 0 <= j < s.len() && #[trigger] char_says(f, s[j], b) ==> b == stop(j),
    ensures
        scan_until(s, i, stop) == e,
{
    assert forall|j: int| i <= j < e implies !#[trigger] stop(j) by {
        assert(char_says(f, s[j], false));
    }
    lemma_scan_until_unique(s, i, e, stop);
}

/// Every step of the lexer that succeeds consumes at least one character.
pub proof fn lemma_lex_step_advances(s: Seq<char>, i: int)
    requires
        0 <= i < s.len(),
    ensures
        lex_step(s, i) matches Ok((toks, j)) ==> i < j <= s.len(),
{
    let c = s[i];
    if word_first_spec(c) {
        lemma_scan_until(s, i + 1, word_stop(s));
    } else if c == '\n' {
        lemma_scan_until(s, i + 1, indent_stop(s));
    } else if c == '"' {
        lemma_string_from_bounds(s, i + 1, 1);
    } else if is_whitespace_spec(c) {
        lemma_scan_until(s, i, whitespace_stop(s));
    } else if is_digit_spec(c) {
        lemma_scan_until(s, i, number_stop(s));
    } else if c == '+' || c == '-' {
        lemma_scan_until(s, i, operator_stop(s));
    } else if c == '#' && i + 3 <= s.len() {
        lemma_scan_until(s, i, comment_stop(s));
        if i + 3 < s.len() {
            lemma_scan_until(s, i + 3, herecomment_stop(s));
        }
    }
}

/// A step of lexing a string that does not fail consumes at least one character.
pub proof fn lemma_string_step_advances(s: Seq<char>, j: int, depth: nat)
    requires
        0 <= j <= s.len(),
        depth > 0,
    ensures
        string_step(s, j, depth).3 is None ==> j < string_step(s, j, depth).1 <= s.len(),
        string_step(s, j, depth).3 is None ==> string_step(s, j, depth).2 <= depth + 1,
        string_step(s, j, depth).3 is Some ==> string_step(s, j, depth).0 == Seq::<Token>::empty(),
{
    if depth % 2 == 1 {
        let e = scan_until(s, j, quote_stop(s));
        lemma_scan_until(s, j, quote_stop(s));
        if e < s.len() && s[e] != '"' {
            lemma_quote_stop_cases(s, e);
        }
    } else {
        lemma_scan_until(s, j, code_stop(s));
    }
}

/// A string that lexes without error ends between where it started and the end.
pub proof fn lemma_string_from_bounds(s: Seq<char>, j: int, depth: nat)
    requires
        0 <= j <= s.len(),
    ensures
        string_from(s, j, depth).2 is None ==> j <= string_from(s, j, depth).1 <= s.len(),
    decreases s.len() - j,
{
    if depth > 0 {
        lemma_string_step_advances(s, j, depth);
        let step = string_step(s, j, depth);
        if step.3 is None {
            lemma_string_from_bounds(s, step.1, step.2);
        }
    }
}

/// `toks` followed by the tokens of `rest`, or the error of `rest`.
pub open spec fn prepend(toks: Seq<Token>, rest: Result<Seq<Token>, LexError>) -> Result<Seq<Token>, LexError> {
    match rest {
        Ok(more) => Ok(toks + more),
        Err(err) => Err(err),
    }
}

pub proof fn lemma_prepend_twice(a: Seq<Token>, b: Seq<Token>, rest: Result<Seq<Token>, LexError>)
    ensures
        prepend(a, prepend(b, rest)) == prepend(a + b, rest),
{
    if let Ok(more) = rest {
        assert(a + (b + more) =~= (a + b) + more);
    }
}

/// The tokens of the text from `i` on, or why the lexer gives up.
pub open spec fn lex_from(s: Seq<char>, i: int) -> Result<Seq<Token>, LexError>
    decreases s.len() - i,
{
    if i < 0 || i >= s.len() {
        Ok(seq![])
    } else {
        proof {
            lemma_lex_step_advances(s, i);
        }
        match lex_step(s, i) {
            Err(err) => Err(err),
            Ok((toks, j)) => prepend(toks, lex_from(s, j)),
        }
    }
}

/// A lexer over some source text.
pub struct Lexer<'a> {
    pub chomper: Chomper<'a>,
}

impl<'a> Lexer<'a> {
    /// The source text.
    pub open spec fn source(&self) -> Seq<char> {
        self.chomper.code@
    }

    /// The index of the next character.
    pub open spec fn here(&self) -> int {
        self.chomper.index as int
    }

    /// The lexer stands before a character, at index `here()`.
    pub open spec fn before_char(&self) -> bool {
        &&& self.chomper.wf()
        &&& !self.chomper.is_eof
        &&& self.chomper.index < self.chomper.code@.len()
    }

    /// `new` is `old` moved on to `end`, having produced `r`, a token of kind `tag`
    /// covering the text from where `old` stood to `end`.
    pub open spec fn produced(old: Lexer<'a>, new: Lexer<'a>, r: Option<Token>, tag: TokenTag, end: int) -> bool {
        &&& new.chomper.code == old.chomper.code
        &&& new.chomper.settled_at(end)
        &&& r == Some(token_at(old.source(), tag, old.here(), end))
    }

    /// A lexer at the start of `code`.
    pub fn new(code: &'a str) -> (r: Lexer<'a>)
        requires
            code@.len() < usize::MAX,
        ensures
            r.chomper.code == code,
            r.chomper.index == 0,
            !r.chomper.is_eof,
            r.chomper.wf(),
    {
        Lexer { chomper: Chomper::new(code) }
    }

    /// Lexes the text from where the lexer stands to the end. Where the text holds a
    /// character that no token starts with, a `#` with fewer than two characters after
    /// it, a `###` followed at once by another `###`, or a string or interpolated code
    /// that the text ends inside of, lexing stops and the matching `LexError` is returned
    /// in place of the tokens (these inputs have no tokens; the lexer refuses them with an
    /// error value instead of panicking).
    pub fn lex(&mut self) -> (r: Result<Vec<Token>, LexError>)
        requires
            old(self).chomper.wf(),
        ensures
            final(self).chomper.code == old(self).chomper.code,
            final(self).chomper.wf(),
            match r {
                Ok(tokens) => lex_from(old(self).source(), old(self).chomper.cursor()) == Ok::<Seq<Token>, LexError>(tokens@)
                    && final(self).chomper.cursor() == old(self).source().len(),
                Err(err) => lex_from(old(self).source(), old(self).chomper.cursor()) == Err::<Seq<Token>, LexError>(err),
            },
    {
        let ghost s = self.source();
        let ghost i0 = self.chomper.cursor();
        let ghost code0 = self.chomper.code;
        let n = self.chomper.code.unicode_len();
        let mut tokens: Vec<Token> = Vec::new();
        loop
            invariant
                self.chomper.wf(),
                self.chomper.code == code0,
                code0 == old(self).chomper.code,
                s == code0@,
                n == s.len(),
                i0 == old(self).chomper.cursor(),
                lex_from(s, i0) == prepend(tokens@, lex_from(s, self.chomper.cursor())),
            decreases n - self.chomper.cursor(),
        {
            let ghost j = self.chomper.cursor();
            let ghost before = tokens@;
            if self.chomper.is_eof {
                proof {
                    assert(tokens@ + seq![] =~= tokens@);
                }
                return Ok(tokens);
            }
            if self.chomper.peek().is_none() {
                proof {
                    assert(tokens@ + seq![] =~= tokens@);
                }
                return Ok(tokens);
            }
            match self.lex_token(&mut tokens) {
                Err(err) => {
                    return Err(err);
                },
                Ok(()) => {},
            }
            proof {
                lemma_lex_step_advances(s, j);
                let (toks, e) = lex_step(s, j).unwrap();
                lemma_prepend_twice(before, toks, lex_from(s, e));
            }
        }
    }

    /// Lexes the token (or, for a string, the tokens) that the next character starts,
    /// appending them to `tokens`.
    fn lex_token(&mut self, tokens: &mut Vec<Token>) -> (r: Result<(), LexError>)
        requires
            old(self).before_char(),
        ensures
            final(self).chomper.code == old(self).chomper.code,
            final(self).chomper.wf(),
            match lex_step(old(self).source(), old(self).here()) {
                Ok((toks, e)) => r is Ok && final(tokens)@ == old(tokens)@ + toks
                    && final(self).chomper.settled_at(e),
                Err(err) => r == Err::<(), LexError>(err),
            },
    {
        let ghost s = self.source();
        let ghost j = self.here();
        let ghost before = tokens@;
        let n = self.chomper.code.unicode_len();
        let c = self.chomper.peek().unwrap();
        let index = self.chomper.index;
        let token = if Lexer::is_valid_first_char_of_word(c) {
            self.get_word()
        } else if c == '\n' {
            self.process_newline()
        } else if c == '"' {
            match self.process_double_quote(tokens) {
                Ok(t) => t,
                Err(err) => {
                    return Err(err);
                },
            }
        } else if is_whitespace(c) {
            self.get_whitespace()
        } else if is_digit(c) {
            self.get_number()
        } else if c == '+' || c == '-' {
            self.get_operator()
        } else if c == '#' {
            if n - index < 3 {
                return Err(LexError::TruncatedComment(index));
            }
            proof {
                reveal_strlit("###");
            }
            if str_starts_with(self.chomper.text(), "###") && index + 3 < n && str_starts_with(
                self.chomper.code.substring_char(index + 3, n),
                "###",
            ) {
                return Err(LexError::EmptyHerecomment(index));
            }
            self.get_comment()
        } else {
            return Err(LexError::UnexpectedChar(index));
        };
        if let Some(t) = token {
            tokens.push(t);
        }
        proof {
            let (toks, e) = lex_step(s, j).unwrap();
            assert(tokens@ =~= before + toks);
        }
        Ok(())
    }

    /// Lexes a word: a character that can start one, then all the characters that can
    /// continue it.
    pub fn get_word(&mut self) -> (r: Option<Token>)
        requires
            old(self).before_char(),
            word_first_spec(old(self).source()[old(self).here()]),
        ensures
            Self::produced(*old(self), *final(self), r, TokenTag::Word, scan_until(old(self).source(), old(self).here() + 1, word_stop(old(self).source()))),
    {
        let ghost s = self.source();
        let ghost i = self.here();
        let first = self.chomper.chomp_count(1).unwrap();
        let not_rest = |c: char| -> (b: bool)
            ensures
                b == !word_rest_spec(c),
            { !Lexer::is_valid_subsequent_char_of_word(c) };
        let rest = self.chomper.chomp(not_rest);
        proof {
            lemma_char_chomp_end(not_rest, s, i + 1, self.chomper.cursor(), word_stop(s));
        }
        let span = (first + rest).span;
        Some(TokenTag::Word.at(span))
    }

    /// Whether `ch` can start a word: `$`, `_` or an ASCII letter.
    pub fn is_valid_first_char_of_word(ch: char) -> (r: bool)
        ensures
            r == word_first_spec(ch),
    {
        ch == '$' || ch == '_' || ('A' <= ch && ch <= 'Z') || ('a' <= ch && ch <= 'z')
    }

    /// Whether `ch` can continue a word: a character that can start one, or an ASCII
    /// digit.
    pub fn is_valid_subsequent_char_of_word(ch: char) -> (r: bool)
        ensures
            r == word_rest_spec(ch),
    {
        ch == '$' || ch == '_' || ('a' <= ch && ch <= 'z') || ('A' <= ch && ch <= 'Z') || ('0'
            <= ch && ch <= '9')
    }

    /// Lexes white space up to a newline or a character that is not white space.
    pub fn get_whitespace(&mut self) -> (r: Option<Token>)
        requires
            old(self).before_char(),
            is_whitespace_spec(old(self).source()[old(self).here()]),
            old(self).source()[old(self).here()] != '\n',
        ensures
            Self::produced(*old(self), *final(self), r, TokenTag::Whitespace, scan_until(old(self).source(), old(self).here(), whitespace_stop(old(self).source()))),
    {
        let ghost s = self.source();
        let ghost i = self.here();
        let stop = |ch: char| -> (b: bool)
            ensures
                b == (!is_whitespace_spec(ch) || ch == '\n'),
            { !is_whitespace(ch) || ch == '\n' };
        let cr = self.chomper.chomp(stop);
        proof {
            lemma_char_chomp_end(stop, s, i, self.chomper.cursor(), whitespace_stop(s));
        }
        Some(TokenTag::Whitespace.assert_at(cr))
    }

    /// Lexes a newline and the indentation after it: white space up to the next newline or
    /// character that is not white space.
    pub fn process_newline(&mut self) -> (r: Option<Token>)
        requires
            old(self).before_char(),
            old(self).source()[old(self).here()] == '\n',
        ensures
            Self::produced(*old(self), *final(self), r, TokenTag::NewlineAndIndent, scan_until(old(self).source(), old(self).here() + 1, indent_stop(old(self).source()))),
    {
        let ghost s = self.source();
        let ghost i = self.here();
        proof {
            reveal_strlit("\n");
            assert(text_at(s, i).subrange(0, 1) =~= "\n"@);
        }
        let newline = self.chomper.expect("\n");
        let stop = |c: char| -> (b: bool)
            ensures
                b == (c == '\n' || !is_whitespace_spec(c)),
            { c == '\n' || !is_whitespace(c) };
        let indent = self.chomper.chomp(stop);
        proof {
            lemma_char_chomp_end(stop, s, i + 1, self.chomper.cursor(), indent_stop(s));
        }
        Some(TokenTag::NewlineAndIndent.at(newline + indent))
    }

    /// Lexes a run of digits.
    pub fn get_number(&mut self) -> (r: Option<Token>)
        requires
            old(self).before_char(),
            is_digit_spec(old(self).source()[old(self).here()]),
        ensures
            Self::produced(*old(self), *final(self), r, TokenTag::Number, scan_until(old(self).source(), old(self).here(), number_stop(old(self).source()))),
    {
        let ghost s = self.source();
        let ghost i = self.here();
        let stop = |c: char| -> (b: bool)
            ensures
                b == !is_digit_spec(c),
            { !is_digit(c) };
        let cr = self.chomper.chomp(stop);
        proof {
            lemma_char_chomp_end(stop, s, i, self.chomper.cursor(), number_stop(s));
        }
        Some(TokenTag::Number.assert_at(cr))
    }

    /// Lexes a comment: a here-comment if the text starts with `###`, else the text up to
    /// the next newline.
    pub fn get_comment(&mut self) -> (r: Option<Token>)
        requires
            old(self).before_char(),
            old(self).source()[old(self).here()] == '#',
            old(self).here() + 3 <= old(self).source().len(),
            starts_with(text_at(old(self).source(), old(self).here()), triple_hash())
                ==> !herecomment_is_empty(old(self).source(), old(self).here()),
        ensures
            final(self).chomper.code == old(self).chomper.code,
            final(self).chomper.settled_at(comment_end(old(self).source(), old(self).here())),
            r == Some(comment_token(old(self).source(), old(self).here())),
    {
        let ghost s = self.source();
        let ghost i = self.here();
        proof {
            reveal_strlit("###");
        }
        if str_starts_with(self.chomper.text(), "###") {
            self.get_here_comment()
        } else {
            let stop = |c: char| -> (b: bool)
                ensures
                    b == (c == '\n'),
                { c == '\n' };
            let cr = self.chomper.chomp(stop);
            proof {
                lemma_char_chomp_end(stop, s, i, self.chomper.cursor(), comment_stop(s));
            }
            Some(TokenTag::Comment.assert_at(cr))
        }
    }

    /// Lexes a here-comment: `###`, then everything up to and including the next `###`,
    /// or up to the end of the text if there is none.
    pub fn get_here_comment(&mut self) -> (r: Option<Token>)
        requires
            old(self).before_char(),
            starts_with(text_at(old(self).source(), old(self).here()), triple_hash()),
            !herecomment_is_empty(old(self).source(), old(self).here()),
        ensures
            Self::produced(*old(self), *final(self), r, TokenTag::Herecomment, herecomment_end(old(self).source(), old(self).here())),
    {
        let ghost s = self.source();
        let ghost i = self.here();
        proof {
            reveal_strlit("###");
            lemma_starts_with(text_at(s, i), triple_hash());
        }
        let delimiter = self.chomper.expect("###");
        if delimiter.hit_eof {
            return Some(TokenTag::Herecomment.at(delimiter));
        }
        let hashes = |t: &str| -> (b: bool)
            ensures
                b == starts_with(t@, triple_hash()),
            {
                proof {
                    reveal_strlit("###");
                }
                str_starts_with(t, "###")
            };
        let body = self.chomper.chomp_till_str(hashes);
        proof {
            let e = self.chomper.cursor();
            assert forall|j: int| i + 3 <= j < e implies !#[trigger] herecomment_stop(s)(j) by {
                assert(text_says(hashes, s, j, false));
                let t = choose|t: &str| t@ == text_at(s, j) && #[trigger] call_ensures(hashes, (t,), false);
            }
            if e < s.len() {
                assert(text_says(hashes, s, e, true));
                let t = choose|t: &str| t@ == text_at(s, e) && #[trigger] call_ensures(hashes, (t,), true);
                lemma_starts_with(text_at(s, e), triple_hash());
            }
            lemma_scan_until_unique(s, i + 3, e, herecomment_stop(s));
        }
        let mut cr = body.unwrap();
        cr = delimiter + cr;
        if !cr.hit_eof {
            cr = cr + self.chomper.expect("###");
        }
        Some(TokenTag::Herecomment.at(cr))
    }

    /// Lexes a string that opens with the `"` here, with any interpolated code (`#{` to
    /// `}`, which may hold strings in turn), appending its tokens to `token_list`. If the
    /// text ends inside the string or inside interpolated code, the lexing of the string
    /// stops there and `Err(UnterminatedString)` or `Err(UnterminatedInterpolation)` is
    /// returned in place of a panic, with the chomper at the end of the text.
    pub fn process_double_quote(&mut self, token_list: &mut Vec<Token>) -> (r: Result<
        Option<Token>,
        LexError,
    >)
        requires
            old(self).before_char(),
            old(self).source()[old(self).here()] == '"',
        ensures
            final(self).chomper.code == old(self).chomper.code,
            final(self).chomper.wf(),
            final(token_list)@ == old(token_list)@ + string_lex(old(self).source(), old(self).here()).0,
            match string_lex(old(self).source(), old(self).here()).2 {
                None => r == Ok::<Option<Token>, LexError>(None)
                    && final(self).chomper.settled_at(string_lex(old(self).source(), old(self).here()).1),
                Some(err) => r == Err::<Option<Token>, LexError>(err) && final(self).chomper.is_eof,
            },
    {
        let ghost s = self.source();
        let ghost i = self.here();
        let ghost code0 = self.chomper.code;
        let n = self.chomper.code.unicode_len();
        proof {
            reveal_strlit("\"");
            assert(text_at(s, i).subrange(0, 1) =~= "\""@);
        }
        let open_quote = self.chomper.expect("\"");
        token_list.push(TokenTag::OpenQuote.at(open_quote));
        let mut depth: usize = 1;
        let ghost mut emitted: Seq<Token> = seq![token_at(s, TokenTag::OpenQuote, i, i + 1)];
        loop
            invariant
                self.chomper.wf(),
                self.chomper.code == code0,
                code0 == old(self).chomper.code,
                s == code0@,
                n == s.len(),
                0 <= i < n,
                i == old(self).here(),
                self.chomper.settled_at(self.chomper.cursor()),
                1 <= depth <= self.chomper.cursor(),
                token_list@ == old(token_list)@ + emitted,
                string_lex(s, i).0 == emitted + string_from(s, self.chomper.cursor(), depth as nat).0,
                string_lex(s, i).1 == string_from(s, self.chomper.cursor(), depth as nat).1,
                string_lex(s, i).2 == string_from(s, self.chomper.cursor(), depth as nat).2,
            decreases n - self.chomper.cursor(),
        {
            let ghost j = self.chomper.cursor();
            let ghost before = token_list@;
            let ghost step = string_step(s, j, depth as nat);
            proof {
                lemma_string_step_advances(s, j, depth as nat);
            }
            let stepped = self.string_step(token_list, depth);
            match stepped {
                Err(err) => {
                    proof {
                        assert(string_from(s, j, depth as nat) == (step.0, step.1, step.3));
                        assert(string_lex(s, i).0 =~= emitted);
                        assert(token_list@ =~= old(token_list)@ + emitted);
                    }
                    return Err(err);
                },
                Ok(new_depth) => {
                    proof {
                        let rest = string_from(s, step.1, step.2);
                        assert(string_from(s, j, depth as nat) == (step.0 + rest.0, rest.1, rest.2));
                        assert(token_list@ =~= old(token_list)@ + (emitted + step.0));
                        assert(string_lex(s, i).0 =~= (emitted + step.0) + rest.0);
                        emitted = emitted + step.0;
                    }
                    depth = new_depth;
                    if depth == 0 {
                        return Ok(None);
                    }
                },
            }
        }
    }

    /// One step of lexing a string (see `string_step`), appending its tokens to
    /// `token_list`; returns the new depth.
    fn string_step(&mut self, token_list: &mut Vec<Token>, depth: usize) -> (r: Result<usize, LexError>)
        requires
            old(self).chomper.settled_at(old(self).chomper.cursor()),
            depth >= 1,
            depth <= old(self).chomper.cursor(),
        ensures
            final(self).chomper.code == old(self).chomper.code,
            final(self).chomper.wf(),
            final(token_list)@ == old(token_list)@ + string_step(old(self).source(), old(self).chomper.cursor(), depth as nat).0,
            ({
                let step = string_step(old(self).source(), old(self).chomper.cursor(), depth as nat);
                match step.3 {
                    None => r == Ok::<usize, LexError>(step.2 as usize) && step.2 == r->Ok_0
                        && final(self).chomper.settled_at(step.1),
                    Some(err) => r == Err::<usize, LexError>(err) && final(self).chomper.is_eof,
                }
            }),
    {
        if depth % 2 == 1 {
            self.quote_step(token_list, depth)
        } else {
            self.code_step(token_list, depth)
        }
    }

    /// A step of lexing inside a string: a fragment of it, up to a `"` that closes it or a
    /// `#{` that opens interpolated code.
    fn quote_step(&mut self, token_list: &mut Vec<Token>, depth: usize) -> (r: Result<usize, LexError>)
        requires
            old(self).chomper.settled_at(old(self).chomper.cursor()),
            depth % 2 == 1,
            depth <= old(self).chomper.cursor(),
        ensures
            final(self).chomper.code == old(self).chomper.code,
            final(self).chomper.wf(),
            final(token_list)@ == old(token_list)@ + string_step(old(self).source(), old(self).chomper.cursor(), depth as nat).0,
            ({
                let step = string_step(old(self).source(), old(self).chomper.cursor(), depth as nat);
                match step.3 {
                    None => r == Ok::<usize, LexError>(step.2 as usize) && step.2 == r->Ok_0
                        && final(self).chomper.settled_at(step.1),
                    Some(err) => r == Err::<usize, LexError>(err) && final(self).chomper.is_eof,
                }
            }),
    {
        let ghost s = self.source();
        let ghost j = self.chomper.cursor();
        let ghost n = s.len();
        let ghost before = token_list@;
        let quit = |t: &str, pc: Option<char>| -> (b: bool)
            ensures
                b == ((starts_with(t@, seq!['"']) && pc != Some('\\')) || starts_with(
                    t@,
                    seq!['#', '{'],
                )),
            {
                proof {
                    reveal_strlit("\"");
                    reveal_strlit("#{");
                }
                let after_escape = match pc {
                    Some(p) => p == '\\',
                    None => false,
                };
                (str_starts_with(t, "\"") && !after_escape) || str_starts_with(t, "#{")
            };
        let fragment = self.chomper.chomp_till_str_with_previous(quit);
        let ghost e = self.chomper.cursor();
        proof {
            assert forall|k: int| j <= k < e implies !#[trigger] quote_stop(s)(k) by {
                assert(text_prev_says(quit, s, k, false));
                let t = choose|t: &str|
                    t@ == text_at(s, k) && #[trigger] call_ensures(quit, (t, prev_char(s, k)), false);
            }
            if e < n {
                assert(text_prev_says(quit, s, e, true));
                let t = choose|t: &str|
                    t@ == text_at(s, e) && #[trigger] call_ensures(quit, (t, prev_char(s, e)), true);
            }
            lemma_scan_until_unique(s, j, e, quote_stop(s));
        }
        if self.chomper.is_eof {
            proof {
                assert(token_list@ =~= before + seq![]);
            }
            return Err(LexError::UnterminatedString);
        }
        if let Some(cr) = fragment {
            token_list.push(TokenTag::StringFragment.at(cr));
        }
        proof {
            lemma_quote_stop_cases(s, e);
        }
        let c = self.chomper.peek().unwrap();
        if c == '"' {
            proof {
                reveal_strlit("\"");
                assert(text_at(s, e).subrange(0, 1) =~= "\""@);
            }
            let close = self.chomper.expect("\"");
            token_list.push(TokenTag::CloseQuote.at(close));
            proof {
                assert(token_list@ =~= before + string_step(s, j, depth as nat).0);
            }
            Ok(depth - 1)
        } else {
            proof {
                reveal_strlit("#{");
                assert(text_at(s, e).subrange(0, 2) =~= "#{"@);
            }
            let open = self.chomper.expect("#{");
            token_list.push(TokenTag::OpenInterpolation.at(open));
            proof {
                assert(token_list@ =~= before + string_step(s, j, depth as nat).0);
            }
            Ok(depth + 1)
        }
    }

    /// A step of lexing inside interpolated code: the code, up to a `}` that closes it or a
    /// `"` that opens a string.
    fn code_step(&mut self, token_list: &mut Vec<Token>, depth: usize) -> (r: Result<usize, LexError>)
        requires
            old(self).chomper.settled_at(old(self).chomper.cursor()),
            depth % 2 == 0,
            depth >= 1,
            depth <= old(self).chomper.cursor(),
        ensures
            final(self).chomper.code == old(self).chomper.code,
            final(self).chomper.wf(),
            final(token_list)@ == old(token_list)@ + string_step(old(self).source(), old(self).chomper.cursor(), depth as nat).0,
            ({
                let step = string_step(old(self).source(), old(self).chomper.cursor(), depth as nat);
                match step.3 {
                    None => r == Ok::<usize, LexError>(step.2 as usize) && step.2 == r->Ok_0
                        && final(self).chomper.settled_at(step.1),
                    Some(err) => r == Err::<usize, LexError>(err) && final(self).chomper.is_eof,
                }
            }),
    {
        let ghost s = self.source();
        let ghost j = self.chomper.cursor();
        let ghost n = s.len();
        let ghost before = token_list@;
        let stop = |c: char| -> (b: bool)
            ensures
                b == (c == '}' || c == '"'),
            { c == '}' || c == '"' };
        let fragment = self.chomper.chomp(stop);
        let ghost e = self.chomper.cursor();
        proof {
            lemma_char_chomp_end(stop, s, j, e, code_stop(s));
        }
        if self.chomper.is_eof {
            proof {
                assert(token_list@ =~= before + seq![]);
            }
            return Err(LexError::UnterminatedInterpolation);
        }
        if let Some(cr) = fragment {
            token_list.push(TokenTag::InterpolatedCode.at(cr));
        }
        let c = self.chomper.peek().unwrap();
        if c == '}' {
            proof {
                reveal_strlit("}");
                assert(text_at(s, e).subrange(0, 1) =~= "}"@);
            }
            let close = self.chomper.expect("}");
            token_list.push(TokenTag::CloseInterpolation.at(close));
            proof {
                assert(token_list@ =~= before + string_step(s, j, depth as nat).0);
            }
            Ok(depth - 1)
        } else {
            proof {
                reveal_strlit("\"");
                assert(text_at(s, e).subrange(0, 1) =~= "\""@);
            }
            let open = self.chomper.expect("\"");
            token_list.push(TokenTag::OpenQuote.at(open));
            proof {
                assert(token_list@ =~= before + string_step(s, j, depth as nat).0);
            }
            Ok(depth + 1)
        }
    }

    /// Lexes a run of `+` and `-`.
    pub fn get_operator(&mut self) -> (r: Option<Token>)
        requires
            old(self).before_char(),
            old(self).source()[old(self).here()] == '+' || old(self).source()[old(self).here()] == '-',
        ensures
            Self::produced(*old(self), *final(self), r, TokenTag::Operator, scan_until(old(self).source(), old(self).here(), operator_stop(old(self).source()))),
    {
        let ghost s = self.source();
        let ghost i = self.here();
        let stop = |c: char| -> (b: bool)
            ensures
                b == (c != '+' && c != '-'),
            { c != '+' && c != '-' };
        let cr = self.chomper.chomp(stop);
        proof {
            lemma_char_chomp_end(stop, s, i, self.chomper.cursor(), operator_stop(s));
        }
        Some(TokenTag::Operator.assert_at(cr))
    }
}

} // verus!
