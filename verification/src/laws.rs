//! What holds of the chomper and the lexer as a whole.
use vstd::prelude::*;
use vstd::std_specs::ops::AddSpec;
use crate::chomp::{ChompResult, chomped, joined, adjacent, position_at};
use crate::magic_number::MagicNumber;
use crate::lex::{
    Token, TokenTag, LexError, lex_from, lex_step, string_from, string_step, string_lex, token_at,
    region_of, span_within, word_first_spec, word_rest_spec, triple_hash, quote_stop, code_stop,
    word_stop, indent_stop, whitespace_stop, number_stop, operator_stop, comment_stop,
    herecomment_stop,
    lemma_lex_step_advances, lemma_string_step_advances, lemma_quote_stop_cases,
    lemma_string_from_bounds,
};
use crate::text::{
    scan_until, text_at, prev_char, starts_with, is_whitespace_spec, is_digit_spec,
    lemma_scan_until, lemma_line_col_bounds, lemma_starts_with,
};

verus! {

/// Two chomps, one right after the other, add up to one chomp over both stretches: the
/// second starts where the first ends, and their sum spans from the start of the first to
/// the end of the second, hitting the end of the text exactly when the second does.
pub proof fn law_consecutive_chomps_add_up(s: Seq<char>, i: int, j: int, k: int)
    requires
        0 <= i <= j <= k <= s.len(),
        s.len() < usize::MAX,
    ensures
        adjacent(chomped(s, i, j), chomped(s, j, k)),
        joined(chomped(s, i, j), chomped(s, j, k)) == chomped(s, i, k),
{
}

/// Adding chomp results: the sum of `a` and `b` (or of `a` and `Some(b)`) starts where
/// `a` starts, ends where `b` ends, and hits the end of the text exactly when `b` does;
/// adding `Some(b)` is adding `b`, and adding `None` gives `a` back.
pub proof fn law_chomp_results_add(a: ChompResult, b: ChompResult)
    ensures
        <ChompResult as AddSpec<ChompResult>>::obeys_add_spec(),
        <ChompResult as AddSpec<Option<ChompResult>>>::obeys_add_spec(),
        <ChompResult as AddSpec<ChompResult>>::add_spec(a, b).span.start_pos == a.span.start_pos,
        <ChompResult as AddSpec<ChompResult>>::add_spec(a, b).span.end_pos == b.span.end_pos,
        <ChompResult as AddSpec<ChompResult>>::add_spec(a, b).hit_eof == b.hit_eof,
        <ChompResult as AddSpec<Option<ChompResult>>>::add_spec(a, Some(b))
            == <ChompResult as AddSpec<ChompResult>>::add_spec(a, b),
        <ChompResult as AddSpec<Option<ChompResult>>>::add_spec(a, None) == a,
        <ChompResult as AddSpec<ChompResult>>::add_req(a, b) == (b.span.start_pos.index
            == a.span.end_pos.index),
        <ChompResult as AddSpec<Option<ChompResult>>>::add_req(a, Some(b)) == (
        b.span.start_pos.index == a.span.end_pos.index),
        <ChompResult as AddSpec<Option<ChompResult>>>::add_req(a, None),
{
}

/// Two chomps, one right after the other, add up (with `+`, on the result or on `Some`
/// of it) to the single chomp over both stretches.
pub proof fn law_consecutive_chomp_results_sum(s: Seq<char>, i: int, j: int, k: int)
    requires
        0 <= i <= j <= k <= s.len(),
        s.len() < usize::MAX,
    ensures
        <ChompResult as AddSpec<ChompResult>>::add_req(chomped(s, i, j), chomped(s, j, k)),
        <ChompResult as AddSpec<ChompResult>>::add_spec(chomped(s, i, j), chomped(s, j, k))
            == chomped(s, i, k),
        <ChompResult as AddSpec<Option<ChompResult>>>::add_req(
            chomped(s, i, j),
            Some(chomped(s, j, k)),
        ),
        <ChompResult as AddSpec<Option<ChompResult>>>::add_spec(
            chomped(s, i, j),
            Some(chomped(s, j, k)),
        ) == chomped(s, i, k),
{
}

/// The text of a chomp over `s[i..j]` is `s[i..j]`.
pub proof fn law_chomp_text(s: Seq<char>, i: int, j: int)
    requires
        0 <= i <= j <= s.len(),
        s.len() < usize::MAX,
    ensures
        span_within(chomped(s, i, j).span, s),
        region_of(chomped(s, i, j).span, s) == s.subrange(i, j),
{
}

/// Line numbers count the newlines before a position (starting from 1), and column
/// numbers count the characters since the last newline (starting from 0): stepping over a
/// newline moves to column 0 of the next line, stepping over anything else moves one
/// column on.
pub proof fn law_positions_track_lines(s: Seq<char>, i: int)
    requires
        0 <= i < s.len(),
        s.len() < usize::MAX,
    ensures
        position_at(s, 0).line_no == 1,
        position_at(s, 0).col_no == 0,
        s[i] == '\n' ==> position_at(s, i + 1).line_no == position_at(s, i).line_no + 1
            && position_at(s, i + 1).col_no == 0,
        s[i] != '\n' ==> position_at(s, i + 1).line_no == position_at(s, i).line_no
            && position_at(s, i + 1).col_no == position_at(s, i).col_no + 1,
{
    lemma_line_col_bounds(s, i);
    lemma_line_col_bounds(s, i + 1);
}

/// The tokens follow one another without gaps or overlaps, each covering at least one
/// character, from `i` to `j`.
pub open spec fn tiles(toks: Seq<Token>, i: int, j: int) -> bool {
    if toks.len() == 0 {
        i == j
    } else {
        &&& toks[0].span.start_pos.index == i
        &&& toks.last().span.end_pos.index == j
        &&& forall|k: int|
            0 <= k < toks.len() ==> #[trigger] toks[k].span.start_pos.index
                < toks[k].span.end_pos.index
        &&& forall|k: int|
            0 <= k < toks.len() - 1 ==> #[trigger] toks[k].span.end_pos.index
                == toks[k + 1].span.start_pos.index
    }
}

proof fn lemma_tiles_concat(a: Seq<Token>, b: Seq<Token>, i: int, j: int, k: int)
    requires
        tiles(a, i, j),
        tiles(b, j, k),
    ensures
        tiles(a + b, i, k),
{
    let c = a + b;
    if a.len() == 0 {
        assert(c =~= b);
    } else if b.len() == 0 {
        assert(c =~= a);
    } else {
        assert(c[0] == a[0]);
        assert(c.last() == b.last());
        assert forall|m: int| 0 <= m < c.len() implies #[trigger] c[m].span.start_pos.index
            < c[m].span.end_pos.index by {
            if m < a.len() {
                assert(c[m] == a[m]);
                assert(a[m].span.start_pos.index < a[m].span.end_pos.index);
            } else {
                assert(c[m] == b[m - a.len()]);
                assert(b[m - a.len()].span.start_pos.index < b[m - a.len()].span.end_pos.index);
            }
        }
        assert forall|m: int| 0 <= m < c.len() - 1 implies #[trigger] c[m].span.end_pos.index
            == c[m + 1].span.start_pos.index by {
            if m < a.len() - 1 {
                assert(c[m] == a[m]);
                assert(c[m + 1] == a[m + 1]);
            } else if m == a.len() - 1 {
                assert(c[m] == a.last());
                assert(c[m + 1] == b[0]);
                assert(a.last().span.end_pos.index == j);
                assert(b[0].span.start_pos.index == j);
            } else {
                assert(c[m] == b[m - a.len()]);
                assert(c[m + 1] == b[m + 1 - a.len()]);
            }
        }
    }
}

proof fn lemma_one_token_tiles(s: Seq<char>, tag: TokenTag, i: int, j: int)
    requires
        0 <= i < j <= s.len(),
        s.len() < usize::MAX,
    ensures
        tiles(seq![token_at(s, tag, i, j)], i, j),
{
}

proof fn lemma_string_step_tiles(s: Seq<char>, j: int, depth: nat)
    requires
        0 <= j <= s.len(),
        s.len() < usize::MAX,
        depth > 0,
        string_step(s, j, depth).3 is None,
    ensures
        tiles(string_step(s, j, depth).0, j, string_step(s, j, depth).1),
{
    let step = string_step(s, j, depth);
    lemma_string_step_advances(s, j, depth);
    let e = if depth % 2 == 1 {
        scan_until(s, j, quote_stop(s))
    } else {
        scan_until(s, j, code_stop(s))
    };
    if depth % 2 == 1 {
        lemma_scan_until(s, j, quote_stop(s));
    } else {
        lemma_scan_until(s, j, code_stop(s));
    }
    let delim = seq![step.0.last()];
    let frag: Seq<Token> = step.0.drop_last();
    assert(step.0 =~= frag + delim);
    lemma_one_token_tiles(s, step.0.last().tag, e, step.1);
    assert(delim =~= seq![token_at(s, step.0.last().tag, e, step.1)]);
    if e > j {
        lemma_one_token_tiles(s, frag[0].tag, j, e);
        assert(frag =~= seq![token_at(s, frag[0].tag, j, e)]);
    } else {
        assert(frag.len() == 0);
    }
    lemma_tiles_concat(frag, delim, j, e, step.1);
}

proof fn lemma_string_from_tiles(s: Seq<char>, j: int, depth: nat)
    requires
        0 <= j <= s.len(),
        s.len() < usize::MAX,
        string_from(s, j, depth).2 is None,
    ensures
        tiles(string_from(s, j, depth).0, j, string_from(s, j, depth).1),
    decreases s.len() - j,
{
    if depth > 0 {
        let step = string_step(s, j, depth);
        lemma_string_step_advances(s, j, depth);
        lemma_string_step_tiles(s, j, depth);
        lemma_string_from_tiles(s, step.1, step.2);
        lemma_tiles_concat(step.0, string_from(s, step.1, step.2).0, j, step.1, string_from(s, j, depth).1);
    }
}

proof fn lemma_lex_step_tiles(s: Seq<char>, i: int)
    requires
        0 <= i < s.len(),
        s.len() < usize::MAX,
        lex_step(s, i) is Ok,
    ensures
        tiles(lex_step(s, i)->Ok_0.0, i, lex_step(s, i)->Ok_0.1),
{
    lemma_lex_step_advances(s, i);
    let (toks, j) = lex_step(s, i)->Ok_0;
    if s[i] == '"' && !word_first_spec(s[i]) {
        let rest = string_from(s, i + 1, 1);
        lemma_string_from_tiles(s, i + 1, 1);
        lemma_one_token_tiles(s, TokenTag::OpenQuote, i, i + 1);
        lemma_tiles_concat(seq![token_at(s, TokenTag::OpenQuote, i, i + 1)], rest.0, i, i + 1, rest.1);
    } else {
        assert(toks.len() == 1);
        lemma_one_token_tiles(s, toks[0].tag, i, j);
        assert(toks =~= seq![token_at(s, toks[0].tag, i, j)]);
    }
}

/// When the lexer succeeds from `i`, its tokens cover the text from `i` to the end, one
/// after another, without gaps or overlaps.
pub proof fn law_lex_tokens_tile_the_text(s: Seq<char>, i: int)
    requires
        0 <= i <= s.len(),
        s.len() < usize::MAX,
        lex_from(s, i) is Ok,
    ensures
        tiles(lex_from(s, i)->Ok_0, i, s.len() as int),
    decreases s.len() - i,
{
    if i < s.len() {
        lemma_lex_step_advances(s, i);
        let (toks, j) = lex_step(s, i)->Ok_0;
        lemma_lex_step_tiles(s, i);
        law_lex_tokens_tile_the_text(s, j);
        lemma_tiles_concat(toks, lex_from(s, j)->Ok_0, i, j, s.len() as int);
    }
}

/// What the text of a token of each kind looks like, and that it is as long as it can
/// be: the character after it (if any) could not have continued it.
pub open spec fn token_shape_ok(s: Seq<char>, t: Token) -> bool {
    let a = t.span.start_pos.index as int;
    let b = t.span.end_pos.index as int;
    let n = s.len() as int;
    &&& 0 <= a < b <= n
    &&& match t.tag {
        TokenTag::Number => {
            &&& forall|k: int| a <= k < b ==> is_digit_spec(#[trigger] s[k])
            &&& b < n ==> !is_digit_spec(s[b])
        },
        TokenTag::Whitespace => {
            &&& forall|k: int| a <= k < b ==> is_whitespace_spec(#[trigger] s[k]) && s[k] != '\n'
            &&& b < n ==> !is_whitespace_spec(s[b]) || s[b] == '\n'
        },
        TokenTag::Operator => {
            &&& forall|k: int| a <= k < b ==> #[trigger] s[k] == '+' || s[k] == '-'
            &&& b < n ==> s[b] != '+' && s[b] != '-'
        },
        TokenTag::Word => {
            &&& word_first_spec(s[a])
            &&& forall|k: int| a < k < b ==> word_rest_spec(#[trigger] s[k])
            &&& b < n ==> !word_rest_spec(s[b])
        },
        TokenTag::NewlineAndIndent => {
            &&& s[a] == '\n'
            &&& forall|k: int| a < k < b ==> is_whitespace_spec(#[trigger] s[k]) && s[k] != '\n'
            &&& b < n ==> s[b] == '\n' || !is_whitespace_spec(s[b])
        },
        TokenTag::Comment => {
            &&& s[a] == '#'
            &&& forall|k: int| a <= k < b ==> #[trigger] s[k] != '\n'
            &&& b < n ==> s[b] == '\n'
        },
        TokenTag::Herecomment => {
            &&& a + 3 <= b
            &&& starts_with(text_at(s, a), triple_hash())
            &&& forall|k: int| a + 3 <= k < b - 3 ==> !starts_with(#[trigger] text_at(s, k), triple_hash())
            &&& b == n || starts_with(text_at(s, b - 3), triple_hash())
        },
        TokenTag::OpenQuote => b == a + 1 && s[a] == '"',
        TokenTag::CloseQuote => b == a + 1 && s[a] == '"' && prev_char(s, a) != Some('\\'),
        TokenTag::OpenInterpolation => b == a + 2 && s[a] == '#' && s[a + 1] == '{',
        TokenTag::CloseInterpolation => b == a + 1 && s[a] == '}',
        TokenTag::StringFragment => {
            &&& forall|k: int| a <= k < b ==> !#[trigger] quote_stop(s)(k)
            &&& b < n
            &&& quote_stop(s)(b)
        },
        TokenTag::InterpolatedCode => {
            &&& forall|k: int| a <= k < b ==> #[trigger] s[k] != '}' && s[k] != '"'
            &&& b < n
            &&& (s[b] == '}' || s[b] == '"')
        },
    }
}

/// Every token in `toks` has the shape of its kind.
pub open spec fn all_shapes_ok(s: Seq<char>, toks: Seq<Token>) -> bool {
    forall|k: int| 0 <= k < toks.len() ==> token_shape_ok(s, #[trigger] toks[k])
}

proof fn lemma_all_shapes_concat(s: Seq<char>, a: Seq<Token>, b: Seq<Token>)
    requires
        all_shapes_ok(s, a),
        all_shapes_ok(s, b),
    ensures
        all_shapes_ok(s, a + b),
{
    assert forall|k: int| 0 <= k < (a + b).len() implies token_shape_ok(s, #[trigger] (a + b)[k]) by {
        if k < a.len() {
            assert((a + b)[k] == a[k]);
        } else {
            assert((a + b)[k] == b[k - a.len()]);
        }
    }
}

proof fn lemma_string_step_shapes(s: Seq<char>, j: int, depth: nat)
    requires
        0 <= j <= s.len(),
        s.len() < usize::MAX,
        depth > 0,
        string_step(s, j, depth).3 is None,
    ensures
        all_shapes_ok(s, string_step(s, j, depth).0),
{
    let step = string_step(s, j, depth);
    lemma_string_step_advances(s, j, depth);
    if depth % 2 == 1 {
        let e = scan_until(s, j, quote_stop(s));
        lemma_scan_until(s, j, quote_stop(s));
        lemma_quote_stop_cases(s, e);
        if s[e] == '"' {
            lemma_starts_with_one_quote(s, e);
        }
        let frag = step.0.drop_last();
        assert(step.0 =~= frag + seq![step.0.last()]);
        assert(token_shape_ok(s, step.0.last()));
        if e > j {
            assert(token_shape_ok(s, frag[0]));
            assert(all_shapes_ok(s, frag));
        }
        lemma_all_shapes_concat(s, frag, seq![step.0.last()]);
    } else {
        let e = scan_until(s, j, code_stop(s));
        lemma_scan_until(s, j, code_stop(s));
        let frag = step.0.drop_last();
        assert(step.0 =~= frag + seq![step.0.last()]);
        assert(token_shape_ok(s, step.0.last()));
        if e > j {
            assert forall|k: int| j <= k < e implies #[trigger] s[k] != '}' && s[k] != '"' by {
                assert(!code_stop(s)(k));
            }
            assert(token_shape_ok(s, frag[0]));
            assert(all_shapes_ok(s, frag));
        }
        lemma_all_shapes_concat(s, frag, seq![step.0.last()]);
    }
}

/// A `"` that a fragment stops at does not follow a backslash.
proof fn lemma_starts_with_one_quote(s: Seq<char>, e: int)
    requires
        0 <= e < s.len(),
        quote_stop(s)(e),
        s[e] == '"',
    ensures
        prev_char(s, e) != Some('\\'),
{
    let t = text_at(s, e);
    if !starts_with(t, seq!['"']) {
        lemma_starts_with(t, seq!['#', '{']);
        assert(t[0] == '#');
    }
}

proof fn lemma_string_from_shapes(s: Seq<char>, j: int, depth: nat)
    requires
        0 <= j <= s.len(),
        s.len() < usize::MAX,
        string_from(s, j, depth).2 is None,
    ensures
        all_shapes_ok(s, string_from(s, j, depth).0),
    decreases s.len() - j,
{
    if depth > 0 {
        let step = string_step(s, j, depth);
        lemma_string_step_advances(s, j, depth);
        lemma_string_step_shapes(s, j, depth);
        lemma_string_from_shapes(s, step.1, step.2);
        lemma_all_shapes_concat(s, step.0, string_from(s, step.1, step.2).0);
    }
}

proof fn lemma_lex_step_shapes(s: Seq<char>, i: int)
    requires
        0 <= i < s.len(),
        s.len() < usize::MAX,
        lex_step(s, i) is Ok,
    ensures
        all_shapes_ok(s, lex_step(s, i)->Ok_0.0),
{
    lemma_lex_step_advances(s, i);
    let (toks, j) = lex_step(s, i)->Ok_0;
    let c = s[i];
    if word_first_spec(c) {
        lemma_scan_until(s, i + 1, word_stop(s));
        assert forall|k: int| i < k < j implies word_rest_spec(#[trigger] s[k]) by {
            assert(!word_stop(s)(k));
        }
        assert(token_shape_ok(s, toks[0]));
    } else if c == '\n' {
        lemma_scan_until(s, i + 1, indent_stop(s));
        assert forall|k: int| i < k < j implies is_whitespace_spec(#[trigger] s[k]) && s[k] != '\n' by {
            assert(!indent_stop(s)(k));
        }
        assert(token_shape_ok(s, toks[0]));
    } else if c == '"' {
        let rest = string_from(s, i + 1, 1);
        lemma_string_from_shapes(s, i + 1, 1);
        let open = seq![token_at(s, TokenTag::OpenQuote, i, i + 1)];
        assert(token_shape_ok(s, open[0]));
        assert(all_shapes_ok(s, open));
        lemma_all_shapes_concat(s, open, rest.0);
    } else if is_whitespace_spec(c) {
        lemma_scan_until(s, i, whitespace_stop(s));
        assert forall|k: int| i <= k < j implies is_whitespace_spec(#[trigger] s[k]) && s[k] != '\n' by {
            assert(!whitespace_stop(s)(k));
        }
        assert(token_shape_ok(s, toks[0]));
    } else if is_digit_spec(c) {
        lemma_scan_until(s, i, number_stop(s));
        assert forall|k: int| i <= k < j implies is_digit_spec(#[trigger] s[k]) by {
            assert(!number_stop(s)(k));
        }
        assert(token_shape_ok(s, toks[0]));
    } else if c == '+' || c == '-' {
        lemma_scan_until(s, i, operator_stop(s));
        assert forall|k: int| i <= k < j implies #[trigger] s[k] == '+' || s[k] == '-' by {
            assert(!operator_stop(s)(k));
        }
        assert(token_shape_ok(s, toks[0]));
    } else {
        assert(c == '#');
        if starts_with(text_at(s, i), triple_hash()) {
            lemma_starts_with(text_at(s, i), triple_hash());
            if i + 3 < s.len() {
                let b = scan_until(s, i + 3, herecomment_stop(s));
                lemma_scan_until(s, i + 3, herecomment_stop(s));
                assert forall|k: int| i + 3 <= k < j - 3 implies !starts_with(
                    #[trigger] text_at(s, k),
                    triple_hash(),
                ) by {
                    assert(!herecomment_stop(s)(k));
                }
                if b < s.len() {
                    lemma_starts_with(text_at(s, b), triple_hash());
                }
            }
            assert(token_shape_ok(s, toks[0]));
        } else {
            lemma_scan_until(s, i, comment_stop(s));
            assert forall|k: int| i <= k < j implies #[trigger] s[k] != '\n' by {
                assert(!comment_stop(s)(k));
            }
            assert(token_shape_ok(s, toks[0]));
        }
    }
}

/// When the lexer succeeds, every token has the shape of its kind (digits for a number,
/// white space without a newline for white space, and so on), and runs as far as its kind
/// allows: a word ends at the first character that cannot continue it, white space stops
/// before a newline, a comment before the end of its line, a string fragment at an
/// unescaped `"` or at `#{`.
pub proof fn law_lex_tokens_have_their_shape(s: Seq<char>, i: int)
    requires
        0 <= i <= s.len(),
        s.len() < usize::MAX,
        lex_from(s, i) is Ok,
    ensures
        all_shapes_ok(s, lex_from(s, i)->Ok_0),
    decreases s.len() - i,
{
    if i < s.len() {
        lemma_lex_step_advances(s, i);
        let (toks, j) = lex_step(s, i)->Ok_0;
        lemma_lex_step_shapes(s, i);
        law_lex_tokens_have_their_shape(s, j);
        lemma_all_shapes_concat(s, toks, lex_from(s, j)->Ok_0);
    }
}

/// The text that the tokens cover, one after another.
pub open spec fn spelled(s: Seq<char>, toks: Seq<Token>) -> Seq<char>
    decreases toks.len(),
{
    if toks.len() == 0 {
        seq![]
    } else {
        region_of(toks[0].span, s) + spelled(s, toks.drop_first())
    }
}

proof fn lemma_tiles_spell(s: Seq<char>, toks: Seq<Token>, i: int, j: int)
    requires
        tiles(toks, i, j),
        0 <= i,
        j <= s.len(),
    ensures
        spelled(s, toks) == s.subrange(i, j),
    decreases toks.len(),
{
    if toks.len() == 0 {
        assert(s.subrange(i, j) =~= seq![]);
    } else {
        let e = toks[0].span.end_pos.index as int;
        let rest = toks.drop_first();
        assert(toks[0].span.start_pos.index < toks[0].span.end_pos.index);
        if rest.len() > 0 {
            assert(toks[0].span.end_pos.index == toks[1].span.start_pos.index);
            assert(rest[0] == toks[1]);
            assert(rest.last() == toks.last());
            assert forall|k: int| 0 <= k < rest.len() implies #[trigger] rest[k].span.start_pos.index
                < rest[k].span.end_pos.index by {
                assert(rest[k] == toks[k + 1]);
            }
            assert forall|k: int| 0 <= k < rest.len() - 1 implies #[trigger] rest[k].span.end_pos.index
                == rest[k + 1].span.start_pos.index by {
                assert(rest[k] == toks[k + 1]);
                assert(rest[k + 1] == toks[k + 2]);
            }
            assert(tiles(rest, e, j));
            lemma_tiles_ordered(toks, i, j);
        } else {
            assert(toks.last() == toks[0]);
        }
        lemma_tiles_spell(s, rest, e, j);
        assert(s.subrange(i, e) + s.subrange(e, j) =~= s.subrange(i, j));
    }
}

proof fn lemma_tiles_ordered(toks: Seq<Token>, i: int, j: int)
    requires
        tiles(toks, i, j),
        toks.len() > 0,
    ensures
        toks[0].span.end_pos.index <= j,
    decreases toks.len(),
{
    if toks.len() > 1 {
        let rest = toks.drop_first();
        assert(rest[0] == toks[1]);
        assert(rest.last() == toks.last());
        assert forall|k: int| 0 <= k < rest.len() implies #[trigger] rest[k].span.start_pos.index
            < rest[k].span.end_pos.index by {
            assert(rest[k] == toks[k + 1]);
        }
        assert forall|k: int| 0 <= k < rest.len() - 1 implies #[trigger] rest[k].span.end_pos.index
            == rest[k + 1].span.start_pos.index by {
            assert(rest[k] == toks[k + 1]);
            assert(rest[k + 1] == toks[k + 2]);
        }
        assert(toks[0].span.end_pos.index == toks[1].span.start_pos.index);
        lemma_tiles_ordered(rest, toks[0].span.end_pos.index as int, j);
    } else {
        assert(toks.last() == toks[0]);
    }
}

/// The lexer loses no text and makes none up: when it succeeds from `i`, the texts of its
/// tokens, one after another, are the text from `i` to the end.
pub proof fn law_lex_tokens_spell_the_text(s: Seq<char>, i: int)
    requires
        0 <= i <= s.len(),
        s.len() < usize::MAX,
        lex_from(s, i) is Ok,
    ensures
        spelled(s, lex_from(s, i)->Ok_0) == s.subrange(i, s.len() as int),
{
    law_lex_tokens_tile_the_text(s, i);
    lemma_tiles_spell(s, lex_from(s, i)->Ok_0, i, s.len() as int);
}

/// A character that some token starts with.
pub open spec fn starts_a_token(c: char) -> bool {
    word_first_spec(c) || c == '\n' || c == '"' || is_whitespace_spec(c) || is_digit_spec(c) || c
        == '+' || c == '-' || c == '#'
}

/// There is a `"` from `i` on.
pub open spec fn opens_a_string(s: Seq<char>, i: int) -> bool {
    exists|k: int| i <= k < s.len() && #[trigger] s[k] == '"'
}

/// What each error of the lexer says of the text from `i` on.
pub open spec fn error_explained(s: Seq<char>, i: int, err: LexError) -> bool {
    match err {
        LexError::UnexpectedChar(k) => i <= k < s.len() && !starts_a_token(s[k as int]),
        LexError::TruncatedComment(k) => i <= k < s.len() && s[k as int] == '#' && k + 3 > s.len(),
        LexError::EmptyHerecomment(k) => i <= k && starts_with(text_at(s, k as int), triple_hash())
            && starts_with(text_at(s, k + 3), triple_hash()),
        LexError::UnterminatedString => opens_a_string(s, i),
        LexError::UnterminatedInterpolation => opens_a_string(s, i),
    }
}

proof fn lemma_string_errors(s: Seq<char>, j: int, depth: nat)
    requires
        0 <= j <= s.len(),
    ensures
        string_from(s, j, depth).2 matches Some(err) ==> (err == LexError::UnterminatedString
            || err == LexError::UnterminatedInterpolation),
    decreases s.len() - j,
{
    if depth > 0 {
        lemma_string_step_advances(s, j, depth);
        let step = string_step(s, j, depth);
        if step.3 is None {
            lemma_string_errors(s, step.1, step.2);
        }
    }
}

/// The lexer gives up only for a reason that the text shows: a character that no token
/// starts with, a `#` too close to the end to tell a comment from a here-comment, a
/// here-comment that closes as soon as it opens, or a string (or the code interpolated
/// into one) that the text ends inside of.
pub proof fn law_lex_errors_name_their_cause(s: Seq<char>, i: int)
    requires
        0 <= i <= s.len(),
        s.len() < usize::MAX,
        lex_from(s, i) is Err,
    ensures
        error_explained(s, i, lex_from(s, i)->Err_0),
    decreases s.len() - i,
{
    lemma_lex_step_advances(s, i);
    match lex_step(s, i) {
        Err(err) => {
            let c = s[i];
            if word_first_spec(c) || c == '\n' {
            } else if c == '"' {
                lemma_string_errors(s, i + 1, 1);
                assert(opens_a_string(s, i));
            } else if is_whitespace_spec(c) || is_digit_spec(c) || c == '+' || c == '-' {
            } else if c == '#' {
                if i + 3 > s.len() {
                    assert(err == LexError::TruncatedComment(i as usize));
                } else {
                    assert(err == LexError::EmptyHerecomment(i as usize));
                }
            } else {
                assert(err == LexError::UnexpectedChar(i as usize));
            }
        },
        Ok((toks, j)) => {
            law_lex_errors_name_their_cause(s, j);
            let err = lex_from(s, j)->Err_0;
            if opens_a_string(s, j) {
                let k = choose|k: int| j <= k < s.len() && #[trigger] s[k] == '"';
                assert(opens_a_string(s, i));
            }
        },
    }
}

/// How many of the tokens are of kind `tag`.
pub open spec fn count_tag(toks: Seq<Token>, tag: TokenTag) -> int
    decreases toks.len(),
{
    if toks.len() == 0 {
        0
    } else {
        (if toks[0].tag == tag {
            1int
        } else {
            0int
        }) + count_tag(toks.drop_first(), tag)
    }
}

proof fn lemma_count_concat(a: Seq<Token>, b: Seq<Token>, tag: TokenTag)
    ensures
        count_tag(a + b, tag) == count_tag(a, tag) + count_tag(b, tag),
    decreases a.len(),
{
    if a.len() == 0 {
        assert(a + b =~= b);
    } else {
        lemma_count_concat(a.drop_first(), b, tag);
        assert((a + b).drop_first() =~= a.drop_first() + b);
        assert((a + b)[0] == a[0]);
    }
}

proof fn lemma_count_one(t: Token, tag: TokenTag)
    ensures
        count_tag(seq![t], tag) == if t.tag == tag {
            1int
        } else {
            0int
        },
{
    let one = seq![t];
    assert(one.drop_first() =~= Seq::<Token>::empty());
    assert(count_tag(one.drop_first(), tag) == 0);
    assert(one[0] == t);
    assert(one.len() == 1);
}

/// How many quote and interpolation levels are still open at nesting `depth`.
pub open spec fn open_quotes(depth: nat) -> int {
    (depth as int + 1) / 2
}

pub open spec fn open_interpolations(depth: nat) -> int {
    depth as int / 2
}

/// The tokens of one step of a string change the counts of opening and closing tokens by
/// what the step does to the nesting.
proof fn lemma_string_step_counts(s: Seq<char>, j: int, depth: nat)
    requires
        0 <= j <= s.len(),
        depth > 0,
        string_step(s, j, depth).3 is None,
    ensures
        ({
            let step = string_step(s, j, depth);
            &&& count_tag(step.0, TokenTag::CloseQuote) - count_tag(step.0, TokenTag::OpenQuote)
                == open_quotes(depth) - open_quotes(step.2)
            &&& count_tag(step.0, TokenTag::CloseInterpolation) - count_tag(
                step.0,
                TokenTag::OpenInterpolation,
            ) == open_interpolations(depth) - open_interpolations(step.2)
            &&& step.0.len() > 0
            &&& (step.2 == 0 ==> step.0.last().tag == TokenTag::CloseQuote)
        }),
{
    let step = string_step(s, j, depth);
    lemma_string_step_advances(s, j, depth);
    let frag = step.0.drop_last();
    let delim = step.0.last();
    assert(step.0 =~= frag + seq![delim]);
    lemma_count_one(delim, TokenTag::CloseQuote);
    lemma_count_one(delim, TokenTag::OpenQuote);
    lemma_count_one(delim, TokenTag::CloseInterpolation);
    lemma_count_one(delim, TokenTag::OpenInterpolation);
    lemma_count_concat(frag, seq![delim], TokenTag::CloseQuote);
    lemma_count_concat(frag, seq![delim], TokenTag::OpenQuote);
    lemma_count_concat(frag, seq![delim], TokenTag::CloseInterpolation);
    lemma_count_concat(frag, seq![delim], TokenTag::OpenInterpolation);
    if frag.len() > 0 {
        assert(frag =~= seq![frag[0]]);
        lemma_count_one(frag[0], TokenTag::CloseQuote);
        lemma_count_one(frag[0], TokenTag::OpenQuote);
        lemma_count_one(frag[0], TokenTag::CloseInterpolation);
        lemma_count_one(frag[0], TokenTag::OpenInterpolation);
    } else {
        assert(frag =~= Seq::<Token>::empty());
    }
}

proof fn lemma_string_from_counts(s: Seq<char>, j: int, depth: nat)
    requires
        0 <= j <= s.len(),
        depth > 0,
        string_from(s, j, depth).2 is None,
    ensures
        ({
            let toks = string_from(s, j, depth).0;
            &&& count_tag(toks, TokenTag::CloseQuote) - count_tag(toks, TokenTag::OpenQuote)
                == open_quotes(depth)
            &&& count_tag(toks, TokenTag::CloseInterpolation) - count_tag(
                toks,
                TokenTag::OpenInterpolation,
            ) == open_interpolations(depth)
            &&& toks.len() > 0
            &&& toks.last().tag == TokenTag::CloseQuote
        }),
    decreases s.len() - j,
{
    let step = string_step(s, j, depth);
    lemma_string_step_advances(s, j, depth);
    lemma_string_step_counts(s, j, depth);
    let rest = string_from(s, step.1, step.2);
    let toks = string_from(s, j, depth).0;
    assert(toks == step.0 + rest.0);
    lemma_count_concat(step.0, rest.0, TokenTag::CloseQuote);
    lemma_count_concat(step.0, rest.0, TokenTag::OpenQuote);
    lemma_count_concat(step.0, rest.0, TokenTag::CloseInterpolation);
    lemma_count_concat(step.0, rest.0, TokenTag::OpenInterpolation);
    if step.2 == 0 {
        assert(rest.0 =~= Seq::<Token>::empty());
        assert(toks =~= step.0);
    } else {
        lemma_string_from_counts(s, step.1, step.2);
        assert(toks.last() == rest.0.last());
    }
}

/// A string that lexes without error gives tokens that open with the `"` it starts
/// with, close with a `"`, cover the string from its opening to its closing quote one
/// after another, and balance: as many opening quotes as closing ones, and as many `#{`
/// as `}`.
pub proof fn law_string_tokens_balance(s: Seq<char>, i: int)
    requires
        0 <= i < s.len(),
        s.len() < usize::MAX,
        string_lex(s, i).2 is None,
    ensures
        ({
            let toks = string_lex(s, i).0;
            let end = string_lex(s, i).1;
            &&& i < end <= s.len()
            &&& toks.len() >= 2
            &&& toks[0] == token_at(s, TokenTag::OpenQuote, i, i + 1)
            &&& toks.last().tag == TokenTag::CloseQuote
            &&& tiles(toks, i, end)
            &&& count_tag(toks, TokenTag::OpenQuote) == count_tag(toks, TokenTag::CloseQuote)
            &&& count_tag(toks, TokenTag::OpenInterpolation) == count_tag(
                toks,
                TokenTag::CloseInterpolation,
            )
        }),
{
    let open = seq![token_at(s, TokenTag::OpenQuote, i, i + 1)];
    let rest = string_from(s, i + 1, 1);
    let toks = string_lex(s, i).0;
    assert(toks == open + rest.0);
    lemma_string_from_counts(s, i + 1, 1);
    lemma_string_from_tiles(s, i + 1, 1);
    lemma_string_from_bounds(s, i + 1, 1);
    lemma_one_token_tiles(s, TokenTag::OpenQuote, i, i + 1);
    lemma_tiles_concat(open, rest.0, i, i + 1, rest.1);
    lemma_count_one(open[0], TokenTag::OpenQuote);
    lemma_count_one(open[0], TokenTag::CloseQuote);
    lemma_count_one(open[0], TokenTag::OpenInterpolation);
    lemma_count_one(open[0], TokenTag::CloseInterpolation);
    lemma_count_concat(open, rest.0, TokenTag::OpenQuote);
    lemma_count_concat(open, rest.0, TokenTag::CloseQuote);
    lemma_count_concat(open, rest.0, TokenTag::OpenInterpolation);
    lemma_count_concat(open, rest.0, TokenTag::CloseInterpolation);
    assert(toks[0] == open[0]);
    assert(toks.last() == rest.0.last());
}

/// Words: a `$`, `_` or ASCII letter starts a word, which runs over every following `$`,
/// `_`, ASCII letter and ASCII digit and stops at the first other character.
pub proof fn law_words(s: Seq<char>, i: int)
    requires
        0 <= i < s.len(),
        s.len() < usize::MAX,
        s[i] == '$' || s[i] == '_' || ('A' <= s[i] && s[i] <= 'Z') || ('a' <= s[i] && s[i]
            <= 'z'),
    ensures
        lex_step(s, i) is Ok,
        ({
            let (toks, e) = lex_step(s, i)->Ok_0;
            &&& i < e <= s.len()
            &&& toks.len() == 1
            &&& toks[0].tag == TokenTag::Word
            &&& toks[0].span.start_pos.index == i
            &&& toks[0].span.end_pos.index == e
            &&& forall|k: int|
                i < k < e ==> (#[trigger] s[k] == '$' || s[k] == '_' || ('A' <= s[k] && s[k]
                    <= 'Z') || ('a' <= s[k] && s[k] <= 'z') || ('0' <= s[k] && s[k] <= '9'))
            &&& e < s.len() ==> !(s[e] == '$' || s[e] == '_' || ('A' <= s[e] && s[e] <= 'Z')
                || ('a' <= s[e] && s[e] <= 'z') || ('0' <= s[e] && s[e] <= '9'))
        }),
{
    lemma_lex_step_advances(s, i);
    lemma_lex_step_shapes(s, i);
    let (toks, e) = lex_step(s, i)->Ok_0;
    assert(token_shape_ok(s, toks[0]));
}

/// Numbers: a decimal digit starts a number, which runs over every following decimal
/// digit and stops at the first other character.
pub proof fn law_numbers(s: Seq<char>, i: int)
    requires
        0 <= i < s.len(),
        s.len() < usize::MAX,
        '0' <= s[i] && s[i] <= '9',
    ensures
        lex_step(s, i) is Ok,
        ({
            let (toks, e) = lex_step(s, i)->Ok_0;
            &&& i < e <= s.len()
            &&& toks.len() == 1
            &&& toks[0].tag == TokenTag::Number
            &&& toks[0].span.start_pos.index == i
            &&& toks[0].span.end_pos.index == e
            &&& forall|k: int| i <= k < e ==> '0' <= #[trigger] s[k] && s[k] <= '9'
            &&& e < s.len() ==> !('0' <= s[e] && s[e] <= '9')
        }),
{
    lemma_lex_step_advances(s, i);
    lemma_lex_step_shapes(s, i);
    let (toks, e) = lex_step(s, i)->Ok_0;
    assert(token_shape_ok(s, toks[0]));
}

/// Operators: `+` or `-` starts an operator, which runs over every following `+` and `-`.
pub proof fn law_operators(s: Seq<char>, i: int)
    requires
        0 <= i < s.len(),
        s.len() < usize::MAX,
        s[i] == '+' || s[i] == '-',
    ensures
        lex_step(s, i) is Ok,
        ({
            let (toks, e) = lex_step(s, i)->Ok_0;
            &&& i < e <= s.len()
            &&& toks.len() == 1
            &&& toks[0].tag == TokenTag::Operator
            &&& toks[0].span.start_pos.index == i
            &&& toks[0].span.end_pos.index == e
            &&& forall|k: int| i <= k < e ==> #[trigger] s[k] == '+' || s[k] == '-'
            &&& e < s.len() ==> s[e] != '+' && s[e] != '-'
        }),
{
    lemma_lex_step_advances(s, i);
    lemma_lex_step_shapes(s, i);
    let (toks, e) = lex_step(s, i)->Ok_0;
    assert(token_shape_ok(s, toks[0]));
}

/// Among ASCII characters, white space is exactly space, tab, line feed, vertical tab,
/// form feed and carriage return; no letter, digit or other printable ASCII character is
/// white space, and neither is any other control character.
pub proof fn law_ascii_whitespace(c: char)
    requires
        c < '\u{80}',
    ensures
        is_whitespace_spec(c) == (c == ' ' || c == '\t' || c == '\n' || c == '\u{b}' || c
            == '\u{c}' || c == '\r'),
{
}

/// White space: a white-space character other than a newline starts a run of white space,
/// which stops at a newline or at the first character that is not white space; in
/// particular a space or a tab starts one.
pub proof fn law_whitespace_runs(s: Seq<char>, i: int)
    requires
        0 <= i < s.len(),
        s.len() < usize::MAX,
        s[i] == ' ' || s[i] == '\t',
    ensures
        lex_step(s, i) is Ok,
        ({
            let (toks, e) = lex_step(s, i)->Ok_0;
            &&& i < e <= s.len()
            &&& toks.len() == 1
            &&& toks[0].tag == TokenTag::Whitespace
            &&& toks[0].span.start_pos.index == i
            &&& toks[0].span.end_pos.index == e
            &&& forall|k: int| i <= k < e ==> #[trigger] s[k] != '\n' && is_whitespace_spec(s[k])
        }),
{
    lemma_lex_step_advances(s, i);
    lemma_lex_step_shapes(s, i);
    let (toks, e) = lex_step(s, i)->Ok_0;
    assert(token_shape_ok(s, toks[0]));
}

/// Newlines: a newline starts a newline-and-indentation token, which runs over the white
/// space after it up to the next newline or the first character that is not white space.
pub proof fn law_newlines(s: Seq<char>, i: int)
    requires
        0 <= i < s.len(),
        s.len() < usize::MAX,
        s[i] == '\n',
    ensures
        lex_step(s, i) is Ok,
        ({
            let (toks, e) = lex_step(s, i)->Ok_0;
            &&& i < e <= s.len()
            &&& toks.len() == 1
            &&& toks[0].tag == TokenTag::NewlineAndIndent
            &&& toks[0].span.start_pos.index == i
            &&& toks[0].span.end_pos.index == e
            &&& forall|k: int| i < k < e ==> #[trigger] s[k] != '\n' && is_whitespace_spec(s[k])
            &&& e < s.len() ==> s[e] == '\n' || !is_whitespace_spec(s[e])
        }),
{
    lemma_lex_step_advances(s, i);
    lemma_lex_step_shapes(s, i);
    let (toks, e) = lex_step(s, i)->Ok_0;
    assert(token_shape_ok(s, toks[0]));
}

/// The characters of words: a word starts with a `$`, an underscore or an ASCII letter,
/// and goes on with those or with ASCII digits; nothing else starts or continues a word
/// (so an underscore starts a word and a digit does not).
pub proof fn law_word_characters(c: char)
    ensures
        word_first_spec(c) == (c == '$' || c == '_' || ('A' <= c && c <= 'Z') || ('a' <= c
            && c <= 'z')),
        word_rest_spec(c) == (c == '$' || c == '_' || ('A' <= c && c <= 'Z') || ('a' <= c
            && c <= 'z') || ('0' <= c && c <= '9')),
        word_first_spec('_'),
        !word_first_spec('0'),
{
}

/// An underscore in the text starts a word: lexing from an underscore never fails, and
/// gives one word token that begins there.
pub proof fn law_underscore_starts_a_word(s: Seq<char>, i: int)
    requires
        0 <= i < s.len(),
        s.len() < usize::MAX,
        s[i] == '_',
    ensures
        lex_step(s, i) is Ok,
        lex_step(s, i)->Ok_0.0.len() == 1,
        lex_step(s, i)->Ok_0.0[0].tag == TokenTag::Word,
        lex_step(s, i)->Ok_0.0[0].span.start_pos.index == i,
        lex_step(s, i)->Ok_0.1 > i,
{
    law_words(s, i);
}

/// Adding magic numbers adds their values: `a + b` holds `a.value + b.value` whenever that
/// sum fits in a `usize` (and only then may they be added); adding `Some(b)` is adding `b`,
/// and adding `None` gives `a` back unchanged.
pub proof fn law_magic_numbers_add(a: MagicNumber, b: MagicNumber)
    ensures
        <MagicNumber as AddSpec<MagicNumber>>::obeys_add_spec(),
        <MagicNumber as AddSpec<Option<MagicNumber>>>::obeys_add_spec(),
        <MagicNumber as AddSpec<MagicNumber>>::add_req(a, b) == (a.value + b.value
            <= usize::MAX),
        <MagicNumber as AddSpec<Option<MagicNumber>>>::add_req(a, Some(b)) == (a.value
            + b.value <= usize::MAX),
        <MagicNumber as AddSpec<Option<MagicNumber>>>::add_req(a, None),
        a.value + b.value <= usize::MAX ==> <MagicNumber as AddSpec<MagicNumber>>::add_spec(
            a,
            b,
        ).value == a.value + b.value,
        a.value + b.value <= usize::MAX ==> <MagicNumber as AddSpec<
            Option<MagicNumber>,
        >>::add_spec(a, Some(b)).value == a.value + b.value,
        <MagicNumber as AddSpec<Option<MagicNumber>>>::add_spec(a, None).value == a.value,
{
}

/// Adding magic numbers is commutative: `a + b` and `b + a` hold the same value.
pub proof fn law_magic_numbers_commute(a: MagicNumber, b: MagicNumber)
    requires
        a.value + b.value <= usize::MAX,
    ensures
        <MagicNumber as AddSpec<MagicNumber>>::add_spec(a, b).value == <MagicNumber as AddSpec<
            MagicNumber,
        >>::add_spec(b, a).value,
{
}

} // verus!
