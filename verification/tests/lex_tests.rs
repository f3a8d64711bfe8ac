use chomplex::chomp::{ChompResult, Chomper, Position, Span};
use chomplex::lex::{get_region, FullSource, LexError, Lexer, Token, TokenTag};

fn get_lexer<'code>(code: &'code str) -> Lexer<'code> {
    Lexer::new(code)
}

/// Whether each expectation matches the text of the token at the same place.
fn tokens_match(code: &Lexer, actual_tokens: &Vec<Token>, expectations: Vec<&'static str>) -> bool {
    for (index, expect) in expectations.iter().enumerate() {
        match actual_tokens.get(index) {
            None => return false,
            Some(token) => {
                if token.text(code) != expect.to_string() {
                    return false;
                }
            }
        }
    }
    true
}

fn assert_tokens_match(code: &Lexer, actual_tokens: &Vec<Token>, expectations: Vec<&'static str>) {
    println!("Matching tokens: ");
    println!("   Expecting (length of {}): {:?}", expectations.len(), expectations);
    println!("   Actual (length of {}): {:?}", actual_tokens.len(), actual_tokens);

    for (index, expect) in expectations.iter().enumerate() {
        let token = actual_tokens.get(index).unwrap();
        let token_text = token.text(code);
        assert_eq!(token_text, expect.to_string());
    }
}

fn dump_tokens_to_console(code: &Lexer, tokens: &Vec<Token>) {
    for (index, t) in tokens.iter().enumerate() {
        println!("Token {} is {}", index + 1, t.text(code));
    }
}

fn position(index: usize) -> Position {
    Position { index, line_no: 1, col_no: index }
}

fn span(start: usize, end: usize) -> Span {
    Span { start_pos: position(start), end_pos: position(end) }
}

#[test]
fn lex_option_chomp_result_that_is_some_should_be_convertable_to_token() {
    let cr = Some(ChompResult {
        span: Span {
            start_pos: Position { index: 42, line_no: 42, col_no: 42 },
            end_pos: Position { index: 44, line_no: 44, col_no: 44 },
        },
        hit_eof: false,
    });

    let token = TokenTag::Number.assert_at(cr);
    println!("token is {:?}", token);
    assert_eq!(token.tag, TokenTag::Number);
    assert_eq!(token.span.start_pos.index, 42);
    assert_eq!(token.span.end_pos.index, 44);
}

#[test]
fn lex_should_be_posssible_to_make_a_token_from_a_chomp_result() {
    let code = "foobar";
    let lexer = &get_lexer(code);
    let mut chomper = Chomper::new(code);

    // The tag does not matter here.
    let token = TokenTag::Whitespace.assert_at(chomper.chomp(|c: char| c == 'b'));

    println!("token is {:?}", token);
    assert_eq!(token.tag, TokenTag::Whitespace);
    assert_eq!(lexer.get_slice::<Token, Lexer>(&token), "foo");
    assert_eq!(get_region(lexer, token), "foo");
    assert_eq!(get_region(&code, token), "foo");
    assert_eq!(get_region(&lexer.chomper, token), "foo");
    assert_eq!(token.span.start_pos.index, 0);
    assert_eq!(token.span.end_pos.index, 3);
}

#[test]
fn lex_should_handle_herecomment_starting_right_at_eof() {
    let code = "###";
    let mut lexer = get_lexer(code);
    let tokens = lexer.lex().unwrap();
    assert_tokens_match(&lexer, &tokens, vec!["[Herecomment ###]"]);
}

#[test]
fn lex_hello_lex() {
    let code = r#"40 + 2
"#;
    let mut lexer = get_lexer(code);
    let tokens = lexer.lex().unwrap();
    assert_tokens_match(&lexer, &tokens, vec!["[Number 40]", "[Whitespace  ]", "[Operator +]", "[Whitespace  ]", "[Number 2]"]);
}

#[test]
fn lexer_tests_hello_lex() {
    let code = r#"40 + 2
"#;
    let mut lexer = get_lexer(code);
    let tokens = lexer.lex().unwrap();
    assert_tokens_match(&lexer, &tokens, vec!["[Number 40]", "[Whitespace  ]", "[Operator +]", "[Whitespace  ]", "[Number 2]"]);
}

#[test]
fn should_be_able_to_lex_even_if_newline_is_last_thing_before_eof() {
    let code = "\n";
    let mut lexer = get_lexer(code);
    let tokens = lexer.lex().unwrap();
    assert_tokens_match(&lexer, &tokens, vec!["[NewlineAndIndent \n]"]);
}

#[test]
fn lex_formula_with_no_spaces_should_succeed() {
    let code = "40+2\n";
    let mut lexer = get_lexer(code);
    let tokens = lexer.lex().unwrap();
    dump_tokens_to_console(&lexer, &tokens);
    assert_tokens_match(&lexer, &tokens, vec!["[Number 40]", "[Operator +]", "[Number 2]", "[NewlineAndIndent \n]"]);
}

#[test]
fn lexer_tests_formula_with_no_spaces_should_succeed() {
    let code = r#"40+2
"#;
    let mut lexer = get_lexer(code);
    let tokens = lexer.lex().unwrap();
    assert_tokens_match(&lexer, &tokens, vec!["[Number 40]", "[Operator +]", "[Number 2]"]);
}

// The matcher must report a mismatch.
#[test]
fn make_sure_assert_tokens_fails_when_it_should() {
    let code = "40+2";
    let mut lexer = get_lexer(code);
    let my_tokens = lexer.lex().unwrap();
    assert!(!tokens_match(&lexer, &my_tokens, vec!["[WrongStuff +]"]));
}

#[test]
fn lex_should_handle_number_against_eof() {
    let code = r#"40+2"#;
    let mut lexer = get_lexer(code);
    let tokens = lexer.lex().unwrap();
    assert_tokens_match(&lexer, &tokens, vec!["[Number 40]", "[Operator +]", "[Number 2]"]);
}

#[test]
fn lexer_tests_should_handle_number_against_eof() {
    let code = r#"40+2"#;
    let mut lexer = get_lexer(code);
    let tokens = lexer.lex().unwrap();
    assert_tokens_match(&lexer, &tokens, vec!["[Number 40]", "[Operator +]", "[Number 2]"]);
}

#[test]
fn some_test() {
    println!("All good!");
}

#[test]
fn assertTokensMatch_happy_path() {
    let code = "40+2";
    let lexer = get_lexer(code);
    let my_tokens = vec![
        Token::make(TokenTag::Number, span(0, 2)),
        Token::make(TokenTag::Operator, span(2, 3)),
        Token::make(TokenTag::Number, span(3, 4)),
    ];

    assert_tokens_match(&lexer, &my_tokens, vec!["[Number 40]", "[Operator +]", "[Number 2]"]);
}

// The matcher must report a mismatch.
#[test]
fn assertTokensMatch_should_fail() {
    let code = "40+2";
    let lexer = get_lexer(code);
    let my_tokens = vec![
        Token::make(TokenTag::Number, span(0, 2)),
        Token::make(TokenTag::Operator, span(2, 3)),
        Token::make(TokenTag::Number, span(3, 4)),
    ];

    assert!(!tokens_match(&lexer, &my_tokens, vec!["[WrongStuff +]"]));
}

#[test]
fn should_handle_comments_correctly() {
    let code = r#"40
# This is a comment
2 + 40"#;

    let mut lexer = get_lexer(code);
    let tokens = lexer.lex().unwrap();
    assert_tokens_match(&lexer, &tokens, vec!["[Number 40]", "[NewlineAndIndent \n]",
                                           "[Comment # This is a comment]",
                                           "[NewlineAndIndent \n]", "[Number 2]",
                                           "[Whitespace  ]", "[Operator +]", "[Whitespace  ]", "[Number 40]"]);
}

#[test]
fn should_handle_herecomments_correctly() {
    let code = r#"
40 ### This whole thing right here is a
herecomment that can span
many lines. A # in the middle is no problem. It won't end until
the proper ending delimiter is encountered. ###"#;

    let mut lexer = get_lexer(code);
    let tokens = lexer.lex().unwrap();
    assert_tokens_match(&lexer, &tokens, vec!["[NewlineAndIndent \n]", "[Number 40]", "[Whitespace  ]",
                                           "[Herecomment ### This whole thing right here is a\nherecomment that can span\nmany lines. A # in the middle is no problem. It won't end until\nthe proper ending delimiter is encountered. ###]"]);
}

#[test]
fn should_handle_herecomments_that_hit_eof() {
    let code = r#"
40 ### This whole thing right here is a
herecomment that
runs straight to EOF."#;

    let mut lexer = get_lexer(code);
    let tokens = lexer.lex().unwrap();
    assert_tokens_match(&lexer, &tokens, vec!["[NewlineAndIndent \n]", "[Number 40]", "[Whitespace  ]",
                                           "[Herecomment ### This whole thing right here is a\nherecomment that\nruns straight to EOF.]"]);
}

#[test]
fn should_end_word_at_first_illegal_char() {
    let code = r#"someIden+tifier"#;
    let mut lexer = get_lexer(code);
    let tokens = lexer.lex().unwrap();
    dump_tokens_to_console(&lexer, &tokens);
    assert_tokens_match(&lexer, &tokens, vec!["[Word someIden]", "[Operator +]", "[Word tifier]"]);
}

#[test]
fn should_be_able_to_lex_an_word_right_up_against_eof() {
    let code = r#"someWord"#;
    let mut lexer = get_lexer(code);
    let tokens = lexer.lex().unwrap();
    assert_tokens_match(&lexer, &tokens, vec!["[Word someWord]"]);
}

#[test]
fn should_lex_a_word_followed_by_a_number() {
    let code = "someWord 42";
    let mut lexer = get_lexer(code);
    let tokens = lexer.lex().unwrap();
    assert_tokens_match(&lexer, &tokens, vec!["[Word someWord]", "[Whitespace  ]", "[Number 42]"]);
}

#[test]
fn should_move_past_matched_text_when_calling_expect() {
    let code = r#"
123456789"#;
    let mut lexer = get_lexer(code);

    let _cr = lexer.chomper.expect("\n");
    assert_eq!(Some('1'), lexer.chomper.peek());
    assert_eq!("123456789", lexer.chomper.text());
}

#[test]
fn should_deal_with_newlines_correctly_for_my_pass_one() {
    let code = "40+2\n       \n   12";
    let mut lexer = get_lexer(code);
    let tokens = lexer.lex().unwrap();
    assert_tokens_match(&lexer, &tokens, vec!["[Number 40]", "[Operator +]", "[Number 2]", "[NewlineAndIndent \n       ]", "[NewlineAndIndent \n   ]", "[Number 12]"]);
}

#[test]
fn should_not_include_newline_in_whitespace() {
    let code = "     \n   ";
    let mut lexer = get_lexer(code);
    let tokens = lexer.lex().unwrap();
    assert_tokens_match(&lexer, &tokens, vec!["[Whitespace      ]", "[NewlineAndIndent \n   ]"]);
}

#[test]
fn should_give_newline_higher_precedence_than_whitespace() {
    let code = "\n";
    let mut lexer = get_lexer(code);
    let tokens = lexer.lex().unwrap();
    assert_tokens_match(&lexer, &tokens, vec!["[NewlineAndIndent \n]"]);
}

#[test]
fn should_lex_strings_with_interpolation_using_all_charlies_awesome_goodness() {
    let code = r#""The string is #{"The string".length} characters long""#;
    let mut lexer = get_lexer(code);
    let tokens = lexer.lex().unwrap();
    assert_tokens_match(&lexer, &tokens, vec!["[OpenQuote \"]", "[StringFragment The string is ]", "[OpenInterpolation #{]", "[OpenQuote \"]",
                        "[StringFragment The string]", "[CloseQuote \"]", "[InterpolatedCode .length]", "[CloseInterpolation }]", "[StringFragment  characters long]",
                        "[CloseQuote \"]"]);
}

#[test]
fn should_kick_the_same_ass_on_a_nested_interpolated_string_too() {
    let code = r#""The string is #{"The #{40 + 2}nd string".length} characters long""#;
    let mut lexer = get_lexer(code);
    let tokens = lexer.lex().unwrap();
    assert_tokens_match(&lexer, &tokens, vec!["[OpenQuote \"]", "[StringFragment The string is ]", "[OpenInterpolation #{]",
        "[OpenQuote \"]", "[StringFragment The ]", "[OpenInterpolation #{]", "[InterpolatedCode 40 + 2]",
                                              "[CloseInterpolation }]", "[StringFragment nd string]", "[CloseQuote \"]", "[InterpolatedCode .length]",
                        "[CloseInterpolation }]", "[StringFragment  characters long]",
                        "[CloseQuote \"]"]);
}

#[test]
fn should_respect_escaped_quotes_in_non_interpolated_part_of_interpolated_strings() {
    let code = r#""The string \" is #{"The string".length} characters long""#;
    let mut lexer = get_lexer(code);
    let tokens = lexer.lex().unwrap();
    assert_tokens_match(&lexer, &tokens, vec!["[OpenQuote \"]", "[StringFragment The string \\\" is ]", "[OpenInterpolation #{]", "[OpenQuote \"]",
                        "[StringFragment The string]", "[CloseQuote \"]", "[InterpolatedCode .length]", "[CloseInterpolation }]", "[StringFragment  characters long]",
                        "[CloseQuote \"]"]);
}

#[test]
fn should_respect_escaped_quotes_in_interpolated_part_of_interpolated_strings() {
    let code = r#""The string is #{"The \"string".length} characters long""#;
    let mut lexer = get_lexer(code);
    let tokens = lexer.lex().unwrap();
    assert_tokens_match(&lexer, &tokens, vec!["[OpenQuote \"]", "[StringFragment The string is ]", "[OpenInterpolation #{]", "[OpenQuote \"]",
                                              "[StringFragment The \\\"string]", "[CloseQuote \"]", "[InterpolatedCode .length]",
                                              "[CloseInterpolation }]", "[StringFragment  characters long]", "[CloseQuote \"]"]);
}

#[test]
fn should_respect_brackets_as_literals_in_interpolated_strings_when_they_dont_close_an_interpolation() {
    let code = r#""This } string #{40 + 2} has 2 } that are merely literal brackets""#;
    let mut lexer = get_lexer(code);
    let tokens = lexer.lex().unwrap();
    assert_tokens_match(&lexer, &tokens, vec!["[OpenQuote \"]", "[StringFragment This } string ]", "[OpenInterpolation #{]", "[InterpolatedCode 40 + 2]",
                                              "[CloseInterpolation }]", "[StringFragment  has 2 } that are merely literal brackets]", "[CloseQuote \"]"]);
}

// ---- further cases ----

#[test]
fn lex_yields_exactly_the_tokens_of_the_text() {
    let code = "x1 + 22\n  y";
    let mut lexer = get_lexer(code);
    let tokens = lexer.lex().unwrap();
    let texts: Vec<String> = tokens.iter().map(|t| t.text(&lexer)).collect();
    assert_eq!(texts, vec!["[Word x1]", "[Whitespace  ]", "[Operator +]", "[Whitespace  ]", "[Number 22]", "[NewlineAndIndent \n  ]", "[Word y]"]);
    assert!(lexer.chomper.is_eof);
}

#[test]
fn lex_of_empty_text_is_empty() {
    let mut lexer = get_lexer("");
    assert_eq!(lexer.lex().unwrap().len(), 0);
}

#[test]
fn lex_rejects_unknown_characters() {
    let mut lexer = get_lexer("40 * 2");
    assert_eq!(lexer.lex().unwrap_err(), LexError::UnexpectedChar(3));
}

#[test]
fn lex_rejects_a_comment_too_short_to_look_for_a_herecomment() {
    let mut lexer = get_lexer("1 #");
    assert_eq!(lexer.lex().unwrap_err(), LexError::TruncatedComment(2));
}

#[test]
fn lex_rejects_an_empty_herecomment() {
    let mut lexer = get_lexer("###### x");
    assert_eq!(lexer.lex().unwrap_err(), LexError::EmptyHerecomment(0));
}

#[test]
fn lex_rejects_an_unterminated_string() {
    let mut lexer = get_lexer("\"abc");
    assert_eq!(lexer.lex().unwrap_err(), LexError::UnterminatedString);
}

#[test]
fn lex_rejects_unterminated_interpolated_code() {
    let mut lexer = get_lexer("\"a #{ b");
    assert_eq!(lexer.lex().unwrap_err(), LexError::UnterminatedInterpolation);
}

#[test]
fn process_double_quote_appends_the_string_tokens() {
    let code = "\"a#{b}c\" 1";
    let mut lexer = get_lexer(code);
    let mut tokens = Vec::new();
    assert_eq!(lexer.process_double_quote(&mut tokens), Ok(None));
    let texts: Vec<String> = tokens.iter().map(|t| t.text(&lexer)).collect();
    assert_eq!(texts, vec!["[OpenQuote \"]", "[StringFragment a]", "[OpenInterpolation #{]", "[InterpolatedCode b]", "[CloseInterpolation }]", "[StringFragment c]", "[CloseQuote \"]"]);
    assert_eq!(lexer.chomper.peek(), Some(' '));
}

#[test]
fn empty_string_has_only_its_quotes() {
    let mut lexer = get_lexer("\"\"");
    let tokens = lexer.lex().unwrap();
    let texts: Vec<String> = tokens.iter().map(|t| t.text(&lexer)).collect();
    assert_eq!(texts, vec!["[OpenQuote \"]", "[CloseQuote \"]"]);
}

#[test]
fn single_token_getters() {
    let mut lexer = get_lexer("$ab_1 \t+-- 007 # c\n###x###");
    let word = lexer.get_word().unwrap();
    assert_eq!(word.text(&lexer), "[Word $ab_1]");
    let ws = lexer.get_whitespace().unwrap();
    assert_eq!(ws.text(&lexer), "[Whitespace  \t]");
    let op = lexer.get_operator().unwrap();
    assert_eq!(op.text(&lexer), "[Operator +--]");
    lexer.get_whitespace();
    let num = lexer.get_number().unwrap();
    assert_eq!(num.text(&lexer), "[Number 007]");
    lexer.get_whitespace();
    let comment = lexer.get_comment().unwrap();
    assert_eq!(comment.text(&lexer), "[Comment # c]");
    let nl = lexer.process_newline().unwrap();
    assert_eq!(nl.text(&lexer), "[NewlineAndIndent \n]");
    let here = lexer.get_here_comment().unwrap();
    assert_eq!(here.text(&lexer), "[Herecomment ###x###]");
    assert!(lexer.chomper.is_eof);
}

#[test]
fn tokens_carry_line_and_column() {
    let mut lexer = get_lexer("a\n  bb");
    let tokens = lexer.lex().unwrap();
    assert_eq!(tokens.len(), 3);
    assert_eq!(tokens[2].span.start_pos, Position { index: 4, line_no: 2, col_no: 2 });
    assert_eq!(tokens[2].span.end_pos, Position { index: 6, line_no: 2, col_no: 4 });
}

#[test]
fn at_uses_the_span_of_a_token_or_span() {
    let s = span(1, 3);
    let t = TokenTag::Word.at(s);
    assert_eq!(t.span, s);
    let u = TokenTag::Comment.at(t);
    assert_eq!(u.tag, TokenTag::Comment);
    assert_eq!(u.span, s);
}

#[test]
fn tokens_spell_the_text_and_have_their_shape() {
    let code = "a\t1\n  \"s #{x} t\" ### h ### # c\n+-9";
    let mut lexer = get_lexer(code);
    let tokens = lexer.lex().unwrap();
    let mut spelled = String::new();
    let mut next_start = 0;
    for t in &tokens {
        assert_eq!(t.span.start_pos.index, next_start);
        assert!(t.span.start_pos.index < t.span.end_pos.index);
        next_start = t.span.end_pos.index;
        let region = get_region(&lexer, *t);
        if t.tag == TokenTag::Whitespace {
            assert!(!region.contains('\n'));
        }
        spelled.push_str(region);
    }
    assert_eq!(next_start, code.len());
    assert_eq!(spelled, code);
}

#[test]
fn string_tokens_balance() {
    let code = "\"a #{\"b #{c}\" + d} e\"";
    let mut lexer = get_lexer(code);
    let mut tokens = Vec::new();
    assert_eq!(lexer.process_double_quote(&mut tokens), Ok(None));
    let count = |tag: TokenTag| tokens.iter().filter(|t| t.tag == tag).count();
    assert_eq!(tokens[0].tag, TokenTag::OpenQuote);
    assert_eq!(tokens[tokens.len() - 1].tag, TokenTag::CloseQuote);
    assert_eq!(count(TokenTag::OpenQuote), count(TokenTag::CloseQuote));
    assert_eq!(count(TokenTag::OpenInterpolation), count(TokenTag::CloseInterpolation));
    assert_eq!(count(TokenTag::OpenQuote), 2);
    assert_eq!(tokens[tokens.len() - 1].span.end_pos.index, code.len());
}

#[test]
fn word_character_classes() {
    assert!(Lexer::is_valid_first_char_of_word('$'));
    assert!(Lexer::is_valid_first_char_of_word('Z'));
    assert!(!Lexer::is_valid_first_char_of_word('7'));
    assert!(Lexer::is_valid_subsequent_char_of_word('7'));
    assert!(!Lexer::is_valid_subsequent_char_of_word('-'));
}
