# chomplex

A character chomper and a lexer for a small CoffeeScript-like language, verified with
Verus.

- `src/text.rs`: line and column numbers, scanning to the first stop, prefixes, and the
  character classes (Unicode white space, decimal digits).
- `src/chomp.rs`: `Chomper`, a cursor over source text that consumes runs of characters
  and reports their span (with line and column numbers); `ChompResult`s add up.
- `src/lex.rs`: `Lexer`, which turns text into tokens (numbers, words, operators, white
  space, newlines with indentation, comments, here-comments, strings with interpolated
  code). Its behaviour is stated by the spec function `lex_from`.
- `src/laws.rs`: what holds of the whole: consecutive chomps add up, tokens tile the
  text and spell it back, every token has the shape of its kind, a string's tokens open
  and close with quotes and balance, errors name their cause.
- `src/scanner.rs`, `src/magic_number.rs`, `src/warm_up.rs`: a simpler scanner, numbers
  that add to optional numbers, and a first number reader that reads the text a byte at a time.
- `app/main.rs`: lexes a file named on the command line, or runs small demonstrations.
