use qbit_frontend::lexer::{LexError, Lexer, Token, TokenType};

fn kinds_and_texts(toks: &[Token]) -> Vec<(TokenType, String, usize)> {
    toks.iter().map(|t| (t.tok_type, t.value.clone(), t.row)).collect()
}

fn word(s: &str, row: usize) -> (TokenType, String, usize) {
    (TokenType::Word, s.to_string(), row)
}

fn num(s: &str, row: usize) -> (TokenType, String, usize) {
    (TokenType::Number, s.to_string(), row)
}

fn strlit(s: &str, row: usize) -> (TokenType, String, usize) {
    (TokenType::Str, s.to_string(), row)
}

#[test]
fn single_character_tokens() {
    let lexer = Lexer::new();
    let toks = lexer.lex_line("f", "+ * / % . & | $ @ - = ( )", 1).unwrap();
    let expected: Vec<(TokenType, String, usize)> =
        ["+", "*", "/", "%", ".", "&", "|", "$", "@", "-", "=", "(", ")"]
            .iter()
            .map(|s| word(s, 1))
            .collect();
    assert_eq!(kinds_and_texts(&toks), expected);
}

#[test]
fn lookahead_operators() {
    let lexer = Lexer::new();
    let toks = lexer.lex_line("f", "!= ! <= < >= > <x", 3).unwrap();
    assert_eq!(
        kinds_and_texts(&toks),
        vec![
            word("!=", 3),
            word("!", 3),
            word("<=", 3),
            word("<", 3),
            word(">=", 3),
            word(">", 3),
            word("<", 3),
            word("x", 3),
        ]
    );
}

#[test]
fn greater_equal_is_one_token() {
    // `>=` fuses into one token; the `=` is not tokenized on its own.
    let lexer = Lexer::new();
    let toks = lexer.lex_line("f", "if (x >= 1)", 1).unwrap();
    assert_eq!(
        kinds_and_texts(&toks),
        vec![word("if", 1), word("(", 1), word("x", 1), word(">=", 1), num("1", 1), word(")", 1)]
    );
}

#[test]
fn string_literal_round_trips() {
    let lexer = Lexer::new();
    let toks = lexer.lex_line("f", "\"abc def!\" x", 1).unwrap();
    assert_eq!(kinds_and_texts(&toks), vec![strlit("abc def!", 1), word("x", 1)]);
}

#[test]
fn empty_string_literal() {
    let lexer = Lexer::new();
    let toks = lexer.lex_line("f", "\"\"", 1).unwrap();
    assert_eq!(kinds_and_texts(&toks), vec![strlit("", 1)]);
}

#[test]
fn non_ascii_in_string_fails() {
    let lexer = Lexer::new();
    let r = lexer.lex_line("f", "\"h\u{e9}llo\"", 1);
    assert_eq!(r, Err(LexError::NonAsciiInString { file: "f".to_string(), row: 1 }));
}

#[test]
fn non_ascii_in_string_aborts_whole_source() {
    let lexer = Lexer::new();
    let r = lexer.lex_source("f", "qbit 1\n\"h\u{e9}llo\"\nqbit 2");
    assert_eq!(r, Err(LexError::NonAsciiInString { file: "f".to_string(), row: 2 }));
}

#[test]
fn unterminated_string_yields_no_token() {
    // An unterminated literal consumes the rest of the line silently.
    let lexer = Lexer::new();
    let toks = lexer.lex_line("f", "qbit \"abc def", 1).unwrap();
    assert_eq!(kinds_and_texts(&toks), vec![word("qbit", 1)]);
}

#[test]
fn invalid_character_fails() {
    let lexer = Lexer::new();
    let r = lexer.lex_line("f", "qbit #", 2);
    assert_eq!(
        r,
        Err(LexError::InvalidCharacter {
            file: "f".to_string(),
            row: 2,
            line: "qbit #".to_string(),
        })
    );
}

#[test]
fn braces_are_invalid_characters() {
    // Braces are outside every recognized character class.
    let lexer = Lexer::new();
    let r = lexer.lex_line("f", "gate h(q) { }", 1);
    assert_eq!(
        r,
        Err(LexError::InvalidCharacter {
            file: "f".to_string(),
            row: 1,
            line: "gate h(q) { }".to_string(),
        })
    );
}

#[test]
fn comment_is_stripped() {
    let lexer = Lexer::new();
    let toks = lexer.lex_line("f", "qbit 2 // all of this # vanishes", 1).unwrap();
    assert_eq!(kinds_and_texts(&toks), vec![word("qbit", 1), num("2", 1)]);
}

#[test]
fn whole_line_comment_yields_nothing() {
    let lexer = Lexer::new();
    let toks = lexer.lex_line("f", "// nothing here", 1).unwrap();
    assert!(toks.is_empty());
}

#[test]
fn comment_strips_even_inside_quotes() {
    // Stripping happens before tokenization, so a `//` inside a quoted
    // literal truncates the line and leaves the literal unterminated.
    let lexer = Lexer::new();
    let toks = lexer.lex_line("f", "\"a//b\"", 1).unwrap();
    assert!(toks.is_empty());
}

#[test]
fn digit_runs_are_maximal() {
    let lexer = Lexer::new();
    let toks = lexer.lex_line("f", "123 45 6", 1).unwrap();
    assert_eq!(kinds_and_texts(&toks), vec![num("123", 1), num("45", 1), num("6", 1)]);
}

#[test]
fn digit_then_letter_splits() {
    // A run starting with a digit is a number; the letters that follow
    // start a fresh word.
    let lexer = Lexer::new();
    let toks = lexer.lex_line("f", "1a", 1).unwrap();
    assert_eq!(kinds_and_texts(&toks), vec![num("1", 1), word("a", 1)]);
}

#[test]
fn word_runs_take_digits_and_underscores() {
    let lexer = Lexer::new();
    let toks = lexer.lex_line("f", "ab_1c x9", 1).unwrap();
    assert_eq!(kinds_and_texts(&toks), vec![word("ab_1c", 1), word("x9", 1)]);
}

#[test]
fn rows_are_one_based_and_line_accurate() {
    let lexer = Lexer::new();
    let toks = lexer.lex_source("f", "gate\nqbit 2\n\nadd").unwrap();
    assert_eq!(
        kinds_and_texts(&toks),
        vec![word("gate", 1), word("qbit", 2), num("2", 2), word("add", 4)]
    );
}

#[test]
fn carriage_returns_are_dropped() {
    let lexer = Lexer::new();
    let toks = lexer.lex_source("f", "gate\r\nqbit\r\n").unwrap();
    assert_eq!(kinds_and_texts(&toks), vec![word("gate", 1), word("qbit", 2)]);
}

#[test]
fn invalid_character_reports_row_and_line() {
    let lexer = Lexer::new();
    let r = lexer.lex_source("f", "gate\nqbit\n\t");
    assert_eq!(
        r,
        Err(LexError::InvalidCharacter {
            file: "f".to_string(),
            row: 3,
            line: "\t".to_string(),
        })
    );
}

#[test]
fn bare_carriage_return_at_end_is_invalid() {
    // A carriage return is dropped only as part of a `\r\n` line ending; a
    // bare one at the end of the text stays and is no recognized character.
    let lexer = Lexer::new();
    let r = lexer.lex_source("f", "gate\r");
    assert_eq!(
        r,
        Err(LexError::InvalidCharacter {
            file: "f".to_string(),
            row: 1,
            line: "gate\r".to_string(),
        })
    );
}

#[test]
fn empty_source_lexes_to_nothing() {
    let lexer = Lexer::new();
    let toks = lexer.lex_source("f", "").unwrap();
    assert!(toks.is_empty());
}
