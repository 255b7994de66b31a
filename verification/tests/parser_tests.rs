use qbit_frontend::lexer::{LexError, Token, TokenType};
use qbit_frontend::parser::{Op, ParseError, Parser};

#[test]
fn qbit_with_count() {
    let parser = Parser::new();
    let ops = parser.parse_source("f", "qbit 2").unwrap();
    assert_eq!(ops, vec![Op::Qubit, Op::Number(2)]);
}

#[test]
fn flat_arithmetic_sequence() {
    let parser = Parser::new();
    let ops = parser.parse_source("f", "add 3 4").unwrap();
    assert_eq!(ops, vec![Op::Add, Op::Number(3), Op::Number(4)]);
}

#[test]
fn function_declaration_takes_next_word() {
    let parser = Parser::new();
    let ops = parser.parse_source("f", "function foo").unwrap();
    assert_eq!(ops, vec![Op::Function("foo".to_string())]);
}

#[test]
fn unknown_word_fails() {
    let parser = Parser::new();
    let r = parser.parse_source("f", "gate h(q)");
    assert_eq!(
        r,
        Err(ParseError::UnknownWord {
            file: "f".to_string(),
            row: 1,
            word: "h".to_string(),
        })
    );
}

#[test]
fn unknown_word_reports_row() {
    let parser = Parser::new();
    let r = parser.parse_source("f", "gate\nzzz");
    assert_eq!(
        r,
        Err(ParseError::UnknownWord {
            file: "f".to_string(),
            row: 2,
            word: "zzz".to_string(),
        })
    );
}

#[test]
fn keyword_table_spellings() {
    let parser = Parser::new();
    let ops = parser
        .parse_source("f", "if else for while add sub mult div mod gate qbit cbit")
        .unwrap();
    assert_eq!(
        ops,
        vec![
            Op::If,
            Op::Else,
            Op::For,
            Op::While,
            Op::Add,
            Op::Sub,
            Op::Mult,
            Op::Div,
            Op::Mod,
            Op::Gate,
            Op::Qubit,
            Op::Cbit,
        ]
    );
}

#[test]
fn symbol_synonyms_map_to_same_ops() {
    let parser = Parser::new();
    let ops = parser.parse_source("f", "+ - * / % ( )").unwrap();
    assert_eq!(
        ops,
        vec![Op::Add, Op::Sub, Op::Mult, Op::Div, Op::Mod, Op::OParen, Op::CParen]
    );
}

#[test]
fn string_token_carries_through() {
    let parser = Parser::new();
    let ops = parser.parse_source("f", "\"hello world\"").unwrap();
    assert_eq!(ops, vec![Op::Str("hello world".to_string())]);
}

#[test]
fn function_at_end_gets_empty_name() {
    let parser = Parser::new();
    let ops = parser.parse_source("f", "function").unwrap();
    assert_eq!(ops, vec![Op::Function(String::new())]);
}

#[test]
fn function_before_number_gets_empty_name() {
    // The following token is consumed either way; a non-word leaves the
    // declared name empty.
    let parser = Parser::new();
    let ops = parser.parse_source("f", "function 5").unwrap();
    assert_eq!(ops, vec![Op::Function(String::new())]);
}

#[test]
fn function_takes_any_word_as_name() {
    let parser = Parser::new();
    let ops = parser.parse_source("f", "function + qbit").unwrap();
    assert_eq!(ops, vec![Op::Function("+".to_string()), Op::Qubit]);
}

#[test]
fn number_overflow_fails() {
    let parser = Parser::new();
    let r = parser.parse_source("f", "qbit 99999999999999999999999999");
    assert_eq!(
        r,
        Err(ParseError::NumberOverflow {
            file: "f".to_string(),
            row: 1,
            digits: "99999999999999999999999999".to_string(),
        })
    );
}

#[test]
fn lex_error_short_circuits() {
    let parser = Parser::new();
    let r = parser.parse_source("f", "qbit \u{e9}");
    assert_eq!(
        r,
        Err(ParseError::Lex(LexError::InvalidCharacter {
            file: "f".to_string(),
            row: 1,
            line: "qbit \u{e9}".to_string(),
        }))
    );
}

#[test]
fn parse_tokens_directly() {
    let parser = Parser::new();
    let tokens = vec![
        Token { tok_type: TokenType::Word, value: "gate".to_string(), row: 1 },
        Token { tok_type: TokenType::Number, value: "7".to_string(), row: 1 },
        Token { tok_type: TokenType::Str, value: "name".to_string(), row: 2 },
    ];
    let ops = parser.parse_tokens("f", &tokens).unwrap();
    assert_eq!(ops, vec![Op::Gate, Op::Number(7), Op::Str("name".to_string())]);
}

#[test]
fn operations_preserve_token_order() {
    let parser = Parser::new();
    let ops = parser.parse_source("f", "gate qbit 1 cbit 2\nwhile ( )").unwrap();
    assert_eq!(
        ops,
        vec![
            Op::Gate,
            Op::Qubit,
            Op::Number(1),
            Op::Cbit,
            Op::Number(2),
            Op::While,
            Op::OParen,
            Op::CParen,
        ]
    );
}

#[test]
fn empty_source_parses_to_nothing() {
    let parser = Parser::new();
    let ops = parser.parse_source("f", "").unwrap();
    assert!(ops.is_empty());
}
