//! The lexer: scans source text line by line, strips `//` comments, and emits
//! a flat sequence of classified tokens in source order.

use vstd::prelude::*;
use vstd::string::StrSliceExecFns;
use vstd::string::StringExecFns;

verus! {

/// One lexical unit: a classified run of characters from one source line.
#[derive(Debug, Clone, PartialEq)]
pub struct Token {
    pub tok_type: TokenType,
    pub value: String,
    pub row: usize,
}

/// The three token classes the lexer distinguishes.
#[derive(Debug, Clone, Copy, PartialEq, Eq, Structural)]
pub enum TokenType {
    Word,
    Str,
    Number,
}

/// Mathematical model of a token: its class, its text, and its 1-based row.
#[verifier::ext_equal]
pub ghost struct TokenModel {
    pub tok_type: TokenType,
    pub value: Seq<char>,
    pub row: nat,
}

impl View for Token {
    type V = TokenModel;

    open spec fn view(&self) -> TokenModel {
        TokenModel { tok_type: self.tok_type, value: self.value@, row: self.row as nat }
    }
}

/// The models of a sequence of tokens, in order.
pub open spec fn token_models(ts: Seq<Token>) -> Seq<TokenModel> {
    ts.map_values(|t: Token| t@)
}

/// A lexing failure; every failure aborts the whole call.
#[derive(Debug, Clone, PartialEq)]
pub enum LexError {
    /// A non-ASCII character appeared inside a quoted string literal.
    NonAsciiInString { file: String, row: usize },
    /// A character outside every recognized class was encountered.
    InvalidCharacter { file: String, row: usize, line: String },
}

/// The lexer itself; it carries no state between calls.
#[derive(Debug, Clone)]
pub struct Lexer;

// ---------------------------------------------------------------------------
// Character classes
// ---------------------------------------------------------------------------

/// Characters that become a one-character `Word` token on their own.
pub open spec fn is_single_char(c: char) -> bool {
    c == '+' || c == '*' || c == '/' || c == '%' || c == '.' || c == '&' || c == '|' || c == '$'
        || c == '@' || c == '-' || c == '=' || c == '(' || c == ')'
}

/// Characters that look ahead one place for `=`.
pub open spec fn is_lookahead_char(c: char) -> bool {
    c == '!' || c == '<' || c == '>'
}

/// ASCII decimal digits.
pub open spec fn is_digit_char(c: char) -> bool {
    48 <= c as u32 && c as u32 <= 57
}

/// ASCII letters.
pub open spec fn is_letter_char(c: char) -> bool {
    (65 <= c as u32 && c as u32 <= 90) || (97 <= c as u32 && c as u32 <= 122)
}

/// Characters that may continue an identifier or keyword.
pub open spec fn is_word_char(c: char) -> bool {
    is_digit_char(c) || is_letter_char(c) || c == '_'
}

/// ASCII characters.
pub open spec fn is_ascii_char(c: char) -> bool {
    (c as u32) < 128
}

// ---------------------------------------------------------------------------
// Comment stripping
// ---------------------------------------------------------------------------

/// Position of the first `//` at or after `i`, or the line length if none.
pub open spec fn comment_start_from(line: Seq<char>, i: int) -> int
    decreases line.len() - i,
{
    if i + 1 >= line.len() {
        line.len() as int
    } else if line[i] == '/' && line[i + 1] == '/' {
        i
    } else {
        comment_start_from(line, i + 1)
    }
}

/// The line with everything from the first `//` onward removed.
pub open spec fn strip_comment(line: Seq<char>) -> Seq<char> {
    line.subrange(0, comment_start_from(line, 0))
}

pub proof fn lemma_comment_start(line: Seq<char>, i: int)
    requires
        0 <= i <= line.len(),
    ensures
        i <= comment_start_from(line, i) <= line.len(),
        forall|j: int|
            i <= j < comment_start_from(line, i) && j + 1 < line.len() ==> !(#[trigger] line[j]
                == '/' && line[j + 1] == '/'),
        comment_start_from(line, i) < line.len() ==> comment_start_from(line, i) + 1 < line.len()
            && line[comment_start_from(line, i)] == '/' && line[comment_start_from(line, i) + 1]
            == '/',
    decreases line.len() - i,
{
    if i + 1 >= line.len() {
    } else if line[i] == '/' && line[i + 1] == '/' {
    } else {
        lemma_comment_start(line, i + 1);
    }
}

// ---------------------------------------------------------------------------
// Runs and string scanning
// ---------------------------------------------------------------------------

/// End of the maximal run of digits starting at `i`.
pub open spec fn digit_run_end(line: Seq<char>, i: int) -> int
    decreases line.len() - i,
{
    if i < line.len() && is_digit_char(line[i]) {
        digit_run_end(line, i + 1)
    } else {
        i
    }
}

/// End of the maximal run of identifier characters starting at `i`.
pub open spec fn word_run_end(line: Seq<char>, i: int) -> int
    decreases line.len() - i,
{
    if i < line.len() && is_word_char(line[i]) {
        word_run_end(line, i + 1)
    } else {
        i
    }
}

pub proof fn lemma_digit_run_end(line: Seq<char>, i: int)
    requires
        0 <= i <= line.len(),
    ensures
        i <= digit_run_end(line, i) <= line.len(),
        forall|k: int| i <= k < digit_run_end(line, i) ==> is_digit_char(#[trigger] line[k]),
        digit_run_end(line, i) < line.len() ==> !is_digit_char(line[digit_run_end(line, i)]),
        i < line.len() && is_digit_char(line[i]) ==> digit_run_end(line, i) > i,
    decreases line.len() - i,
{
    if i < line.len() && is_digit_char(line[i]) {
        lemma_digit_run_end(line, i + 1);
    }
}

pub proof fn lemma_word_run_end(line: Seq<char>, i: int)
    requires
        0 <= i <= line.len(),
    ensures
        i <= word_run_end(line, i) <= line.len(),
        forall|k: int| i <= k < word_run_end(line, i) ==> is_word_char(#[trigger] line[k]),
        word_run_end(line, i) < line.len() ==> !is_word_char(line[word_run_end(line, i)]),
        i < line.len() && is_word_char(line[i]) ==> word_run_end(line, i) > i,
    decreases line.len() - i,
{
    if i < line.len() && is_word_char(line[i]) {
        lemma_word_run_end(line, i + 1);
    }
}

/// Outcome of scanning for the closing quote of a string literal, starting
/// just after the opening quote.
pub ghost enum StrScan {
    /// A closing quote stands at the given position; all characters before it
    /// are ASCII.
    Closed(int),
    /// A non-ASCII character appears before any closing quote.
    NonAscii,
    /// The line ends before a closing quote: the literal is unterminated.
    Open,
}

pub open spec fn scan_string(line: Seq<char>, i: int) -> StrScan
    decreases line.len() - i,
{
    if i >= line.len() {
        StrScan::Open
    } else if line[i] == '"' {
        StrScan::Closed(i)
    } else if !is_ascii_char(line[i]) {
        StrScan::NonAscii
    } else {
        scan_string(line, i + 1)
    }
}

pub proof fn lemma_scan_string(line: Seq<char>, i: int)
    requires
        0 <= i <= line.len(),
    ensures
        scan_string(line, i) matches StrScan::Closed(j) ==> i <= j < line.len() && line[j] == '"'
            && forall|k: int|
            i <= k < j ==> #[trigger] line[k] != '"' && is_ascii_char(line[k]),
    decreases line.len() - i,
{
    if i >= line.len() {
    } else if line[i] == '"' {
    } else if !is_ascii_char(line[i]) {
    } else {
        lemma_scan_string(line, i + 1);
    }
}

// ---------------------------------------------------------------------------
// The lexer's meaning, one line at a time
// ---------------------------------------------------------------------------

/// Outcome of lexing (the stripped remainder of) one line.
#[verifier::ext_equal]
pub ghost enum LineLex {
    /// The tokens of the line, in order.
    Toks(Seq<TokenModel>),
    /// A non-ASCII character inside a string literal aborted the lex.
    NonAscii,
    /// A character outside every recognized class aborted the lex.
    Invalid,
}

/// Prepend a token to an outcome; an error swallows the token.
pub open spec fn cons_tok(t: TokenModel, rest: LineLex) -> LineLex {
    match rest {
        LineLex::Toks(ts) => LineLex::Toks(seq![t] + ts),
        _ => rest,
    }
}

pub open spec fn word_tok(text: Seq<char>, row: nat) -> TokenModel {
    TokenModel { tok_type: TokenType::Word, value: text, row }
}

pub open spec fn num_tok(text: Seq<char>, row: nat) -> TokenModel {
    TokenModel { tok_type: TokenType::Number, value: text, row }
}

pub open spec fn str_tok(text: Seq<char>, row: nat) -> TokenModel {
    TokenModel { tok_type: TokenType::Str, value: text, row }
}

/// Lexing an already-stripped line from position `i` on: classify by the
/// first character, consume one token, and continue after it.
pub open spec fn spec_lex_from(line: Seq<char>, i: int, row: nat) -> LineLex
    decreases line.len() - i,
{
    if i < 0 || i >= line.len() {
        LineLex::Toks(Seq::empty())
    } else {
        let c = line[i];
        if is_single_char(c) {
            cons_tok(word_tok(line.subrange(i, i + 1), row), spec_lex_from(line, i + 1, row))
        } else if is_lookahead_char(c) {
            if i + 1 < line.len() && line[i + 1] == '=' {
                cons_tok(word_tok(line.subrange(i, i + 2), row), spec_lex_from(line, i + 2, row))
            } else {
                cons_tok(word_tok(line.subrange(i, i + 1), row), spec_lex_from(line, i + 1, row))
            }
        } else if c == '"' {
            match scan_string(line, i + 1) {
                StrScan::Closed(j) => {
                    proof {
                        lemma_scan_string(line, i + 1);
                    }
                    cons_tok(
                        str_tok(line.subrange(i + 1, j), row),
                        spec_lex_from(line, j + 1, row),
                    )
                },
                StrScan::NonAscii => LineLex::NonAscii,
                // An unterminated literal consumes the rest of the line and
                // yields neither a token nor an error.
                StrScan::Open => LineLex::Toks(Seq::empty()),
            }
        } else if is_digit_char(c) {
            let e = digit_run_end(line, i);
            proof {
                lemma_digit_run_end(line, i);
            }
            cons_tok(num_tok(line.subrange(i, e), row), spec_lex_from(line, e, row))
        } else if is_letter_char(c) {
            let e = word_run_end(line, i);
            proof {
                lemma_word_run_end(line, i);
            }
            cons_tok(word_tok(line.subrange(i, e), row), spec_lex_from(line, e, row))
        } else if c == ' ' {
            spec_lex_from(line, i + 1, row)
        } else {
            LineLex::Invalid
        }
    }
}

/// The meaning of lexing one full line: strip the comment, scan the rest.
pub open spec fn spec_lex_line(line: Seq<char>, row: nat) -> LineLex {
    spec_lex_from(strip_comment(line), 0, row)
}

// ---------------------------------------------------------------------------
// The lexer's meaning over a whole source text
// ---------------------------------------------------------------------------

/// Position of the first newline at or after `i`, or the end of the text.
pub open spec fn newline_pos(s: Seq<char>, i: int) -> int
    decreases s.len() - i,
{
    if i < s.len() && s[i] != '\n' {
        newline_pos(s, i + 1)
    } else {
        i
    }
}

pub proof fn lemma_newline_pos(s: Seq<char>, i: int)
    requires
        0 <= i <= s.len(),
    ensures
        i <= newline_pos(s, i) <= s.len(),
        forall|k: int| i <= k < newline_pos(s, i) ==> #[trigger] s[k] != '\n',
        newline_pos(s, i) < s.len() ==> s[newline_pos(s, i)] == '\n',
    decreases s.len() - i,
{
    if i < s.len() && s[i] != '\n' {
        lemma_newline_pos(s, i + 1);
    }
}

/// A line as handed to the lexer: without a trailing carriage return.
pub open spec fn chop_cr(line: Seq<char>) -> Seq<char> {
    if line.len() > 0 && line[line.len() - 1] == '\r' {
        line.drop_last()
    } else {
        line
    }
}

/// The line starting at position `i` of the source text: the characters up
/// to the next newline, with a carriage return dropped only when a newline
/// follows it (a bare `\r` at the end of the text stays in the line).
pub open spec fn line_at(s: Seq<char>, i: int) -> Seq<char> {
    let p = newline_pos(s, i);
    if p < s.len() {
        chop_cr(s.subrange(i, p))
    } else {
        s.subrange(i, p)
    }
}

/// Outcome of lexing a whole source text.
#[verifier::ext_equal]
pub ghost enum FileLex {
    /// The tokens of all lines, concatenated in line order.
    Toks(Seq<TokenModel>),
    /// The lex aborted on the 1-based line `row` with a non-ASCII character
    /// inside a string literal.
    NonAscii { row: nat },
    /// The lex aborted on the 1-based line `row`, whose text is `line`, with
    /// a character outside every recognized class.
    Invalid { row: nat, line: Seq<char> },
}

/// Lexing a source text from position `i` on, where `i` starts the line with
/// 1-based number `row`: cut the line at the next newline, lex it, and
/// continue after the newline.
pub open spec fn spec_lex_src_from(s: Seq<char>, i: int, row: nat) -> FileLex
    decreases s.len() - i,
{
    if i < 0 || i >= s.len() {
        FileLex::Toks(Seq::empty())
    } else {
        let p = newline_pos(s, i);
        proof {
            lemma_newline_pos(s, i);
        }
        let line = line_at(s, i);
        match spec_lex_line(line, row) {
            LineLex::Toks(ts) => {
                let rest = if p >= s.len() {
                    FileLex::Toks(Seq::empty())
                } else {
                    spec_lex_src_from(s, p + 1, row + 1)
                };
                match rest {
                    FileLex::Toks(more) => FileLex::Toks(ts + more),
                    _ => rest,
                }
            },
            LineLex::NonAscii => FileLex::NonAscii { row },
            LineLex::Invalid => FileLex::Invalid { row, line },
        }
    }
}

/// The meaning of lexing a whole source text, line numbers starting at 1.
pub open spec fn spec_lex_source(s: Seq<char>) -> FileLex {
    spec_lex_src_from(s, 0, 1)
}

// ---------------------------------------------------------------------------
// Executable scanning helpers
// ---------------------------------------------------------------------------

fn single_char(c: char) -> (b: bool)
    ensures
        b == is_single_char(c),
{
    c == '+' || c == '*' || c == '/' || c == '%' || c == '.' || c == '&' || c == '|' || c == '$'
        || c == '@' || c == '-' || c == '=' || c == '(' || c == ')'
}

fn digit_char(c: char) -> (b: bool)
    ensures
        b == is_digit_char(c),
{
    let u = c as u32;
    48 <= u && u <= 57
}

fn letter_char(c: char) -> (b: bool)
    ensures
        b == is_letter_char(c),
{
    let u = c as u32;
    (65 <= u && u <= 90) || (97 <= u && u <= 122)
}

fn word_char(c: char) -> (b: bool)
    ensures
        b == is_word_char(c),
{
    digit_char(c) || letter_char(c) || c == '_'
}

fn comment_start_exec(line: &str, i: usize, n: usize) -> (r: usize)
    requires
        n == line@.len(),
        i <= n,
    ensures
        r == comment_start_from(line@, i as int),
        i <= r <= n,
    decreases n - i,
{
    if i >= n || i + 1 >= n {
        n
    } else if line.get_char(i) == '/' && line.get_char(i + 1) == '/' {
        i
    } else {
        comment_start_exec(line, i + 1, n)
    }
}

fn digit_run_end_exec(line: &str, i: usize, n: usize) -> (r: usize)
    requires
        n == line@.len(),
        i <= n,
    ensures
        r == digit_run_end(line@, i as int),
        i <= r <= n,
    decreases n - i,
{
    if i < n && digit_char(line.get_char(i)) {
        digit_run_end_exec(line, i + 1, n)
    } else {
        i
    }
}

fn word_run_end_exec(line: &str, i: usize, n: usize) -> (r: usize)
    requires
        n == line@.len(),
        i <= n,
    ensures
        r == word_run_end(line@, i as int),
        i <= r <= n,
    decreases n - i,
{
    if i < n && word_char(line.get_char(i)) {
        word_run_end_exec(line, i + 1, n)
    } else {
        i
    }
}

fn newline_pos_exec(s: &str, i: usize, n: usize) -> (r: usize)
    requires
        n == s@.len(),
        i <= n,
    ensures
        r == newline_pos(s@, i as int),
        i <= r <= n,
    decreases n - i,
{
    if i < n && s.get_char(i) != '\n' {
        newline_pos_exec(s, i + 1, n)
    } else {
        i
    }
}

enum ScanResult {
    Closed(usize),
    NonAscii,
    Open,
}

fn scan_string_exec(line: &str, i: usize, n: usize) -> (r: ScanResult)
    requires
        n == line@.len(),
        i <= n,
    ensures
        match r {
            ScanResult::Closed(j) => scan_string(line@, i as int) == StrScan::Closed(j as int) && i
                <= j < n,
            ScanResult::NonAscii => scan_string(line@, i as int) == StrScan::NonAscii,
            ScanResult::Open => scan_string(line@, i as int) == StrScan::Open,
        },
    decreases n - i,
{
    if i >= n {
        ScanResult::Open
    } else {
        let c = line.get_char(i);
        if c == '"' {
            ScanResult::Closed(i)
        } else if (c as u32) >= 128 {
            ScanResult::NonAscii
        } else {
            scan_string_exec(line, i + 1, n)
        }
    }
}

fn make_token(tok_type: TokenType, text: &str, row: usize) -> (t: Token)
    ensures
        t@ == (TokenModel { tok_type, value: text@, row: row as nat }),
{
    Token { tok_type, value: String::from_str(text), row }
}

// ---------------------------------------------------------------------------
// The executable lexer
// ---------------------------------------------------------------------------

/// Appending a token to the output extends the models by that token's model.
proof fn lemma_emit(s0: Seq<Token>, s1: Seq<Token>, t: Token, rest: Seq<TokenModel>)
    requires
        token_models(s1) == token_models(s0.push(t)) + rest,
    ensures
        token_models(s1) == token_models(s0) + (seq![t@] + rest),
{
    assert(token_models(s0.push(t)) =~= token_models(s0).push(t@));
    assert(token_models(s0).push(t@) + rest =~= token_models(s0) + (seq![t@] + rest));
}

/// Scans the stripped text of one line from position `i` on, pushing each
/// token onto `out`; `orig` is the line as given, used in error reports.
fn lex_chars(
    file: &str,
    orig: &str,
    line: &str,
    i: usize,
    n: usize,
    row: usize,
    out: &mut Vec<Token>,
) -> (r: Result<(), LexError>)
    requires
        n == line@.len(),
        i <= n,
    ensures
        match r {
            Ok(_) => spec_lex_from(line@, i as int, row as nat) matches LineLex::Toks(ts)
                && token_models(final(out)@) == token_models(old(out)@) + ts,
            Err(LexError::NonAsciiInString { file: f, row: r2 }) => f@ == file@ && r2 == row
                && spec_lex_from(line@, i as int, row as nat) == LineLex::NonAscii,
            Err(LexError::InvalidCharacter { file: f, row: r2, line: l }) => f@ == file@ && r2
                == row && l@ == orig@ && spec_lex_from(line@, i as int, row as nat)
                == LineLex::Invalid,
        },
    decreases n - i,
{
    if i >= n {
        assert(token_models(out@) =~= token_models(out@) + Seq::<TokenModel>::empty());
        return Ok(());
    }
    let c = line.get_char(i);
    if single_char(c) {
        let t = make_token(TokenType::Word, line.substring_char(i, i + 1), row);
        out.push(t);
        let r = lex_chars(file, orig, line, i + 1, n, row, out);
        proof {
            if r is Ok {
                lemma_emit(old(out)@, out@, t, spec_lex_from(line@, i + 1, row as nat)->Toks_0);
            }
        }
        r
    } else if c == '!' || c == '<' || c == '>' {
        if i + 1 < n && line.get_char(i + 1) == '=' {
            let t = make_token(TokenType::Word, line.substring_char(i, i + 2), row);
            out.push(t);
            let r = lex_chars(file, orig, line, i + 2, n, row, out);
            proof {
                if r is Ok {
                    lemma_emit(
                        old(out)@,
                        out@,
                        t,
                        spec_lex_from(line@, i + 2, row as nat)->Toks_0,
                    );
                }
            }
            r
        } else {
            let t = make_token(TokenType::Word, line.substring_char(i, i + 1), row);
            out.push(t);
            let r = lex_chars(file, orig, line, i + 1, n, row, out);
            proof {
                if r is Ok {
                    lemma_emit(
                        old(out)@,
                        out@,
                        t,
                        spec_lex_from(line@, i + 1, row as nat)->Toks_0,
                    );
                }
            }
            r
        }
    } else if c == '"' {
        match scan_string_exec(line, i + 1, n) {
            ScanResult::Closed(j) => {
                let t = make_token(TokenType::Str, line.substring_char(i + 1, j), row);
                out.push(t);
                let r = lex_chars(file, orig, line, j + 1, n, row, out);
                proof {
                    if r is Ok {
                        lemma_emit(
                            old(out)@,
                            out@,
                            t,
                            spec_lex_from(line@, j + 1, row as nat)->Toks_0,
                        );
                    }
                }
                r
            },
            ScanResult::NonAscii => Err(
                LexError::NonAsciiInString { file: String::from_str(file), row },
            ),
            ScanResult::Open => {
                assert(token_models(out@) =~= token_models(out@) + Seq::<TokenModel>::empty());
                Ok(())
            },
        }
    } else if digit_char(c) {
        let e = digit_run_end_exec(line, i, n);
        proof {
            lemma_digit_run_end(line@, i as int);
        }
        let t = make_token(TokenType::Number, line.substring_char(i, e), row);
        out.push(t);
        let r = lex_chars(file, orig, line, e, n, row, out);
        proof {
            if r is Ok {
                lemma_emit(old(out)@, out@, t, spec_lex_from(line@, e as int, row as nat)->Toks_0);
            }
        }
        r
    } else if letter_char(c) {
        let e = word_run_end_exec(line, i, n);
        proof {
            lemma_word_run_end(line@, i as int);
        }
        let t = make_token(TokenType::Word, line.substring_char(i, e), row);
        out.push(t);
        let r = lex_chars(file, orig, line, e, n, row, out);
        proof {
            if r is Ok {
                lemma_emit(old(out)@, out@, t, spec_lex_from(line@, e as int, row as nat)->Toks_0);
            }
        }
        r
    } else if c == ' ' {
        lex_chars(file, orig, line, i + 1, n, row, out)
    } else {
        Err(
            LexError::InvalidCharacter {
                file: String::from_str(file),
                row,
                line: String::from_str(orig),
            },
        )
    }
}

impl Lexer {
    pub fn new() -> (l: Lexer) {
        Lexer
    }

    /// Scans the source text from position `i`, the start of the 1-based
    /// line `row`, lexing line after line into `out`.
    fn lex_src_rec(
        &self,
        file: &str,
        src: &str,
        i: usize,
        n: usize,
        row: usize,
        out: &mut Vec<Token>,
    ) -> (r: Result<(), LexError>)
        requires
            n == src@.len(),
            i <= n,
            1 <= row,
            row as int <= i as int + 1,
        ensures
            match r {
                Ok(_) => spec_lex_src_from(src@, i as int, row as nat) matches FileLex::Toks(ts)
                    && token_models(final(out)@) == token_models(old(out)@) + ts,
                Err(LexError::NonAsciiInString { file: f, row: r2 }) => f@ == file@
                    && spec_lex_src_from(src@, i as int, row as nat) == (FileLex::NonAscii {
                    row: r2 as nat,
                }),
                Err(LexError::InvalidCharacter { file: f, row: r2, line: l }) => f@ == file@
                    && spec_lex_src_from(src@, i as int, row as nat) == (FileLex::Invalid {
                    row: r2 as nat,
                    line: l@,
                }),
            },
        decreases n - i,
    {
        if i >= n {
            assert(token_models(out@) =~= token_models(out@) + Seq::<TokenModel>::empty());
            return Ok(());
        }
        let p = newline_pos_exec(src, i, n);
        proof {
            lemma_newline_pos(src@, i as int);
        }
        let line_end = if p < n && p > i && src.get_char(p - 1) == '\r' {
            p - 1
        } else {
            p
        };
        let line = src.substring_char(i, line_end);
        proof {
            assert(line@ == line_at(src@, i as int)) by {
                let cut = src@.subrange(i as int, p as int);
                if p < n && p > i && src@[p - 1] == '\r' {
                    assert(cut.drop_last() =~= src@.subrange(i as int, p - 1));
                } else {
                }
            }
        }
        match self.lex_line(file, line, row) {
            Ok(mut ts) => {
                out.append(&mut ts);
                let ghost mid = out@;
                if p >= n {
                    proof {
                        let lts = spec_lex_line(line@, row as nat)->Toks_0;
                        assert(token_models(mid) =~= token_models(old(out)@) + lts);
                    }
                    Ok(())
                } else {
                    let next_row = if row < usize::MAX {
                        row + 1
                    } else {
                        row
                    };
                    let r = self.lex_src_rec(file, src, p + 1, n, next_row, out);
                    proof {
                        if row == usize::MAX {
                            // Only possible when the remaining text is empty,
                            // where the row number no longer matters.
                            assert(p + 1 == n);
                        }
                        if r is Ok {
                            let lts = spec_lex_line(line@, row as nat)->Toks_0;
                            let rts = spec_lex_src_from(src@, p + 1, row as nat + 1)->Toks_0;
                            assert(token_models(mid) =~= token_models(old(out)@) + lts);
                            assert(token_models(out@) == token_models(old(out)@) + lts + rts);
                            assert(token_models(old(out)@) + lts + rts =~= token_models(old(out)@)
                                + (lts + rts));
                        }
                    }
                    r
                }
            },
            Err(e) => Err(e),
        }
    }

    /// Lexes a whole source text: splits it into lines, lexes each with its
    /// 1-based row number, and concatenates the tokens in line order.
    pub fn lex_source(&self, file: &str, program: &str) -> (r: Result<Vec<Token>, LexError>)
        ensures
            match r {
                Ok(ts) => spec_lex_source(program@) matches FileLex::Toks(ms) && token_models(ts@)
                    == ms,
                Err(LexError::NonAsciiInString { file: f, row: r2 }) => f@ == file@
                    && spec_lex_source(program@) == (FileLex::NonAscii { row: r2 as nat }),
                Err(LexError::InvalidCharacter { file: f, row: r2, line: l }) => f@ == file@
                    && spec_lex_source(program@) == (FileLex::Invalid { row: r2 as nat, line: l@ }),
            },
    {
        let n = program.unicode_len();
        let mut toks: Vec<Token> = Vec::new();
        match self.lex_src_rec(file, program, 0, n, 1, &mut toks) {
            Ok(_) => {
                proof {
                    assert(token_models(toks@) =~= Seq::<TokenModel>::empty() + token_models(
                        toks@,
                    ));
                }
                Ok(toks)
            },
            Err(e) => Err(e),
        }
    }

    /// Lexes one source line, given its 1-based row number: strips the line
    /// comment and classifies the remaining characters into tokens.
    pub fn lex_line(&self, file: &str, line: &str, row: usize) -> (r: Result<Vec<Token>, LexError>)
        ensures
            match r {
                Ok(ts) => spec_lex_line(line@, row as nat) matches LineLex::Toks(ms)
                    && token_models(ts@) == ms,
                Err(LexError::NonAsciiInString { file: f, row: r2 }) => f@ == file@ && r2 == row
                    && spec_lex_line(line@, row as nat) == LineLex::NonAscii,
                Err(LexError::InvalidCharacter { file: f, row: r2, line: l }) => f@ == file@ && r2
                    == row && l@ == line@ && spec_lex_line(line@, row as nat) == LineLex::Invalid,
            },
    {
        let n = line.unicode_len();
        let cs = comment_start_exec(line, 0, n);
        let stripped = line.substring_char(0, cs);
        proof {
            lemma_comment_start(line@, 0);
            assert(stripped@ == strip_comment(line@));
        }
        let mut toks: Vec<Token> = Vec::new();
        match lex_chars(file, line, stripped, 0, cs, row, &mut toks) {
            Ok(_) => {
                proof {
                    assert(token_models(Seq::<Token>::empty()) =~= Seq::<TokenModel>::empty());
                    assert(token_models(toks@) =~= Seq::<TokenModel>::empty() + token_models(
                        toks@,
                    ));
                }
                Ok(toks)
            },
            Err(e) => Err(e),
        }
    }
}

// ---------------------------------------------------------------------------
// Laws of the lexer
// ---------------------------------------------------------------------------

proof fn lemma_comment_start_none(s: Seq<char>, i: int)
    requires
        0 <= i <= s.len(),
        forall|j: int|
            0 <= j && j + 1 < s.len() ==> !(#[trigger] s[j] == '/' && s[j + 1] == '/'),
    ensures
        comment_start_from(s, i) == s.len(),
    decreases s.len() - i,
{
    if i + 1 < s.len() {
        lemma_comment_start_none(s, i + 1);
    }
}

/// Comment stripping is exact and line-scoped: a line lexes exactly as its
/// prefix before the first `//` does.
pub proof fn lemma_comment_line_scoped(line: Seq<char>, row: nat)
    ensures
        spec_lex_line(line, row) == spec_lex_line(strip_comment(line), row),
{
    lemma_comment_start(line, 0);
    let cs = comment_start_from(line, 0);
    let pre = line.subrange(0, cs);
    assert forall|j: int| 0 <= j && j + 1 < pre.len() implies !(#[trigger] pre[j] == '/' && pre[j
        + 1] == '/') by {
        assert(pre[j] == line[j] && pre[j + 1] == line[j + 1]);
    }
    lemma_comment_start_none(pre, 0);
    assert(strip_comment(pre) =~= pre);
}

proof fn lemma_comment_append_start(pre: Seq<char>, rest: Seq<char>, i: int)
    requires
        0 <= i <= pre.len(),
        forall|j: int|
            0 <= j && j + 1 < pre.len() ==> !(#[trigger] pre[j] == '/' && pre[j + 1] == '/'),
        pre.len() > 0 ==> pre.last() != '/',
    ensures
        comment_start_from(pre + seq!['/', '/'] + rest, i) == pre.len(),
    decreases pre.len() - i,
{
    let full = pre + seq!['/', '/'] + rest;
    if i == pre.len() {
        assert(full[i] == '/' && full[i + 1] == '/');
    } else {
        assert(full[i] == pre[i]);
        if i + 1 < pre.len() {
            assert(full[i + 1] == pre[i + 1]);
        } else {
            assert(pre[i] == pre.last());
        }
        lemma_comment_append_start(pre, rest, i + 1);
    }
}

/// Text after the first `//` never reaches any token: appending a comment to
/// a line without one changes nothing about how the line lexes. (A line
/// ending in `/` is left out: there the `/` fuses with the comment opener.)
pub proof fn lemma_comment_ignored(pre: Seq<char>, rest: Seq<char>, row: nat)
    requires
        comment_start_from(pre, 0) == pre.len(),
        pre.len() > 0 ==> pre.last() != '/',
    ensures
        spec_lex_line(pre + seq!['/', '/'] + rest, row) == spec_lex_line(pre, row),
{
    let full = pre + seq!['/', '/'] + rest;
    lemma_comment_start(pre, 0);
    lemma_comment_append_start(pre, rest, 0);
    assert(strip_comment(full) =~= pre);
    lemma_comment_start_none(pre, 0);
    assert(strip_comment(pre) =~= pre);
}

/// A maximal run of digits at the scan position becomes exactly one `Number`
/// token whose text is that run, and scanning resumes right after the run.
pub proof fn lemma_digit_run_token(line: Seq<char>, i: int, row: nat)
    requires
        0 <= i < line.len(),
        is_digit_char(line[i]),
    ensures
        i < digit_run_end(line, i) <= line.len(),
        forall|k: int| i <= k < digit_run_end(line, i) ==> is_digit_char(#[trigger] line[k]),
        digit_run_end(line, i) < line.len() ==> !is_digit_char(line[digit_run_end(line, i)]),
        spec_lex_from(line, i, row) == cons_tok(
            num_tok(line.subrange(i, digit_run_end(line, i)), row),
            spec_lex_from(line, digit_run_end(line, i), row),
        ),
{
    lemma_digit_run_end(line, i);
}

/// A maximal run of identifier characters starting with a letter becomes
/// exactly one `Word` token whose text is that run, and scanning resumes
/// right after the run.
pub proof fn lemma_word_run_token(line: Seq<char>, i: int, row: nat)
    requires
        0 <= i < line.len(),
        is_letter_char(line[i]),
    ensures
        i < word_run_end(line, i) <= line.len(),
        forall|k: int| i <= k < word_run_end(line, i) ==> is_word_char(#[trigger] line[k]),
        word_run_end(line, i) < line.len() ==> !is_word_char(line[word_run_end(line, i)]),
        spec_lex_from(line, i, row) == cons_tok(
            word_tok(line.subrange(i, word_run_end(line, i)), row),
            spec_lex_from(line, word_run_end(line, i), row),
        ),
{
    lemma_word_run_end(line, i);
}

/// `!`, `<` and `>` produce a one-character token unless the next character
/// is `=`, in which case the two characters fuse into one token and the `=`
/// is not tokenized on its own: scanning resumes after it.
pub proof fn lemma_lookahead_token(line: Seq<char>, i: int, row: nat)
    requires
        0 <= i < line.len(),
        is_lookahead_char(line[i]),
    ensures
        i + 1 < line.len() && line[i + 1] == '=' ==> spec_lex_from(line, i, row) == cons_tok(
            word_tok(line.subrange(i, i + 2), row),
            spec_lex_from(line, i + 2, row),
        ),
        !(i + 1 < line.len() && line[i + 1] == '=') ==> spec_lex_from(line, i, row) == cons_tok(
            word_tok(line.subrange(i, i + 1), row),
            spec_lex_from(line, i + 1, row),
        ),
{
}

proof fn lemma_scan_closed_of(line: Seq<char>, i: int, j: int)
    requires
        0 <= i <= j < line.len(),
        line[j] == '"',
        forall|k: int| i <= k < j ==> #[trigger] line[k] != '"' && is_ascii_char(line[k]),
    ensures
        scan_string(line, i) == StrScan::Closed(j),
    decreases j - i,
{
    if i < j {
        lemma_scan_closed_of(line, i + 1, j);
    }
}

/// An ASCII-only quoted string round-trips: it becomes exactly one `Str`
/// token whose text is the literal's interior, both quotes excluded, and
/// scanning resumes after the closing quote.
pub proof fn lemma_string_roundtrip(line: Seq<char>, i: int, j: int, row: nat)
    requires
        0 <= i < j < line.len(),
        line[i] == '"',
        line[j] == '"',
        forall|k: int| i < k < j ==> #[trigger] line[k] != '"' && is_ascii_char(line[k]),
    ensures
        spec_lex_from(line, i, row) == cons_tok(
            str_tok(line.subrange(i + 1, j), row),
            spec_lex_from(line, j + 1, row),
        ),
{
    lemma_scan_closed_of(line, i + 1, j);
}

proof fn lemma_scan_non_ascii_of(line: Seq<char>, i: int, k: int)
    requires
        0 <= i <= k < line.len(),
        forall|m: int| i <= m < k ==> #[trigger] line[m] != '"' && is_ascii_char(line[m]),
        !is_ascii_char(line[k]),
    ensures
        scan_string(line, i) == StrScan::NonAscii,
    decreases k - i,
{
    assert(line[k] != '"');
    if i < k {
        lemma_scan_non_ascii_of(line, i + 1, k);
    }
}

/// A non-ASCII character inside a quoted literal makes the lex of the whole
/// line fail with the non-ASCII error, whatever follows it.
pub proof fn lemma_non_ascii_in_string(line: Seq<char>, i: int, k: int, row: nat)
    requires
        0 <= i < k < line.len(),
        line[i] == '"',
        forall|m: int| i < m < k ==> #[trigger] line[m] != '"' && is_ascii_char(line[m]),
        !is_ascii_char(line[k]),
    ensures
        spec_lex_from(line, i, row) == LineLex::NonAscii,
{
    lemma_scan_non_ascii_of(line, i + 1, k);
}

/// Every token of one line carries that line's row number: a token never
/// spans multiple lines.
pub proof fn lemma_line_tokens_row(line: Seq<char>, i: int, row: nat)
    requires
        spec_lex_from(line, i, row) matches LineLex::Toks(ts),
    ensures
        forall|k: int|
            0 <= k < spec_lex_from(line, i, row)->Toks_0.len() ==> (
            #[trigger] spec_lex_from(line, i, row)->Toks_0[k]).row == row,
    decreases line.len() - i,
{
    let ts = spec_lex_from(line, i, row)->Toks_0;
    if i < 0 || i >= line.len() {
    } else {
        let c = line[i];
        if is_single_char(c) {
            lemma_line_tokens_row(line, i + 1, row);
        } else if is_lookahead_char(c) {
            if i + 1 < line.len() && line[i + 1] == '=' {
                lemma_line_tokens_row(line, i + 2, row);
            } else {
                lemma_line_tokens_row(line, i + 1, row);
            }
        } else if c == '"' {
            match scan_string(line, i + 1) {
                StrScan::Closed(j) => {
                    lemma_scan_string(line, i + 1);
                    lemma_line_tokens_row(line, j + 1, row);
                },
                StrScan::NonAscii => {},
                StrScan::Open => {},
            }
        } else if is_digit_char(c) {
            lemma_digit_run_end(line, i);
            lemma_line_tokens_row(line, digit_run_end(line, i), row);
        } else if is_letter_char(c) {
            lemma_word_run_end(line, i);
            lemma_line_tokens_row(line, word_run_end(line, i), row);
        } else if c == ' ' {
            lemma_line_tokens_row(line, i + 1, row);
        } else {
        }
    }
}

/// Tokens come out in top-to-bottom source order: their row numbers start at
/// the given line and never decrease.
pub proof fn lemma_source_rows_ordered(s: Seq<char>, i: int, row: nat)
    requires
        spec_lex_src_from(s, i, row) matches FileLex::Toks(ts),
    ensures
        forall|k: int|
            0 <= k < spec_lex_src_from(s, i, row)->Toks_0.len() ==> (
            #[trigger] spec_lex_src_from(s, i, row)->Toks_0[k]).row >= row,
        forall|j: int, k: int|
            0 <= j <= k < spec_lex_src_from(s, i, row)->Toks_0.len() ==> (
            #[trigger] spec_lex_src_from(s, i, row)->Toks_0[j]).row <= (
            #[trigger] spec_lex_src_from(s, i, row)->Toks_0[k]).row,
    decreases s.len() - i,
{
    let ts = spec_lex_src_from(s, i, row)->Toks_0;
    if i < 0 || i >= s.len() {
    } else {
        let p = newline_pos(s, i);
        lemma_newline_pos(s, i);
        let line = line_at(s, i);
        match spec_lex_line(line, row) {
            LineLex::Toks(lts) => {
                lemma_line_tokens_row(strip_comment(line), 0, row);
                if p >= s.len() {
                    assert(forall|k: int| 0 <= k < ts.len() ==> ts[k] == lts[k]);
                } else {
                    lemma_source_rows_ordered(s, p + 1, row + 1);
                    let rts = spec_lex_src_from(s, p + 1, row + 1)->Toks_0;
                    assert(forall|k: int|
                        0 <= k < ts.len() ==> ts[k] == (if k < lts.len() {
                            lts[k]
                        } else {
                            rts[k - lts.len()]
                        }));
                }
            },
            _ => {},
        }
    }
}

/// Position `k` starts the line numbered `rowk`, and every line from the one
/// numbered `row` at position `i` up to it lexes to tokens.
pub open spec fn clean_lines_between(s: Seq<char>, i: int, row: nat, k: int, rowk: nat) -> bool
    decreases k - i,
{
    if i >= k {
        i == k && row == rowk
    } else {
        let p = newline_pos(s, i);
        proof {
            if 0 <= i && i <= s.len() {
                lemma_newline_pos(s, i);
            }
        }
        &&& 0 <= i
        &&& spec_lex_line(line_at(s, i), row) matches LineLex::Toks(ts)
        &&& p < s.len()
        &&& p + 1 <= k
        &&& clean_lines_between(s, p + 1, row + 1, k, rowk)
    }
}

/// A line that fails to lex aborts the lex of the whole source with that
/// line's error, whatever the lines after it hold, as long as every line
/// before it lexes cleanly.
pub proof fn lemma_line_error_aborts(s: Seq<char>, i: int, row: nat, k: int, rowk: nat)
    requires
        0 <= i,
        k < s.len(),
        clean_lines_between(s, i, row, k, rowk),
    ensures
        spec_lex_line(line_at(s, k), rowk) == LineLex::NonAscii ==> spec_lex_src_from(s, i, row)
            == (FileLex::NonAscii { row: rowk }),
        spec_lex_line(line_at(s, k), rowk) == LineLex::Invalid ==> spec_lex_src_from(s, i, row)
            == (FileLex::Invalid { row: rowk, line: line_at(s, k) }),
    decreases k - i,
{
    if i >= k {
    } else {
        let p = newline_pos(s, i);
        lemma_newline_pos(s, i);
        lemma_line_error_aborts(s, p + 1, row + 1, k, rowk);
    }
}

} // verus!
