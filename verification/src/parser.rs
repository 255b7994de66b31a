//! The parser: consumes the token sequence in order and emits one operation
//! per recognized token (or per short fixed-length token group, such as a
//! function declaration keyword followed by its name token).

use vstd::prelude::*;
use vstd::string::StrSliceExecFns;
use vstd::string::StringExecFns;
use crate::lexer::{
    FileLex, LexError, Lexer, LineLex, Token, TokenModel, TokenType, is_digit_char,
    is_letter_char, is_lookahead_char, is_single_char, spec_lex_from, spec_lex_line,
    spec_lex_source, spec_lex_src_from, scan_string, strip_comment, token_models, StrScan,
    lemma_scan_string, lemma_digit_run_end, digit_run_end, newline_pos, word_run_end,
};

verus! {

/// One parsed unit of the operation stream.
#[derive(Debug, Clone, PartialEq)]
pub enum Op {
    Number(usize),
    Str(String),
    Function(String),
    // Gates and bits
    Gate,
    Qubit,
    Cbit,
    // Control flow
    If,
    Else,
    For,
    While,
    // Arithmetic
    Add,
    Sub,
    Mult,
    Div,
    Mod,
    // Punctuation
    OCBracket,
    CCBracket,
    OParen,
    CParen,
    /// Declared for future function-parameter support; never produced.
    Arguments(String, TokenType),
}

/// Mathematical model of an operation: payloads as sequences and naturals.
#[verifier::ext_equal]
pub ghost enum OpModel {
    Number(nat),
    Str(Seq<char>),
    Function(Seq<char>),
    Gate,
    Qubit,
    Cbit,
    If,
    Else,
    For,
    While,
    Add,
    Sub,
    Mult,
    Div,
    Mod,
    OCBracket,
    CCBracket,
    OParen,
    CParen,
    Arguments(Seq<char>, TokenType),
}

impl View for Op {
    type V = OpModel;

    open spec fn view(&self) -> OpModel {
        match self {
            Op::Number(v) => OpModel::Number(*v as nat),
            Op::Str(s) => OpModel::Str(s@),
            Op::Function(s) => OpModel::Function(s@),
            Op::Gate => OpModel::Gate,
            Op::Qubit => OpModel::Qubit,
            Op::Cbit => OpModel::Cbit,
            Op::If => OpModel::If,
            Op::Else => OpModel::Else,
            Op::For => OpModel::For,
            Op::While => OpModel::While,
            Op::Add => OpModel::Add,
            Op::Sub => OpModel::Sub,
            Op::Mult => OpModel::Mult,
            Op::Div => OpModel::Div,
            Op::Mod => OpModel::Mod,
            Op::OCBracket => OpModel::OCBracket,
            Op::CCBracket => OpModel::CCBracket,
            Op::OParen => OpModel::OParen,
            Op::CParen => OpModel::CParen,
            Op::Arguments(s, t) => OpModel::Arguments(s@, *t),
        }
    }
}

/// The models of a sequence of operations, in order.
pub open spec fn op_models(ops: Seq<Op>) -> Seq<OpModel> {
    ops.map_values(|o: Op| o@)
}

/// A parsing failure; every failure aborts the whole call.
#[derive(Debug, Clone, PartialEq)]
pub enum ParseError {
    /// A `Word` token's text matches no table entry.
    UnknownWord { file: String, row: usize, word: String },
    /// A numeric literal does not fit the integer type of `Op::Number`.
    NumberOverflow { file: String, row: usize, digits: String },
    /// Lexing failed before parsing could start.
    Lex(LexError),
}

/// The parser; it owns the lexer it feeds from.
#[derive(Debug)]
pub struct Parser {
    lexer: Lexer,
}

// ---------------------------------------------------------------------------
// The keyword table and numeric literals
// ---------------------------------------------------------------------------

/// The fixed table mapping a `Word` token's text to its operation. The
/// `function` keyword is not here: it consumes the following token too.
pub open spec fn word_op(text: Seq<char>) -> Option<OpModel> {
    if text == "if"@ {
        Some(OpModel::If)
    } else if text == "else"@ {
        Some(OpModel::Else)
    } else if text == "for"@ {
        Some(OpModel::For)
    } else if text == "while"@ {
        Some(OpModel::While)
    } else if text == "add"@ || text == "+"@ {
        Some(OpModel::Add)
    } else if text == "sub"@ || text == "-"@ {
        Some(OpModel::Sub)
    } else if text == "mult"@ || text == "*"@ {
        Some(OpModel::Mult)
    } else if text == "div"@ || text == "/"@ {
        Some(OpModel::Div)
    } else if text == "mod"@ || text == "%"@ {
        Some(OpModel::Mod)
    } else if text == "gate"@ {
        Some(OpModel::Gate)
    } else if text == "qbit"@ {
        Some(OpModel::Qubit)
    } else if text == "cbit"@ {
        Some(OpModel::Cbit)
    } else if text == "{"@ {
        Some(OpModel::OCBracket)
    } else if text == "}"@ {
        Some(OpModel::CCBracket)
    } else if text == "("@ {
        Some(OpModel::OParen)
    } else if text == ")"@ {
        Some(OpModel::CParen)
    } else {
        None
    }
}

/// The numeric value of one digit character.
pub open spec fn char_digit(c: char) -> int {
    c as u32 - 48
}

/// The value of a digit string, most significant digit first.
pub open spec fn digits_val(s: Seq<char>) -> int
    decreases s.len(),
{
    if s.len() == 0 {
        0
    } else {
        digits_val(s.drop_last()) * 10 + char_digit(s.last())
    }
}

/// A well-formed token: a `Number` token's text is a nonempty digit string.
pub open spec fn token_wf(t: TokenModel) -> bool {
    t.tok_type == TokenType::Number ==> t.value.len() > 0 && forall|k: int|
        0 <= k < t.value.len() ==> is_digit_char(#[trigger] t.value[k])
}

pub open spec fn tokens_wf(ts: Seq<TokenModel>) -> bool {
    forall|k: int| 0 <= k < ts.len() ==> token_wf(#[trigger] ts[k])
}

// ---------------------------------------------------------------------------
// The parser's meaning
// ---------------------------------------------------------------------------

/// Outcome of parsing a token sequence.
#[verifier::ext_equal]
pub ghost enum ParseOut {
    /// The operations, in token order.
    Ops(Seq<OpModel>),
    /// A `Word` token with the given text matched no table entry.
    UnknownWord { row: nat, word: Seq<char> },
    /// A numeric literal with the given digits does not fit.
    Overflow { row: nat, digits: Seq<char> },
}

/// Prepend an operation to an outcome; an error swallows the operation.
pub open spec fn cons_op(op: OpModel, rest: ParseOut) -> ParseOut {
    match rest {
        ParseOut::Ops(ops) => ParseOut::Ops(seq![op] + ops),
        _ => rest,
    }
}

/// Parsing a token sequence from position `i` on: one token per operation,
/// except `function`, which also consumes the following token as its name.
pub open spec fn spec_parse_from(ts: Seq<TokenModel>, i: int) -> ParseOut
    decreases ts.len() - i,
{
    if i < 0 || i >= ts.len() {
        ParseOut::Ops(Seq::empty())
    } else {
        let t = ts[i];
        match t.tok_type {
            TokenType::Word => {
                if t.value == "function"@ {
                    if i + 1 < ts.len() {
                        let name = if ts[i + 1].tok_type == TokenType::Word {
                            ts[i + 1].value
                        } else {
                            Seq::empty()
                        };
                        cons_op(OpModel::Function(name), spec_parse_from(ts, i + 2))
                    } else {
                        cons_op(OpModel::Function(Seq::empty()), spec_parse_from(ts, i + 1))
                    }
                } else {
                    match word_op(t.value) {
                        Some(op) => cons_op(op, spec_parse_from(ts, i + 1)),
                        None => ParseOut::UnknownWord { row: t.row, word: t.value },
                    }
                }
            },
            TokenType::Number => {
                if digits_val(t.value) <= usize::MAX as int {
                    cons_op(
                        OpModel::Number(digits_val(t.value) as nat),
                        spec_parse_from(ts, i + 1),
                    )
                } else {
                    ParseOut::Overflow { row: t.row, digits: t.value }
                }
            },
            TokenType::Str => cons_op(OpModel::Str(t.value), spec_parse_from(ts, i + 1)),
        }
    }
}

/// The meaning of parsing a whole token sequence.
pub open spec fn spec_parse(ts: Seq<TokenModel>) -> ParseOut {
    spec_parse_from(ts, 0)
}

/// The operation stream is never longer than the token stream it came from:
/// each operation consumes at least one token.
pub proof fn lemma_parse_output_length(ts: Seq<TokenModel>, i: int)
    requires
        0 <= i <= ts.len(),
        spec_parse_from(ts, i) matches ParseOut::Ops(ops),
    ensures
        spec_parse_from(ts, i)->Ops_0.len() <= ts.len() - i,
    decreases ts.len() - i,
{
    if i < ts.len() {
        let t = ts[i];
        match t.tok_type {
            TokenType::Word => {
                if t.value == "function"@ {
                    if i + 1 < ts.len() {
                        lemma_parse_output_length(ts, i + 2);
                    } else {
                        lemma_parse_output_length(ts, i + 1);
                    }
                } else {
                    match word_op(t.value) {
                        Some(_) => {
                            lemma_parse_output_length(ts, i + 1);
                        },
                        None => {},
                    }
                }
            },
            TokenType::Number => {
                if digits_val(t.value) <= usize::MAX as int {
                    lemma_parse_output_length(ts, i + 1);
                }
            },
            TokenType::Str => {
                lemma_parse_output_length(ts, i + 1);
            },
        }
    }
}

// ---------------------------------------------------------------------------
// Lexer output is well formed
// ---------------------------------------------------------------------------

proof fn lemma_wf_cons(t: TokenModel, ts: Seq<TokenModel>)
    requires
        token_wf(t),
        tokens_wf(ts),
    ensures
        tokens_wf(seq![t] + ts),
{
    assert forall|k: int| 0 <= k < (seq![t] + ts).len() implies token_wf(
        #[trigger] (seq![t] + ts)[k],
    ) by {
        if k > 0 {
            assert((seq![t] + ts)[k] == ts[k - 1]);
        }
    }
}

proof fn lemma_wf_concat(a: Seq<TokenModel>, b: Seq<TokenModel>)
    requires
        tokens_wf(a),
        tokens_wf(b),
    ensures
        tokens_wf(a + b),
{
    assert forall|k: int| 0 <= k < (a + b).len() implies token_wf(#[trigger] (a + b)[k]) by {
        if k >= a.len() {
            assert((a + b)[k] == b[k - a.len()]);
        } else {
            assert((a + b)[k] == a[k]);
        }
    }
}

/// Every token the line lexer emits is well formed: a `Number` token's text
/// is a nonempty run of digits.
pub proof fn lemma_lex_from_wf(line: Seq<char>, i: int, row: nat)
    requires
        spec_lex_from(line, i, row) matches LineLex::Toks(ts),
    ensures
        tokens_wf(spec_lex_from(line, i, row)->Toks_0),
    decreases line.len() - i,
{
    let ts = spec_lex_from(line, i, row)->Toks_0;
    if i < 0 || i >= line.len() {
    } else {
        let c = line[i];
        if is_single_char(c) {
            lemma_lex_from_wf(line, i + 1, row);
            lemma_wf_cons(
                crate::lexer::word_tok(line.subrange(i, i + 1), row),
                spec_lex_from(line, i + 1, row)->Toks_0,
            );
        } else if is_lookahead_char(c) {
            if i + 1 < line.len() && line[i + 1] == '=' {
                lemma_lex_from_wf(line, i + 2, row);
                lemma_wf_cons(
                    crate::lexer::word_tok(line.subrange(i, i + 2), row),
                    spec_lex_from(line, i + 2, row)->Toks_0,
                );
            } else {
                lemma_lex_from_wf(line, i + 1, row);
                lemma_wf_cons(
                    crate::lexer::word_tok(line.subrange(i, i + 1), row),
                    spec_lex_from(line, i + 1, row)->Toks_0,
                );
            }
        } else if c == '"' {
            match scan_string(line, i + 1) {
                StrScan::Closed(j) => {
                    lemma_scan_string(line, i + 1);
                    lemma_lex_from_wf(line, j + 1, row);
                    lemma_wf_cons(
                        crate::lexer::str_tok(line.subrange(i + 1, j), row),
                        spec_lex_from(line, j + 1, row)->Toks_0,
                    );
                },
                StrScan::NonAscii => {},
                StrScan::Open => {},
            }
        } else if is_digit_char(c) {
            let e = digit_run_end(line, i);
            lemma_digit_run_end(line, i);
            lemma_lex_from_wf(line, e, row);
            let t = crate::lexer::num_tok(line.subrange(i, e), row);
            assert(token_wf(t)) by {
                assert(forall|k: int|
                    0 <= k < t.value.len() ==> is_digit_char(#[trigger] t.value[k]));
            }
            lemma_wf_cons(t, spec_lex_from(line, e, row)->Toks_0);
        } else if is_letter_char(c) {
            let e = word_run_end(line, i);
            crate::lexer::lemma_word_run_end(line, i);
            lemma_lex_from_wf(line, e, row);
            lemma_wf_cons(
                crate::lexer::word_tok(line.subrange(i, e), row),
                spec_lex_from(line, e, row)->Toks_0,
            );
        } else if c == ' ' {
            lemma_lex_from_wf(line, i + 1, row);
        } else {
        }
    }
}

/// Every token the source lexer emits is well formed.
pub proof fn lemma_lex_src_wf(s: Seq<char>, i: int, row: nat)
    requires
        spec_lex_src_from(s, i, row) matches FileLex::Toks(ts),
    ensures
        tokens_wf(spec_lex_src_from(s, i, row)->Toks_0),
    decreases s.len() - i,
{
    if i < 0 || i >= s.len() {
    } else {
        let p = newline_pos(s, i);
        crate::lexer::lemma_newline_pos(s, i);
        let line = crate::lexer::line_at(s, i);
        match spec_lex_line(line, row) {
            LineLex::Toks(ts) => {
                lemma_lex_from_wf(strip_comment(line), 0, row);
                if p >= s.len() {
                    lemma_wf_concat(ts, Seq::empty());
                } else {
                    lemma_lex_src_wf(s, p + 1, row + 1);
                    match spec_lex_src_from(s, p + 1, row + 1) {
                        FileLex::Toks(more) => {
                            lemma_wf_concat(ts, more);
                        },
                        _ => {},
                    }
                }
            },
            _ => {},
        }
    }
}

// ---------------------------------------------------------------------------
// Executable parsing helpers
// ---------------------------------------------------------------------------

/// Equality between a token's text and a keyword spelling.
fn str_eq(v: &String, k: &str) -> (b: bool)
    ensures
        b == (v@ == k@),
{
    let ks = String::from_str(k);
    v.eq(&ks)
}

/// The executable keyword table, mirroring `word_op` entry for entry.
fn word_to_op(text: &String) -> (r: Option<Op>)
    ensures
        match r {
            Some(op) => word_op(text@) == Some(op@),
            None => word_op(text@) is None,
        },
{
    if str_eq(text, "if") {
        Some(Op::If)
    } else if str_eq(text, "else") {
        Some(Op::Else)
    } else if str_eq(text, "for") {
        Some(Op::For)
    } else if str_eq(text, "while") {
        Some(Op::While)
    } else if str_eq(text, "add") || str_eq(text, "+") {
        Some(Op::Add)
    } else if str_eq(text, "sub") || str_eq(text, "-") {
        Some(Op::Sub)
    } else if str_eq(text, "mult") || str_eq(text, "*") {
        Some(Op::Mult)
    } else if str_eq(text, "div") || str_eq(text, "/") {
        Some(Op::Div)
    } else if str_eq(text, "mod") || str_eq(text, "%") {
        Some(Op::Mod)
    } else if str_eq(text, "gate") {
        Some(Op::Gate)
    } else if str_eq(text, "qbit") {
        Some(Op::Qubit)
    } else if str_eq(text, "cbit") {
        Some(Op::Cbit)
    } else if str_eq(text, "{") {
        Some(Op::OCBracket)
    } else if str_eq(text, "}") {
        Some(Op::CCBracket)
    } else if str_eq(text, "(") {
        Some(Op::OParen)
    } else if str_eq(text, ")") {
        Some(Op::CParen)
    } else {
        None
    }
}

proof fn lemma_digits_val_nonneg(s: Seq<char>)
    requires
        forall|k: int| 0 <= k < s.len() ==> is_digit_char(#[trigger] s[k]),
    ensures
        digits_val(s) >= 0,
    decreases s.len(),
{
    if s.len() > 0 {
        lemma_digits_val_nonneg(s.drop_last());
    }
}

/// The value of a prefix of a digit string never exceeds the whole's value.
proof fn lemma_digits_val_prefix(s: Seq<char>, j: int)
    requires
        0 <= j <= s.len(),
        forall|k: int| 0 <= k < s.len() ==> is_digit_char(#[trigger] s[k]),
    ensures
        digits_val(s.subrange(0, j)) <= digits_val(s),
    decreases s.len() - j,
{
    if j < s.len() {
        lemma_digits_val_prefix(s, j + 1);
        lemma_digits_val_nonneg(s.subrange(0, j));
        assert(s.subrange(0, j + 1).drop_last() =~= s.subrange(0, j));
        assert(s.subrange(0, j + 1).last() == s[j]);
    } else {
        assert(s.subrange(0, j) =~= s);
    }
}

/// Parses a digit string as an unsigned integer, detecting overflow.
fn parse_number(digits: &String) -> (r: Option<usize>)
    requires
        digits@.len() > 0,
        forall|k: int| 0 <= k < digits@.len() ==> is_digit_char(#[trigger] digits@[k]),
    ensures
        match r {
            Some(v) => digits_val(digits@) <= usize::MAX as int && v as int == digits_val(
                digits@,
            ),
            None => digits_val(digits@) > usize::MAX as int,
        },
{
    let s = digits.as_str();
    let n = s.unicode_len();
    let mut val: usize = 0;
    let mut j: usize = 0;
    while j < n
        invariant
            n == s@.len(),
            s@ == digits@,
            j <= n,
            forall|k: int| 0 <= k < digits@.len() ==> is_digit_char(#[trigger] digits@[k]),
            val as int == digits_val(s@.subrange(0, j as int)),
        decreases n - j,
    {
        let c = s.get_char(j);
        let d = (c as u32 - 48) as usize;
        proof {
            assert(s@.subrange(0, j + 1).drop_last() =~= s@.subrange(0, j as int));
            assert(s@.subrange(0, j + 1).last() == s@[j as int]);
        }
        let step = match val.checked_mul(10) {
            Some(v10) => v10.checked_add(d),
            None => None,
        };
        match step {
            Some(v) => {
                val = v;
            },
            None => {
                proof {
                    lemma_digits_val_prefix(s@, j + 1);
                }
                return None;
            },
        }
        j += 1;
    }
    proof {
        assert(s@.subrange(0, n as int) =~= s@);
    }
    Some(val)
}

// ---------------------------------------------------------------------------
// The executable parser
// ---------------------------------------------------------------------------

/// Appending an operation to the output extends the models by its model.
proof fn lemma_emit_op(s0: Seq<Op>, s1: Seq<Op>, o: Op, rest: Seq<OpModel>)
    requires
        op_models(s1) == op_models(s0.push(o)) + rest,
    ensures
        op_models(s1) == op_models(s0) + (seq![o@] + rest),
{
    assert(op_models(s0.push(o)) =~= op_models(s0).push(o@));
    assert(op_models(s0).push(o@) + rest =~= op_models(s0) + (seq![o@] + rest));
}

/// Walks the token sequence from position `i` on, pushing one operation per
/// recognized token (or token group) onto `out`.
fn parse_rec(file: &str, tokens: &Vec<Token>, i: usize, out: &mut Vec<Op>) -> (r: Result<
    (),
    ParseError,
>)
    requires
        i <= tokens@.len(),
        tokens_wf(token_models(tokens@)),
    ensures
        match r {
            Ok(_) => spec_parse_from(token_models(tokens@), i as int) matches ParseOut::Ops(ops)
                && op_models(final(out)@) == op_models(old(out)@) + ops,
            Err(ParseError::UnknownWord { file: f, row, word }) => f@ == file@ && spec_parse_from(
                token_models(tokens@),
                i as int,
            ) == (ParseOut::UnknownWord { row: row as nat, word: word@ }),
            Err(ParseError::NumberOverflow { file: f, row, digits }) => f@ == file@
                && spec_parse_from(token_models(tokens@), i as int) == (ParseOut::Overflow {
                row: row as nat,
                digits: digits@,
            }),
            Err(ParseError::Lex(_)) => false,
        },
    decreases tokens@.len() - i,
{
    let ghost ms = token_models(tokens@);
    let n = tokens.len();
    if i >= n {
        assert(op_models(out@) =~= op_models(out@) + Seq::<OpModel>::empty());
        return Ok(());
    }
    let t = &tokens[i];
    proof {
        assert(ms[i as int] == tokens@[i as int]@);
    }
    match t.tok_type {
        TokenType::Word => {
            if str_eq(&t.value, "function") {
                let mut name = String::new();
                let mut next_i = i + 1;
                if i + 1 < n {
                    proof {
                        assert(ms[i + 1] == tokens@[i + 1]@);
                    }
                    if tokens[i + 1].tok_type == TokenType::Word {
                        name = tokens[i + 1].value.clone();
                    }
                    next_i = i + 2;
                }
                let op = Op::Function(name);
                out.push(op);
                let r = parse_rec(file, tokens, next_i, out);
                proof {
                    if r is Ok {
                        lemma_emit_op(
                            old(out)@,
                            out@,
                            op,
                            spec_parse_from(ms, next_i as int)->Ops_0,
                        );
                    }
                }
                r
            } else {
                match word_to_op(&t.value) {
                    Some(op) => {
                        out.push(op);
                        let r = parse_rec(file, tokens, i + 1, out);
                        proof {
                            if r is Ok {
                                lemma_emit_op(
                                    old(out)@,
                                    out@,
                                    op,
                                    spec_parse_from(ms, i + 1)->Ops_0,
                                );
                            }
                        }
                        r
                    },
                    None => Err(
                        ParseError::UnknownWord {
                            file: String::from_str(file),
                            row: t.row,
                            word: t.value.clone(),
                        },
                    ),
                }
            }
        },
        TokenType::Number => {
            match parse_number(&t.value) {
                Some(v) => {
                    let op = Op::Number(v);
                    out.push(op);
                    let r = parse_rec(file, tokens, i + 1, out);
                    proof {
                        if r is Ok {
                            lemma_emit_op(old(out)@, out@, op, spec_parse_from(ms, i + 1)->Ops_0);
                        }
                    }
                    r
                },
                None => Err(
                    ParseError::NumberOverflow {
                        file: String::from_str(file),
                        row: t.row,
                        digits: t.value.clone(),
                    },
                ),
            }
        },
        TokenType::Str => {
            let op = Op::Str(t.value.clone());
            out.push(op);
            let r = parse_rec(file, tokens, i + 1, out);
            proof {
                if r is Ok {
                    lemma_emit_op(old(out)@, out@, op, spec_parse_from(ms, i + 1)->Ops_0);
                }
            }
            r
        },
    }
}

impl Parser {
    pub fn new() -> (p: Parser) {
        Parser { lexer: Lexer::new() }
    }

    /// Parses a token sequence into the flat operation stream.
    pub fn parse_tokens(&self, file: &str, tokens: &Vec<Token>) -> (r: Result<Vec<Op>, ParseError>)
        requires
            tokens_wf(token_models(tokens@)),
        ensures
            match r {
                Ok(ops) => spec_parse(token_models(tokens@)) matches ParseOut::Ops(ms)
                    && op_models(ops@) == ms,
                Err(ParseError::UnknownWord { file: f, row, word }) => f@ == file@ && spec_parse(
                    token_models(tokens@),
                ) == (ParseOut::UnknownWord { row: row as nat, word: word@ }),
                Err(ParseError::NumberOverflow { file: f, row, digits }) => f@ == file@
                    && spec_parse(token_models(tokens@)) == (ParseOut::Overflow {
                    row: row as nat,
                    digits: digits@,
                }),
                Err(ParseError::Lex(_)) => false,
            },
    {
        let mut ops: Vec<Op> = Vec::new();
        match parse_rec(file, tokens, 0, &mut ops) {
            Ok(_) => {
                proof {
                    assert(op_models(ops@) =~= Seq::<OpModel>::empty() + op_models(ops@));
                }
                Ok(ops)
            },
            Err(e) => Err(e),
        }
    }

    /// Lexes and parses a whole source text; a lex failure short-circuits
    /// with the lexer's error.
    pub fn parse_source(&self, file: &str, program: &str) -> (r: Result<Vec<Op>, ParseError>)
        ensures
            match spec_lex_source(program@) {
                FileLex::Toks(ts) => match r {
                    Ok(ops) => spec_parse(ts) matches ParseOut::Ops(ms) && op_models(ops@) == ms,
                    Err(ParseError::UnknownWord { file: f, row, word }) => f@ == file@
                        && spec_parse(ts) == (ParseOut::UnknownWord {
                        row: row as nat,
                        word: word@,
                    }),
                    Err(ParseError::NumberOverflow { file: f, row, digits }) => f@ == file@
                        && spec_parse(ts) == (ParseOut::Overflow {
                        row: row as nat,
                        digits: digits@,
                    }),
                    Err(ParseError::Lex(_)) => false,
                },
                FileLex::NonAscii { row } => r matches Err(ParseError::Lex(
                    LexError::NonAsciiInString { file: f, row: r2 },
                )) && f@ == file@ && r2 as nat == row,
                FileLex::Invalid { row, line } => r matches Err(ParseError::Lex(
                    LexError::InvalidCharacter { file: f, row: r2, line: l },
                )) && f@ == file@ && r2 as nat == row && l@ == line,
            },
    {
        match self.lexer.lex_source(file, program) {
            Ok(toks) => {
                proof {
                    lemma_lex_src_wf(program@, 0, 1);
                }
                self.parse_tokens(file, &toks)
            },
            Err(e) => Err(ParseError::Lex(e)),
        }
    }
}

} // verus!
