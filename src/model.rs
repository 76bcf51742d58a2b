//! The meaning of scanning, stated over sequences of characters.
use vstd::prelude::*;

use crate::error::{LoxError, LoxErrorKind};
use crate::lexing::{TokenKind, TokenSpec};

verus! {

/// The number of newline characters in `s`.
pub open spec fn newlines(s: Seq<char>) -> nat
    decreases s.len(),
{
    if s.len() == 0 {
        0
    } else {
        newlines(s.drop_last()) + if s.last() == '\n' { 1nat } else { 0nat }
    }
}

/// The 1-based line on which offset `pos` of `src` stands.
pub open spec fn line_at(src: Seq<char>, pos: int) -> int {
    1 + newlines(src.take(pos)) as int
}

/// An ASCII decimal digit.
pub open spec fn is_digit(c: char) -> bool {
    '0' <= c <= '9'
}

/// A character that may start an identifier.
pub open spec fn is_alpha(c: char) -> bool {
    ('a' <= c <= 'z') || ('A' <= c <= 'Z') || c == '_'
}

/// A character that may continue an identifier.
pub open spec fn is_alphanumeric(c: char) -> bool {
    is_alpha(c) || is_digit(c)
}

/// A stretch of characters that one token or comment extends over.
#[derive(Clone, Copy, PartialEq, Eq, Structural)]
pub enum Run {
    /// ASCII digits.
    Digits,
    /// Letters, digits and underscores.
    Word,
    /// Anything but a newline.
    ToLineEnd,
    /// Anything but a double quote.
    ToQuote,
}

/// Whether `c` extends a stretch of kind `run`.
pub open spec fn continues(run: Run, c: char) -> bool {
    match run {
        Run::Digits => is_digit(c),
        Run::Word => is_alphanumeric(c),
        Run::ToLineEnd => c != '\n',
        Run::ToQuote => c != '"',
    }
}

/// The first offset at or after `i` whose character does not continue `run`,
/// or the end of `src`.
pub open spec fn run_end(src: Seq<char>, i: int, run: Run) -> int
    decreases src.len() - i,
{
    if 0 <= i < src.len() && continues(run, src[i]) {
        run_end(src, i + 1, run)
    } else {
        i
    }
}

/// The kind of a token made of the one character `c` alone.
pub open spec fn single_kind(c: char) -> Option<TokenKind> {
    if c == '(' {
        Some(TokenKind::LEFT_PAREN)
    } else if c == ')' {
        Some(TokenKind::RIGHT_PAREN)
    } else if c == '[' || c == '{' {
        Some(TokenKind::LEFT_BRACE)
    } else if c == ']' || c == '}' {
        Some(TokenKind::RIGHT_BRACE)
    } else if c == ',' {
        Some(TokenKind::COMMA)
    } else if c == '.' {
        Some(TokenKind::DOT)
    } else if c == '-' {
        Some(TokenKind::MINUS)
    } else if c == '+' {
        Some(TokenKind::PLUS)
    } else if c == ';' {
        Some(TokenKind::SEMICOLON)
    } else if c == '*' {
        Some(TokenKind::STAR)
    } else {
        None
    }
}

/// For an operator character, its kind alone and its kind followed by `=`.
pub open spec fn operator_kinds(c: char) -> Option<(TokenKind, TokenKind)> {
    if c == '!' {
        Some((TokenKind::BANG, TokenKind::BANG_EQUAL))
    } else if c == '=' {
        Some((TokenKind::EQUAL, TokenKind::EQUAL_EQUAL))
    } else if c == '>' {
        Some((TokenKind::GREATER, TokenKind::GREATER_EQUAL))
    } else if c == '<' {
        Some((TokenKind::LESS, TokenKind::LESS_EQUAL))
    } else {
        None
    }
}

/// The reserved word that `w` spells exactly, if any.
pub open spec fn keyword(w: Seq<char>) -> Option<TokenKind> {
    if w == seq!['a', 'n', 'd'] {
        Some(TokenKind::AND)
    } else if w == seq!['c', 'l', 'a', 's', 's'] {
        Some(TokenKind::CLASS)
    } else if w == seq!['e', 'l', 's', 'e'] {
        Some(TokenKind::ELSE)
    } else if w == seq!['f', 'a', 'l', 's', 'e'] {
        Some(TokenKind::FALSE)
    } else if w == seq!['f', 'u', 'n'] {
        Some(TokenKind::FUN)
    } else if w == seq!['f', 'o', 'r'] {
        Some(TokenKind::FOR)
    } else if w == seq!['i', 'f'] {
        Some(TokenKind::IF)
    } else if w == seq!['n', 'i', 'l'] {
        Some(TokenKind::NIL)
    } else if w == seq!['o', 'r'] {
        Some(TokenKind::OR)
    } else if w == seq!['p', 'r', 'i', 'n', 't'] {
        Some(TokenKind::PRINT)
    } else if w == seq!['r', 'e', 't', 'u', 'r', 'n'] {
        Some(TokenKind::RETURN)
    } else if w == seq!['s', 'u', 'p', 'e', 'r'] {
        Some(TokenKind::SUPER)
    } else if w == seq!['t', 'h', 'i', 's'] {
        Some(TokenKind::THIS)
    } else if w == seq!['t', 'r', 'u', 'e'] {
        Some(TokenKind::TRUE)
    } else if w == seq!['v', 'a', 'r'] {
        Some(TokenKind::VAR)
    } else if w == seq!['w', 'h', 'i', 'l', 'e'] {
        Some(TokenKind::WHILE)
    } else {
        None
    }
}

/// What the scanner does with the construct that starts at an offset.
pub enum Lexed {
    /// Nothing is emitted; scanning resumes at `next`.
    Skip { next: int },
    /// A token is emitted; scanning resumes at `next`.
    Emit { kind: TokenKind, lexeme: Seq<char>, next: int },
    /// Scanning stops with an error.
    Fail { error: LoxErrorKind },
}

/// Recognizes the construct that starts at offset `pos` of `src`.
pub open spec fn lex_at(src: Seq<char>, pos: int) -> Lexed
    recommends
        0 <= pos < src.len(),
{
    let c = src[pos];
    if c == '/' {
        if pos + 1 < src.len() && src[pos + 1] == '/' {
            Lexed::Skip { next: run_end(src, pos + 2, Run::ToLineEnd) }
        } else {
            Lexed::Emit { kind: TokenKind::SLASH, lexeme: src.subrange(pos, pos + 1), next: pos + 1 }
        }
    } else if let Some(kind) = single_kind(c) {
        Lexed::Emit { kind, lexeme: src.subrange(pos, pos + 1), next: pos + 1 }
    } else if let Some((one, two)) = operator_kinds(c) {
        if pos + 1 < src.len() && src[pos + 1] == '=' {
            Lexed::Emit { kind: two, lexeme: src.subrange(pos, pos + 2), next: pos + 2 }
        } else {
            Lexed::Emit { kind: one, lexeme: src.subrange(pos, pos + 1), next: pos + 1 }
        }
    } else if c == '\n' || c == ' ' || c == '\r' || c == '\t' {
        Lexed::Skip { next: pos + 1 }
    } else if c == '"' {
        let close = run_end(src, pos + 1, Run::ToQuote);
        if close < src.len() {
            Lexed::Emit { kind: TokenKind::STRING, lexeme: src.subrange(pos + 1, close), next: close + 1 }
        } else {
            Lexed::Fail { error: LoxErrorKind::UnterminatedString }
        }
    } else if is_digit(c) {
        let d = run_end(src, pos, Run::Digits);
        if d < src.len() && src[d] == '.' {
            if d + 1 < src.len() && is_digit(src[d + 1]) {
                let e = run_end(src, d + 1, Run::Digits);
                Lexed::Emit { kind: TokenKind::NUMBER, lexeme: src.subrange(pos, e), next: e }
            } else {
                Lexed::Fail { error: LoxErrorKind::MalformedNumber }
            }
        } else {
            Lexed::Emit { kind: TokenKind::NUMBER, lexeme: src.subrange(pos, d), next: d }
        }
    } else if is_alpha(c) {
        let e = run_end(src, pos, Run::Word);
        let w = src.subrange(pos, e);
        Lexed::Emit {
            kind: match keyword(w) {
                Some(k) => k,
                None => TokenKind::IDENTIFIER,
            },
            lexeme: w,
            next: e,
        }
    } else {
        Lexed::Fail { error: LoxErrorKind::UnexpectedCharacter(c) }
    }
}

/// The end-of-input token that closes every successful scan of `src`.
pub open spec fn eof_token(src: Seq<char>) -> TokenSpec {
    TokenSpec { kind: TokenKind::EOF, lexeme: Seq::empty(), line: line_at(src, src.len() as int) }
}

/// The tokens of `src` from offset `pos` on, or the first error met there.
pub open spec fn scan_from(src: Seq<char>, pos: int) -> Result<Seq<TokenSpec>, LoxError>
    decreases src.len() - pos,
{
    if 0 <= pos < src.len() {
        proof {
            lemma_lex_at_advances(src, pos);
        }
        match lex_at(src, pos) {
            Lexed::Skip { next } => scan_from(src, next),
            Lexed::Emit { kind, lexeme, next } => match scan_from(src, next) {
                Ok(rest) => Ok(seq![TokenSpec { kind, lexeme, line: line_at(src, pos) }] + rest),
                Err(e) => Err(e),
            },
            Lexed::Fail { error } => Err(LoxError { kind: error, lineno: line_at(src, pos) as u32 }),
        }
    } else {
        Ok(seq![eof_token(src)])
    }
}

/// The tokens of `src`, ending in end-of-input, or the first lexical error.
pub open spec fn tokens_of(src: Seq<char>) -> Result<Seq<TokenSpec>, LoxError> {
    scan_from(src, 0)
}

/// Moving one character forward adds one line exactly when that character is
/// a newline.
pub proof fn lemma_newlines_step(src: Seq<char>, i: int)
    requires
        0 <= i < src.len(),
    ensures
        newlines(src.take(i + 1)) == newlines(src.take(i)) + if src[i] == '\n' { 1nat } else { 0nat },
{
    assert(src.take(i + 1).drop_last() =~= src.take(i));
}

/// A text has no more newlines than characters.
pub proof fn lemma_newlines_bound(s: Seq<char>)
    ensures
        newlines(s) <= s.len(),
    decreases s.len(),
{
    if s.len() > 0 {
        lemma_newlines_bound(s.drop_last());
    }
}

/// A run ends between where it starts and the end of the text.
pub proof fn lemma_run_end_bounds(src: Seq<char>, i: int, run: Run)
    requires
        0 <= i <= src.len(),
    ensures
        i <= run_end(src, i, run) <= src.len(),
    decreases src.len() - i,
{
    if i < src.len() && continues(run, src[i]) {
        lemma_run_end_bounds(src, i + 1, run);
    }
}

/// A run that stops inside `src` stops at a character that does not continue it.
pub proof fn lemma_run_end_stops(src: Seq<char>, i: int, run: Run)
    requires
        0 <= i <= src.len(),
        run_end(src, i, run) < src.len(),
    ensures
        !continues(run, src[run_end(src, i, run)]),
    decreases src.len() - i,
{
    if i < src.len() && continues(run, src[i]) {
        lemma_run_end_stops(src, i + 1, run);
    }
}

/// Every construct that does not fail moves the scan forward, within `src`.
pub proof fn lemma_lex_at_advances(src: Seq<char>, pos: int)
    requires
        0 <= pos < src.len(),
    ensures
        match lex_at(src, pos) {
            Lexed::Skip { next } => pos < next <= src.len(),
            Lexed::Emit { next, .. } => pos < next <= src.len(),
            Lexed::Fail { .. } => true,
        },
{
    let c = src[pos];
    if c == '/' && pos + 1 < src.len() && src[pos + 1] == '/' {
        lemma_run_end_bounds(src, pos + 2, Run::ToLineEnd);
    } else if c == '"' {
        lemma_run_end_bounds(src, pos + 1, Run::ToQuote);
    } else if is_digit(c) {
        lemma_run_end_bounds(src, pos + 1, Run::Digits);
        assert(continues(Run::Digits, c));
        let d = run_end(src, pos, Run::Digits);
        if d + 1 < src.len() {
            lemma_run_end_bounds(src, d + 1, Run::Digits);
        }
    } else if is_alpha(c) {
        lemma_run_end_bounds(src, pos + 1, Run::Word);
        assert(continues(Run::Word, c));
    }
}

} // verus!
