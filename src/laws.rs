//! Properties of scanning as a whole.
use vstd::prelude::*;

use crate::error::LoxError;
use crate::lexing::{outcome, Token, TokenKind, TokenSpec};
use crate::model::{
    eof_token, lemma_lex_at_advances, lemma_run_end_bounds, lemma_run_end_stops, lex_at, line_at,
    run_end, scan_from, tokens_of, Lexed, Run,
};

verus! {

/// `w` stands in `src` at offset `a`.
pub open spec fn occurs_at(src: Seq<char>, w: Seq<char>, a: int) -> bool {
    0 <= a && a + w.len() <= src.len() && w == src.subrange(a, a + w.len())
}

/// `t` is the token that starts at offset `p` of `src`: its line is the line
/// of `p`, it is not end-of-input, and its lexeme is the non-empty text that starts there or, for a
/// string literal, the text between the quotes that open at `p` and close
/// right after it.
pub open spec fn token_at(src: Seq<char>, t: TokenSpec, p: int) -> bool {
    let n = t.lexeme.len() as int;
    &&& 0 <= p < src.len()
    &&& t.kind != TokenKind::EOF
    &&& t.line == line_at(src, p)
    &&& if t.kind == TokenKind::STRING {
        &&& p + n + 2 <= src.len()
        &&& src[p] == '"'
        &&& src[p + n + 1] == '"'
        &&& t.lexeme == src.subrange(p + 1, p + n + 1)
    } else {
        &&& 0 < n
        &&& p + n <= src.len()
        &&& t.lexeme == src.subrange(p, p + n)
    }
}

/// The number of source characters that token `t` extends over: its lexeme,
/// and the two quotes of a string literal.
pub open spec fn span(t: TokenSpec) -> int {
    if t.kind == TokenKind::STRING {
        t.lexeme.len() as int + 2
    } else {
        t.lexeme.len() as int
    }
}

/// `starts` gives where each token but the last of `ts` starts in `src`, all
/// at or after `from`, and each token's span ends at or before the next one
/// starts; the last token is end-of-input.
pub open spec fn located(src: Seq<char>, ts: Seq<TokenSpec>, starts: Seq<int>, from: int) -> bool {
    &&& ts.len() == starts.len() + 1
    &&& ts.last() == eof_token(src)
    &&& forall|i: int| 0 <= i < starts.len() ==> token_at(src, ts[i], #[trigger] starts[i])
    &&& forall|i: int| 0 <= i < starts.len() ==> from <= #[trigger] starts[i]
    &&& forall|i: int, j: int| 0 <= i < j < starts.len() ==> starts[i] + span(ts[i]) <= starts[j]
}

proof fn lemma_emitted_token_at(src: Seq<char>, pos: int)
    requires
        0 <= pos < src.len(),
        lex_at(src, pos) is Emit,
    ensures
        ({
            let (kind, lexeme) = match lex_at(src, pos) {
                Lexed::Emit { kind, lexeme, .. } => (kind, lexeme),
                _ => (TokenKind::EOF, Seq::empty()),
            };
            let next = match lex_at(src, pos) {
                Lexed::Emit { next, .. } => next,
                _ => pos,
            };
            let t = TokenSpec { kind, lexeme, line: line_at(src, pos) };
            token_at(src, t, pos) && next == pos + span(t)
        }),
{
    lemma_lex_at_advances(src, pos);
    let c = src[pos];
    if c == '"' {
        lemma_run_end_bounds(src, pos + 1, Run::ToQuote);
        lemma_run_end_stops(src, pos + 1, Run::ToQuote);
        let close = run_end(src, pos + 1, Run::ToQuote);
        assert(src.subrange(pos + 1, close).len() == close - pos - 1);
    }
}

proof fn lemma_scan_from_located(src: Seq<char>, pos: int) -> (starts: Seq<int>)
    requires
        0 <= pos <= src.len(),
        scan_from(src, pos) is Ok,
    ensures
        located(src, scan_from(src, pos)->Ok_0, starts, pos),
    decreases src.len() - pos,
{
    if pos == src.len() {
        Seq::empty()
    } else {
        lemma_lex_at_advances(src, pos);
        match lex_at(src, pos) {
            Lexed::Skip { next } => lemma_scan_from_located(src, next),
            Lexed::Emit { kind, lexeme, next } => {
                let rest = lemma_scan_from_located(src, next);
                lemma_emitted_token_at(src, pos);
                let t = TokenSpec { kind, lexeme, line: line_at(src, pos) };
                let ts = scan_from(src, pos)->Ok_0;
                let tail = scan_from(src, next)->Ok_0;
                assert(ts == seq![t] + tail);
                let starts = seq![pos] + rest;
                assert forall|i: int| 0 <= i < starts.len() implies token_at(
                    src,
                    ts[i],
                    #[trigger] starts[i],
                ) by {
                    if i > 0 {
                        assert(ts[i] == tail[i - 1]);
                        assert(starts[i] == rest[i - 1]);
                    }
                }
                assert forall|i: int, j: int| 0 <= i < j < starts.len() implies starts[i] + span(ts[i])
                    <= starts[j] by {
                    if i > 0 {
                        assert(starts[i] == rest[i - 1]);
                        assert(ts[i] == tail[i - 1]);
                    }
                    assert(starts[j] == rest[j - 1]);
                }
                assert(ts.last() == tail.last());
                starts
            },
            Lexed::Fail { .. } => Seq::empty(),
        }
    }
}

/// A successful scan ends in exactly one end-of-input token, with an empty
/// lexeme and the last line of the source; every token before it has, as its
/// lexeme, a stretch of the source text, which is empty only for an empty
/// string literal.
pub proof fn lemma_tokens_are_source_text(src: Seq<char>)
    requires
        tokens_of(src) is Ok,
    ensures
        ({
            let ts = tokens_of(src)->Ok_0;
            &&& ts.len() >= 1
            &&& ts.last().kind == TokenKind::EOF
            &&& ts.last().lexeme.len() == 0
            &&& ts.last().line == line_at(src, src.len() as int)
            &&& forall|i: int| 0 <= i < ts.len() - 1 ==> (#[trigger] ts[i]).kind != TokenKind::EOF
            &&& forall|i: int|
                0 <= i < ts.len() - 1 ==> exists|a: int| occurs_at(src, #[trigger] ts[i].lexeme, a)
            &&& forall|i: int|
                0 <= i < ts.len() - 1 && (#[trigger] ts[i]).kind != TokenKind::STRING
                    ==> ts[i].lexeme.len() > 0
        }),
{
    let ts = tokens_of(src)->Ok_0;
    let starts = lemma_scan_from_located(src, 0);
    assert forall|i: int| 0 <= i < ts.len() - 1 implies exists|a: int| occurs_at(
        src,
        #[trigger] ts[i].lexeme,
        a,
    ) by {
        assert(token_at(src, ts[i], starts[i]));
        if ts[i].kind == TokenKind::STRING {
            assert(occurs_at(src, ts[i].lexeme, starts[i] + 1));
        } else {
            assert(occurs_at(src, ts[i].lexeme, starts[i]));
        }
    }
    assert forall|i: int| 0 <= i < ts.len() - 1 implies (#[trigger] ts[i]).kind != TokenKind::EOF
        && (ts[i].kind != TokenKind::STRING ==> ts[i].lexeme.len() > 0) by {
        assert(token_at(src, ts[i], starts[i]));
    }
}

/// Lines are counted by newlines: each token before end-of-input starts at
/// an offset of the source, the tokens' spans follow one another in source
/// order without overlapping, and a
/// token's line is one more than the number of newlines before its first
/// character (for a string literal, its opening quote); end-of-input carries
/// one more than the number of newlines in the whole source.
pub proof fn lemma_token_lines(src: Seq<char>) -> (starts: Seq<int>)
    requires
        tokens_of(src) is Ok,
    ensures
        located(src, tokens_of(src)->Ok_0, starts, 0),
{
    lemma_scan_from_located(src, 0)
}

/// Scanning depends on the source text alone: two scans of the same text give
/// the same tokens, or the same error.
pub proof fn lemma_scan_idempotent(
    src: Seq<char>,
    first: Result<Vec<Token>, LoxError>,
    second: Result<Vec<Token>, LoxError>,
)
    requires
        outcome(first) == tokens_of(src),
        outcome(second) == tokens_of(src),
    ensures
        outcome(first) == outcome(second),
{
}

} // verus!
