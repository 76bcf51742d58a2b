use vstd::prelude::*;

use crate::error::{LoxError, LoxErrorKind};
use crate::model::{
    continues, eof_token, is_alpha, is_digit, keyword, lemma_lex_at_advances,
    lemma_newlines_bound, lemma_newlines_step, lemma_run_end_bounds, lex_at, line_at,
    operator_kinds, run_end, scan_from, single_kind, tokens_of, Lexed, Run,
};

verus! {

/// The closed set of token tags.
#[allow(non_camel_case_types)]
#[derive(Clone, Copy, Debug, PartialEq, Eq, Structural)]
pub enum TokenKind {
    LEFT_PAREN, RIGHT_PAREN,
    LEFT_BRACE, RIGHT_BRACE,
    COMMA, DOT, MINUS, PLUS, SEMICOLON, SLASH, STAR,
    BANG, BANG_EQUAL,
    EQUAL, EQUAL_EQUAL,
    GREATER, GREATER_EQUAL,
    LESS, LESS_EQUAL,
    IDENTIFIER, STRING, NUMBER,
    AND, CLASS, ELSE, FALSE, FUN,
    FOR, IF, NIL, OR, PRINT, RETURN, SUPER,
    THIS, TRUE, VAR, WHILE,
    EOF,
}

/// Relies on `String::push`: the character is appended at the end.
pub assume_specification[ String::push ](s: &mut String, ch: char)
    ensures
        final(s)@ == old(s)@.push(ch),
;

/// A token as the contracts see it.
pub struct TokenSpec {
    pub kind: TokenKind,
    pub lexeme: Seq<char>,
    pub line: int,
}

/// A classified fragment of source text: its kind, its lexeme and the line of
/// its first character.
#[derive(Clone, Debug, PartialEq, Eq)]
pub struct Token {
    kind: TokenKind,
    lexeme: String,
    line: u32,
}

impl View for Token {
    type V = TokenSpec;

    closed spec fn view(&self) -> TokenSpec {
        TokenSpec { kind: self.kind, lexeme: self.lexeme@, line: self.line as int }
    }
}

impl Token {
    /// The token's tag.
    pub fn kind(&self) -> (r: TokenKind)
        ensures
            r == self@.kind,
    {
        self.kind
    }

    /// The source text of the token; for a string literal, the text between
    /// the quotes; empty for end-of-input.
    pub fn lexeme(&self) -> (r: &str)
        ensures
            r@ == self@.lexeme,
    {
        self.lexeme.as_str()
    }

    /// The 1-based line of the token's first character.
    pub fn line(&self) -> (r: u32)
        ensures
            r as int == self@.line,
    {
        self.line
    }

    /// A token with the given parts.
    pub fn new(kind: TokenKind, lexeme: String, line: u32) -> (t: Token)
        ensures
            t@ == (TokenSpec { kind, lexeme: lexeme@, line: line as int }),
    {
        Token { kind, lexeme, line }
    }
}


/// Scans `source` into its tokens, ending in end-of-input, or reports the
/// first lexical error.
pub fn scan(source: &str) -> (r: Result<Vec<Token>, LoxError>)
    requires
        source@.len() < u32::MAX,
    ensures
        outcome(r) == tokens_of(source@),
{
    let mut scanner = Scanner::new(source);
    scanner.scan_tokens()
}

/// The views of a sequence of tokens.
pub open spec fn views(ts: Seq<Token>) -> Seq<TokenSpec> {
    ts.map_values(|t: Token| t@)
}

/// The tokens `done` put in front of the outcome of scanning the rest.
pub open spec fn prefixed(
    done: Seq<TokenSpec>,
    rest: Result<Seq<TokenSpec>, LoxError>,
) -> Result<Seq<TokenSpec>, LoxError> {
    match rest {
        Ok(r) => Ok(done + r),
        Err(e) => Err(e),
    }
}

/// The outcome of a scan as the contracts see it.
pub open spec fn outcome(r: Result<Vec<Token>, LoxError>) -> Result<Seq<TokenSpec>, LoxError> {
    match r {
        Ok(v) => Ok(views(v@)),
        Err(e) => Err(e),
    }
}

fn chars_of(s: &str) -> (v: Vec<char>)
    ensures
        v@ == s@,
{
    let mut v: Vec<char> = Vec::new();
    for c in it: s.chars()
        invariant
            v@ == it.seq().take(it.index() as int),
    {
        v.push(c);
    }
    v
}

fn is_digit_char(c: char) -> (r: bool)
    ensures
        r == is_digit(c),
{
    '0' <= c && c <= '9'
}

fn is_alpha_char(c: char) -> (r: bool)
    ensures
        r == is_alpha(c),
{
    ('a' <= c && c <= 'z') || ('A' <= c && c <= 'Z') || c == '_'
}

fn run_continues(run: Run, c: char) -> (r: bool)
    ensures
        r == continues(run, c),
{
    match run {
        Run::Digits => is_digit_char(c),
        Run::Word => is_alpha_char(c) || is_digit_char(c),
        Run::ToLineEnd => c != '\n',
        Run::ToQuote => c != '"',
    }
}

fn single_kind_of(c: char) -> (r: Option<TokenKind>)
    ensures
        r == single_kind(c),
{
    match c {
        '(' => Some(TokenKind::LEFT_PAREN),
        ')' => Some(TokenKind::RIGHT_PAREN),
        '[' | '{' => Some(TokenKind::LEFT_BRACE),
        ']' | '}' => Some(TokenKind::RIGHT_BRACE),
        ',' => Some(TokenKind::COMMA),
        '.' => Some(TokenKind::DOT),
        '-' => Some(TokenKind::MINUS),
        '+' => Some(TokenKind::PLUS),
        ';' => Some(TokenKind::SEMICOLON),
        '*' => Some(TokenKind::STAR),
        _ => None,
    }
}

fn operator_kinds_of(c: char) -> (r: Option<(TokenKind, TokenKind)>)
    ensures
        r == operator_kinds(c),
{
    match c {
        '!' => Some((TokenKind::BANG, TokenKind::BANG_EQUAL)),
        '=' => Some((TokenKind::EQUAL, TokenKind::EQUAL_EQUAL)),
        '>' => Some((TokenKind::GREATER, TokenKind::GREATER_EQUAL)),
        '<' => Some((TokenKind::LESS, TokenKind::LESS_EQUAL)),
        _ => None,
    }
}

/// Turns source text into tokens, one construct at a time.
///
/// The source is read as characters, not bytes. Scanning stops at the first
/// lexical error and returns it alone, without the tokens before it. A token's
/// line is the line of its first character, so an unterminated string is
/// reported on the line where it opened. A line comment that runs to the end
/// of the input is no error.
pub struct Scanner {
    source: Vec<char>,
    start: usize,
    current: usize,
    line: u32,
    start_line: u32,
    tokens: Vec<Token>,
}

impl Scanner {
    /// The source text, as characters.
    pub closed spec fn text(&self) -> Seq<char> {
        self.source@
    }

    /// Where the construct being recognized starts.
    pub closed spec fn token_start(&self) -> int {
        self.start as int
    }

    /// The cursor: the offset of the next character to read.
    pub closed spec fn cursor(&self) -> int {
        self.current as int
    }

    /// The line on which the cursor stands.
    pub closed spec fn current_line(&self) -> int {
        self.line as int
    }

    /// The tokens emitted so far.
    pub closed spec fn emitted(&self) -> Seq<TokenSpec> {
        views(self.tokens@)
    }

    /// The cursor lies within the source and the line counters agree with it.
    pub closed spec fn wf(&self) -> bool {
        &&& self.source.len() < u32::MAX
        &&& self.start <= self.current <= self.source.len()
        &&& self.line == line_at(self.source@, self.current as int)
        &&& self.start_line == line_at(self.source@, self.start as int)
    }

    /// A scanner over `source`, with the cursor at its start.
    pub fn new(source: &str) -> (s: Scanner)
        requires
            source@.len() < u32::MAX,
        ensures
            s.wf(),
            s.text() == source@,
            s.token_start() == 0,
            s.cursor() == 0,
            s.current_line() == 1,
            s.emitted() == Seq::<TokenSpec>::empty(),
    {
        let source = chars_of(source);
        proof {
            assert(source@.take(0) =~= Seq::<char>::empty());
        }
        Scanner { source, start: 0, current: 0, line: 1, start_line: 1, tokens: Vec::new() }
    }

    fn has_ended(&self) -> (r: bool)
        ensures
            r == (self.current >= self.source.len()),
    {
        self.current >= self.source.len()
    }

    /// The character under the cursor.
    fn peek(&self) -> (r: Option<char>)
        requires
            self.wf(),
        ensures
            r == if self.current < self.source.len() {
                Some(self.source@[self.current as int])
            } else {
                None::<char>
            },
    {
        if self.current < self.source.len() {
            Some(self.source[self.current])
        } else {
            None
        }
    }

    /// The character after the one under the cursor.
    fn peek_next(&self) -> (r: Option<char>)
        requires
            self.wf(),
        ensures
            r == if self.current + 1 < self.source.len() {
                Some(self.source@[self.current + 1])
            } else {
                None::<char>
            },
    {
        if self.current + 1 < self.source.len() {
            Some(self.source[self.current + 1])
        } else {
            None
        }
    }

    /// Moves the cursor over one character, counting it if it is a newline.
    fn advance(&mut self)
        requires
            old(self).wf(),
            old(self).current < old(self).source.len(),
        ensures
            final(self).wf(),
            final(self).current == old(self).current + 1,
            final(self).source@ == old(self).source@,
            final(self).start == old(self).start,
            final(self).tokens@ == old(self).tokens@,
    {
        proof {
            lemma_newlines_step(self.source@, self.current as int);
            lemma_newlines_bound(self.source@.take(self.current as int));
        }
        if self.source[self.current] == '\n' {
            self.line = self.line + 1;
        }
        self.current = self.current + 1;
    }

    /// Consumes the character under the cursor when it is `c`.
    fn next_is(&mut self, c: char) -> (r: bool)
        requires
            old(self).wf(),
        ensures
            final(self).wf(),
            r == (old(self).current < old(self).source.len() && old(self).source@[old(self).current as int] == c),
            final(self).current == old(self).current + if r { 1int } else { 0int },
            final(self).source@ == old(self).source@,
            final(self).start == old(self).start,
            final(self).tokens@ == old(self).tokens@,
    {
        if let Some(d) = self.peek() {
            if d == c {
                self.advance();
                return true;
            }
        }
        false
    }

    /// Moves the cursor to the end of `run`.
    fn skip_run(&mut self, run: Run)
        requires
            old(self).wf(),
        ensures
            final(self).wf(),
            final(self).current == run_end(old(self).source@, old(self).current as int, run),
            final(self).source@ == old(self).source@,
            final(self).start == old(self).start,
            final(self).tokens@ == old(self).tokens@,
    {
        let ghost src = self.source@;
        let ghost from = self.current as int;
        let ghost start = self.start;
        let ghost tokens = self.tokens@;
        while self.current < self.source.len() && run_continues(run, self.source[self.current])
            invariant
                self.wf(),
                self.source@ == src,
                self.start == start,
                self.tokens@ == tokens,
                from <= self.current,
                run_end(src, self.current as int, run) == run_end(src, from, run),
            decreases src.len() - self.current,
        {
            self.advance();
        }
    }

    /// The source text from `from` up to `to`.
    fn slice(&self, from: usize, to: usize) -> (r: String)
        requires
            from <= to <= self.source.len(),
        ensures
            r@ == self.source@.subrange(from as int, to as int),
    {
        let mut s = String::new();
        let mut i: usize = from;
        while i < to
            invariant
                from <= i <= to <= self.source.len(),
                s@ == self.source@.subrange(from as int, i as int),
            decreases to - i,
        {
            proof {
                assert(self.source@.subrange(from as int, i + 1) =~= self.source@.subrange(
                    from as int,
                    i as int,
                ).push(self.source@[i as int]));
            }
            s.push(self.source[i]);
            i = i + 1;
        }
        s
    }

    /// Appends a token of `kind` whose lexeme runs from `from` up to `to`, on
    /// the line where the current construct started.
    fn push_token(&mut self, kind: TokenKind, from: usize, to: usize)
        requires
            old(self).wf(),
            from <= to <= old(self).source.len(),
        ensures
            final(self).wf(),
            views(final(self).tokens@) == views(old(self).tokens@).push(
                TokenSpec {
                    kind,
                    lexeme: old(self).source@.subrange(from as int, to as int),
                    line: line_at(old(self).source@, old(self).start as int),
                },
            ),
            final(self).source@ == old(self).source@,
            final(self).start == old(self).start,
            final(self).current == old(self).current,
    {
        let lexeme = self.slice(from, to);
        let t = Token::new(kind, lexeme, self.start_line);
        self.tokens.push(t);
        proof {
            assert(views(self.tokens@) =~= views(old(self).tokens@).push(t@));
        }
    }

    /// Whether the source text from `from` up to `to` is exactly `word`.
    fn spells(&self, from: usize, to: usize, word: &[char]) -> (r: bool)
        requires
            from <= to <= self.source.len(),
        ensures
            r == (self.source@.subrange(from as int, to as int) == word@),
    {
        if to - from != word.len() {
            return false;
        }
        let mut i: usize = 0;
        while i < word.len()
            invariant
                to - from == word.len(),
                from <= to <= self.source.len(),
                0 <= i <= word.len(),
                forall|j: int| 0 <= j < i ==> self.source@[from + j] == word@[j],
            decreases word.len() - i,
        {
            if self.source[from + i] != word[i] {
                proof {
                    assert(self.source@.subrange(from as int, to as int)[i as int] != word@[i as int]);
                }
                return false;
            }
            i = i + 1;
        }
        proof {
            assert(self.source@.subrange(from as int, to as int) =~= word@);
        }
        true
    }

    /// The reserved word that the source text from `from` up to `to` spells.
    fn keyword_kind(&self, from: usize, to: usize) -> (r: Option<TokenKind>)
        requires
            from <= to <= self.source.len(),
        ensures
            r == keyword(self.source@.subrange(from as int, to as int)),
    {
        if self.spells(from, to, &['a', 'n', 'd']) {
            Some(TokenKind::AND)
        } else if self.spells(from, to, &['c', 'l', 'a', 's', 's']) {
            Some(TokenKind::CLASS)
        } else if self.spells(from, to, &['e', 'l', 's', 'e']) {
            Some(TokenKind::ELSE)
        } else if self.spells(from, to, &['f', 'a', 'l', 's', 'e']) {
            Some(TokenKind::FALSE)
        } else if self.spells(from, to, &['f', 'u', 'n']) {
            Some(TokenKind::FUN)
        } else if self.spells(from, to, &['f', 'o', 'r']) {
            Some(TokenKind::FOR)
        } else if self.spells(from, to, &['i', 'f']) {
            Some(TokenKind::IF)
        } else if self.spells(from, to, &['n', 'i', 'l']) {
            Some(TokenKind::NIL)
        } else if self.spells(from, to, &['o', 'r']) {
            Some(TokenKind::OR)
        } else if self.spells(from, to, &['p', 'r', 'i', 'n', 't']) {
            Some(TokenKind::PRINT)
        } else if self.spells(from, to, &['r', 'e', 't', 'u', 'r', 'n']) {
            Some(TokenKind::RETURN)
        } else if self.spells(from, to, &['s', 'u', 'p', 'e', 'r']) {
            Some(TokenKind::SUPER)
        } else if self.spells(from, to, &['t', 'h', 'i', 's']) {
            Some(TokenKind::THIS)
        } else if self.spells(from, to, &['t', 'r', 'u', 'e']) {
            Some(TokenKind::TRUE)
        } else if self.spells(from, to, &['v', 'a', 'r']) {
            Some(TokenKind::VAR)
        } else if self.spells(from, to, &['w', 'h', 'i', 'l', 'e']) {
            Some(TokenKind::WHILE)
        } else {
            None
        }
    }

    /// Recognizes the construct under the cursor, which is where it starts,
    /// and emits its token if it has one.
    fn scan_single_token(&mut self) -> (r: Result<(), LoxError>)
        requires
            old(self).wf(),
            old(self).start == old(self).current,
            old(self).current < old(self).source.len(),
        ensures
            final(self).wf(),
            final(self).source@ == old(self).source@,
            match lex_at(old(self).source@, old(self).current as int) {
                Lexed::Skip { next } => {
                    &&& r is Ok
                    &&& final(self).current == next
                    &&& views(final(self).tokens@) == views(old(self).tokens@)
                },
                Lexed::Emit { kind, lexeme, next } => {
                    &&& r is Ok
                    &&& final(self).current == next
                    &&& views(final(self).tokens@) == views(old(self).tokens@).push(
                        TokenSpec {
                            kind,
                            lexeme,
                            line: line_at(old(self).source@, old(self).current as int),
                        },
                    )
                },
                Lexed::Fail { error } => {
                    &&& r == Err::<(), LoxError>(
                        LoxError {
                            kind: error,
                            lineno: line_at(old(self).source@, old(self).current as int) as u32,
                        },
                    )
                    &&& final(self).tokens@ == old(self).tokens@
                },
            },
    {
        let ghost src = self.source@;
        let ghost pos = self.current as int;
        proof {
            lemma_lex_at_advances(src, pos);
        }
        let c = self.source[self.current];
        self.advance();
        if c == '/' {
            if self.next_is('/') {
                self.skip_run(Run::ToLineEnd);
            } else {
                self.push_token(TokenKind::SLASH, self.start, self.current);
            }
        } else if let Some(kind) = single_kind_of(c) {
            self.push_token(kind, self.start, self.current);
        } else if let Some((one, two)) = operator_kinds_of(c) {
            let kind = if self.next_is('=') {
                two
            } else {
                one
            };
            self.push_token(kind, self.start, self.current);
        } else if c == '\n' || c == ' ' || c == '\r' || c == '\t' {
        } else if c == '"' {
            proof {
                lemma_run_end_bounds(src, pos + 1, Run::ToQuote);
            }
            self.skip_run(Run::ToQuote);
            if self.has_ended() {
                return Err(LoxError { kind: LoxErrorKind::UnterminatedString, lineno: self.start_line });
            }
            let close = self.current;
            self.advance();
            self.push_token(TokenKind::STRING, self.start + 1, close);
        } else if is_digit_char(c) {
            self.skip_run(Run::Digits);
            let dot = match self.peek() {
                Some(d) => d == '.',
                None => false,
            };
            if dot {
                let fraction = match self.peek_next() {
                    Some(d) => is_digit_char(d),
                    None => false,
                };
                if !fraction {
                    return Err(LoxError { kind: LoxErrorKind::MalformedNumber, lineno: self.start_line });
                }
                self.advance();
                proof {
                    lemma_run_end_bounds(src, self.current as int, Run::Digits);
                }
                self.skip_run(Run::Digits);
            }
            self.push_token(TokenKind::NUMBER, self.start, self.current);
        } else if is_alpha_char(c) {
            self.skip_run(Run::Word);
            let kind = match self.keyword_kind(self.start, self.current) {
                Some(k) => k,
                None => TokenKind::IDENTIFIER,
            };
            self.push_token(kind, self.start, self.current);
        } else {
            return Err(LoxError { kind: LoxErrorKind::UnexpectedCharacter(c), lineno: self.start_line });
        }
        Ok(())
    }

    /// Scans the whole source text from its start.
    pub fn scan_tokens(&mut self) -> (r: Result<Vec<Token>, LoxError>)
        requires
            old(self).wf(),
        ensures
            final(self).wf(),
            final(self).text() == old(self).text(),
            outcome(r) == tokens_of(old(self).text()),
    {
        let ghost src = self.source@;
        self.start = 0;
        self.current = 0;
        self.line = 1;
        self.start_line = 1;
        self.tokens = Vec::new();
        proof {
            assert(src.take(0) =~= Seq::<char>::empty());
            assert(views(self.tokens@) =~= Seq::<TokenSpec>::empty());
            assert(tokens_of(src) =~= prefixed(views(self.tokens@), scan_from(src, 0)));
        }
        while self.current < self.source.len()
            invariant
                self.wf(),
                self.source@ == src,
                src == old(self).source@,
                prefixed(views(self.tokens@), scan_from(src, self.current as int)) == tokens_of(src),
            decreases src.len() - self.current,
        {
            let ghost pos = self.current as int;
            let ghost done = views(self.tokens@);
            self.start = self.current;
            self.start_line = self.line;
            let step = self.scan_single_token();
            proof {
                lemma_lex_at_advances(src, pos);
                if let Lexed::Emit { kind, lexeme, next } = lex_at(src, pos) {
                    let t = TokenSpec { kind, lexeme, line: line_at(src, pos) };
                    if let Ok(rest) = scan_from(src, next) {
                        assert(done.push(t) + rest =~= done + (seq![t] + rest));
                    }
                }
            }
            if let Err(e) = step {
                return Err(e);
            }
        }
        let ghost before = self.tokens@;
        let eof = Token::new(TokenKind::EOF, String::new(), self.line);
        self.tokens.push(eof);
        let mut out: Vec<Token> = Vec::new();
        std::mem::swap(&mut out, &mut self.tokens);
        proof {
            assert(eof@ == eof_token(src));
            assert(views(out@) =~= views(before) + seq![eof_token(src)]);
        }
        Ok(out)
    }
}

} // verus!
