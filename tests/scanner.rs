use lox_scanner::{scan, LoxError, LoxErrorKind, Scanner, Token, TokenKind};

fn kinds_and_lexemes(tokens: &[Token]) -> Vec<(TokenKind, String)> {
    tokens.iter().map(|t| (t.kind(), t.lexeme().to_string())).collect()
}

fn expect(source: &str, expected: &[(TokenKind, &str)]) -> Vec<Token> {
    let tokens = scan(source).expect("scan should succeed");
    let want: Vec<(TokenKind, String)> =
        expected.iter().map(|(k, l)| (*k, l.to_string())).collect();
    assert_eq!(kinds_and_lexemes(&tokens), want);
    tokens
}

fn expect_error(source: &str) -> LoxError {
    scan(source).expect_err("scan should fail")
}

#[test]
fn empty_source_gives_only_end_of_input() {
    let tokens = expect("", &[(TokenKind::EOF, "")]);
    assert_eq!(tokens[0].line(), 1);
}

#[test]
fn left_paren() {
    let tokens = expect("(", &[(TokenKind::LEFT_PAREN, "("), (TokenKind::EOF, "")]);
    assert_eq!(tokens.len(), 2);
}

#[test]
fn bang_equal_and_bang() {
    expect("!=", &[(TokenKind::BANG_EQUAL, "!="), (TokenKind::EOF, "")]);
    expect("!", &[(TokenKind::BANG, "!"), (TokenKind::EOF, "")]);
}

#[test]
fn all_operators_take_the_longest_match() {
    expect(
        "= == > >= < <= !!=",
        &[
            (TokenKind::EQUAL, "="),
            (TokenKind::EQUAL_EQUAL, "=="),
            (TokenKind::GREATER, ">"),
            (TokenKind::GREATER_EQUAL, ">="),
            (TokenKind::LESS, "<"),
            (TokenKind::LESS_EQUAL, "<="),
            (TokenKind::BANG, "!"),
            (TokenKind::BANG_EQUAL, "!="),
            (TokenKind::EOF, ""),
        ],
    );
    expect("===", &[(TokenKind::EQUAL_EQUAL, "=="), (TokenKind::EQUAL, "="), (TokenKind::EOF, "")]);
}

#[test]
fn punctuation() {
    expect(
        "(){}[],.-+;*/",
        &[
            (TokenKind::LEFT_PAREN, "("),
            (TokenKind::RIGHT_PAREN, ")"),
            (TokenKind::LEFT_BRACE, "{"),
            (TokenKind::RIGHT_BRACE, "}"),
            (TokenKind::LEFT_BRACE, "["),
            (TokenKind::RIGHT_BRACE, "]"),
            (TokenKind::COMMA, ","),
            (TokenKind::DOT, "."),
            (TokenKind::MINUS, "-"),
            (TokenKind::PLUS, "+"),
            (TokenKind::SEMICOLON, ";"),
            (TokenKind::STAR, "*"),
            (TokenKind::SLASH, "/"),
            (TokenKind::EOF, ""),
        ],
    );
}

#[test]
fn string_lexeme_excludes_quotes() {
    expect("\"hi\"", &[(TokenKind::STRING, "hi"), (TokenKind::EOF, "")]);
}

#[test]
fn empty_string_literal() {
    expect("\"\"", &[(TokenKind::STRING, ""), (TokenKind::EOF, "")]);
}

#[test]
fn number_with_fraction() {
    expect("123.45", &[(TokenKind::NUMBER, "123.45"), (TokenKind::EOF, "")]);
    expect("7", &[(TokenKind::NUMBER, "7"), (TokenKind::EOF, "")]);
}

#[test]
fn number_with_trailing_dot_is_malformed() {
    let e = expect_error("123.");
    assert_eq!(e.kind, LoxErrorKind::MalformedNumber);
    assert_eq!(e.lineno, 1);
    let e = expect_error("\n\n1.x");
    assert_eq!(e.kind, LoxErrorKind::MalformedNumber);
    assert_eq!(e.lineno, 3);
}

#[test]
fn second_dot_after_fraction_is_a_dot_token() {
    expect(
        "1.2.3",
        &[(TokenKind::NUMBER, "1.2"), (TokenKind::DOT, "."), (TokenKind::NUMBER, "3"), (TokenKind::EOF, "")],
    );
}

#[test]
fn comment_then_number_on_next_line() {
    let tokens = expect("// comment\n123", &[(TokenKind::NUMBER, "123"), (TokenKind::EOF, "")]);
    assert_eq!(tokens[0].line(), 2);
    assert_eq!(tokens[1].line(), 2);
}

#[test]
fn comment_reaching_end_of_input_is_fine() {
    let tokens = expect("1 // no newline after this", &[(TokenKind::NUMBER, "1"), (TokenKind::EOF, "")]);
    assert_eq!(tokens[1].line(), 1);
}

#[test]
fn keyword_is_exact_match() {
    expect("and", &[(TokenKind::AND, "and"), (TokenKind::EOF, "")]);
    expect("android", &[(TokenKind::IDENTIFIER, "android"), (TokenKind::EOF, "")]);
    expect("An", &[(TokenKind::IDENTIFIER, "An"), (TokenKind::EOF, "")]);
}

#[test]
fn every_keyword() {
    let source = "and class else false fun for if nil or print return super this true var while";
    expect(
        source,
        &[
            (TokenKind::AND, "and"),
            (TokenKind::CLASS, "class"),
            (TokenKind::ELSE, "else"),
            (TokenKind::FALSE, "false"),
            (TokenKind::FUN, "fun"),
            (TokenKind::FOR, "for"),
            (TokenKind::IF, "if"),
            (TokenKind::NIL, "nil"),
            (TokenKind::OR, "or"),
            (TokenKind::PRINT, "print"),
            (TokenKind::RETURN, "return"),
            (TokenKind::SUPER, "super"),
            (TokenKind::THIS, "this"),
            (TokenKind::TRUE, "true"),
            (TokenKind::VAR, "var"),
            (TokenKind::WHILE, "while"),
            (TokenKind::EOF, ""),
        ],
    );
}

#[test]
fn identifiers_with_underscores_and_digits() {
    expect(
        "_a1 b_2c",
        &[(TokenKind::IDENTIFIER, "_a1"), (TokenKind::IDENTIFIER, "b_2c"), (TokenKind::EOF, "")],
    );
    expect("9x", &[(TokenKind::NUMBER, "9"), (TokenKind::IDENTIFIER, "x"), (TokenKind::EOF, "")]);
}

#[test]
fn unterminated_string_is_an_error() {
    let e = expect_error("\"unterminated");
    assert_eq!(e.kind, LoxErrorKind::UnterminatedString);
    assert_eq!(e.lineno, 1);
}

#[test]
fn unterminated_string_reports_the_line_where_it_opened() {
    let e = expect_error("x\n\"abc\ndef\n");
    assert_eq!(e.kind, LoxErrorKind::UnterminatedString);
    assert_eq!(e.lineno, 2);
}

#[test]
fn unexpected_character() {
    let e = expect_error("a\n  @");
    assert_eq!(e.kind, LoxErrorKind::UnexpectedCharacter('@'));
    assert_eq!(e.lineno, 2);
}

#[test]
fn non_ascii_character_is_one_unexpected_character() {
    let e = expect_error("(é");
    assert_eq!(e.kind, LoxErrorKind::UnexpectedCharacter('é'));
    assert_eq!(e.lineno, 1);
}

#[test]
fn non_ascii_text_inside_a_string() {
    expect("\"héllo ü\" +", &[(TokenKind::STRING, "héllo ü"), (TokenKind::PLUS, "+"), (TokenKind::EOF, "")]);
}

#[test]
fn error_stops_the_scan_at_the_first_error() {
    let e = expect_error("1 @ \"open");
    assert_eq!(e.kind, LoxErrorKind::UnexpectedCharacter('@'));
}

#[test]
fn scanning_twice_gives_the_same_tokens() {
    let source = "var x = \"a\nb\" + 12.5; // done\nprint x;";
    let first = scan(source).unwrap();
    let second = scan(source).unwrap();
    assert_eq!(first, second);
    let mut scanner = Scanner::new(source);
    let third = scanner.scan_tokens().unwrap();
    let fourth = scanner.scan_tokens().unwrap();
    assert_eq!(first, third);
    assert_eq!(third, fourth);
    assert_eq!(expect_error("\"x"), expect_error("\"x"));
}

#[test]
fn lines_count_newlines_in_strings_and_between_tokens() {
    let source = "a\n\"one\ntwo\nthree\" b\n\n c";
    let tokens = expect(
        source,
        &[
            (TokenKind::IDENTIFIER, "a"),
            (TokenKind::STRING, "one\ntwo\nthree"),
            (TokenKind::IDENTIFIER, "b"),
            (TokenKind::IDENTIFIER, "c"),
            (TokenKind::EOF, ""),
        ],
    );
    let lines: Vec<u32> = tokens.iter().map(|t| t.line()).collect();
    assert_eq!(lines, vec![1, 2, 4, 6, 6]);
}

#[test]
fn carriage_returns_and_tabs_are_skipped() {
    let tokens = expect("\t1\r\n2", &[(TokenKind::NUMBER, "1"), (TokenKind::NUMBER, "2"), (TokenKind::EOF, "")]);
    assert_eq!(tokens[1].line(), 2);
}

#[test]
fn every_lexeme_is_source_text() {
    let source = "fun f(a, b) { return a >= b; }";
    let tokens = scan(source).unwrap();
    let last = tokens.last().unwrap();
    assert_eq!(last.kind(), TokenKind::EOF);
    assert_eq!(last.lexeme(), "");
    for t in &tokens[..tokens.len() - 1] {
        assert!(!t.lexeme().is_empty());
        assert!(source.contains(t.lexeme()));
    }
}

#[test]
fn token_new_and_getters() {
    let t = Token::new(TokenKind::NUMBER, "42".to_string(), 7);
    assert_eq!(t.kind(), TokenKind::NUMBER);
    assert_eq!(t.lexeme(), "42");
    assert_eq!(t.line(), 7);
}

#[test]
fn error_messages() {
    let e = expect_error("#");
    assert_eq!(e.message(), "Unexpected character: #");
    let e = expect_error("\"");
    assert_eq!(e.message(), "Unterminated string.");
    let e = expect_error("3.");
    assert_eq!(e.message(), "Malformed number: a '.' must be followed by a digit.");
}
