use lib::core_types::TokenType;
use lib::lexer::Lexer;

fn lex(src: &str) -> Vec<TokenType> {
    Lexer::new(src).tokenize()
}

fn ident(s: &str) -> TokenType {
    TokenType::Identifier(s.to_string())
}

#[test]
fn test_lex_keywords_and_identifiers() {
    let toks = lex("emit when otherwise during proc yield layout slot claim purge yes no num int flag text none foo _bar x1");
    assert_eq!(
        toks,
        vec![
            TokenType::Emit,
            TokenType::When,
            TokenType::Otherwise,
            TokenType::During,
            TokenType::Proc,
            TokenType::Yield,
            TokenType::Layout,
            TokenType::Slot,
            TokenType::Claim,
            TokenType::Purge,
            TokenType::Yes,
            TokenType::No,
            TokenType::TypeNum,
            TokenType::TypeInt,
            TokenType::TypeFlag,
            TokenType::TypeText,
            TokenType::TypeNone,
            ident("foo"),
            ident("_bar"),
            ident("x1"),
            TokenType::Eof,
        ]
    );
}

#[test]
fn test_lex_operators_and_punctuation() {
    let toks = lex("+ - * / % == != < <= > >= && || ! & = ( ) { } [ ] ; : , . ->");
    assert_eq!(
        toks,
        vec![
            TokenType::Plus,
            TokenType::Minus,
            TokenType::Star,
            TokenType::Slash,
            TokenType::Percent,
            TokenType::EqualEqual,
            TokenType::BangEqual,
            TokenType::Less,
            TokenType::LessEqual,
            TokenType::Greater,
            TokenType::GreaterEqual,
            TokenType::AmpAmp,
            TokenType::PipePipe,
            TokenType::Bang,
            TokenType::Ampersand,
            TokenType::Equal,
            TokenType::LeftParen,
            TokenType::RightParen,
            TokenType::LeftBrace,
            TokenType::RightBrace,
            TokenType::LeftBracket,
            TokenType::RightBracket,
            TokenType::Semicolon,
            TokenType::Colon,
            TokenType::Comma,
            TokenType::Dot,
            TokenType::Arrow,
            TokenType::Eof,
        ]
    );
}

#[test]
fn test_lex_operators_without_spaces() {
    assert_eq!(
        lex("a<=b->c&&!d"),
        vec![
            ident("a"),
            TokenType::LessEqual,
            ident("b"),
            TokenType::Arrow,
            ident("c"),
            TokenType::AmpAmp,
            TokenType::Bang,
            ident("d"),
            TokenType::Eof,
        ]
    );
}

#[test]
fn test_lex_numbers() {
    assert_eq!(
        lex("42 3.25 7. 0"),
        vec![
            TokenType::IntNumber(42),
            TokenType::Number("3.25".to_string()),
            TokenType::IntNumber(7),
            TokenType::Dot,
            TokenType::IntNumber(0),
            TokenType::Eof,
        ]
    );
}

#[test]
fn test_lex_number_with_two_dots() {
    assert_eq!(
        lex("3.25.5"),
        vec![
            TokenType::Number("3.25".to_string()),
            TokenType::Dot,
            TokenType::IntNumber(5),
            TokenType::Eof,
        ]
    );
}

#[test]
fn test_lex_largest_int() {
    assert_eq!(lex("9223372036854775807"), vec![TokenType::IntNumber(i64::MAX), TokenType::Eof]);
}

#[test]
fn test_lex_int_too_large_fails() {
    assert_eq!(Lexer::new("9223372036854775808").tokenize_checked(), None);
}

#[test]
fn test_lex_string_escapes() {
    assert_eq!(
        lex("\"a\\nb\\\"c\\td\\\\e\\qf\""),
        vec![TokenType::StringLit("a\nb\"c\td\\eqf".to_string()), TokenType::Eof]
    );
}

#[test]
fn test_lex_unterminated_string_runs_to_end() {
    assert_eq!(lex("\"abc"), vec![TokenType::StringLit("abc".to_string()), TokenType::Eof]);
}

#[test]
fn test_lex_comments_and_whitespace() {
    assert_eq!(
        lex("x // a comment\n\t y // the end"),
        vec![ident("x"), ident("y"), TokenType::Eof]
    );
}

#[test]
fn test_lex_empty_input() {
    assert_eq!(lex(""), vec![TokenType::Eof]);
    assert_eq!(lex("   \n // only a comment"), vec![TokenType::Eof]);
}

#[test]
fn test_lex_single_pipe_fails() {
    assert_eq!(Lexer::new("a | b").tokenize_checked(), None);
}

#[test]
fn test_lex_unknown_character_fails() {
    assert_eq!(Lexer::new("slot x = 1 @ 2;").tokenize_checked(), None);
}

#[test]
fn test_lex_leading_whitespace_changes_nothing() {
    assert_eq!(lex("  \n\t x + 1"), lex("x + 1"));
}

#[test]
fn test_lex_ends_with_single_eof() {
    let toks = lex("slot a: int = 3; emit a;");
    assert_eq!(toks.last(), Some(&TokenType::Eof));
    assert_eq!(toks.iter().filter(|t| **t == TokenType::Eof).count(), 1);
}

#[test]
fn test_lexer_peek_and_advance() {
    let mut l = Lexer::new("ab");
    assert_eq!(l.peek(), Some('a'));
    assert_eq!(l.peek_next(), Some('b'));
    assert_eq!(l.advance(), Some('a'));
    assert_eq!(l.peek(), Some('b'));
    assert_eq!(l.peek_next(), None);
    assert_eq!(l.advance(), Some('b'));
    assert_eq!(l.peek(), None);
    assert_eq!(l.advance(), None);
}

#[test]
fn test_skip_whitespace_and_comments() {
    let mut l = Lexer::new("  // note\n  z");
    l.skip_whitespace_and_comments();
    assert_eq!(l.peek(), Some('z'));
    let mut l2 = Lexer::new("/ 2");
    l2.skip_whitespace_and_comments();
    assert_eq!(l2.peek(), Some('/'));
}

#[test]
fn test_tokenize_twice_gives_only_eof() {
    let mut l = Lexer::new("slot x = 1;");
    let first = l.tokenize();
    assert_eq!(first.len(), 6);
    assert_eq!(l.tokenize(), vec![TokenType::Eof]);
}

#[test]
fn test_skip_stops_at_first_token_and_is_idempotent() {
    let mut l = Lexer::new(" \t// one\n// two\n\u{3000}y");
    l.skip_whitespace_and_comments();
    assert_eq!(l.peek(), Some('y'));
    l.skip_whitespace_and_comments();
    assert_eq!(l.peek(), Some('y'));
}

#[test]
fn test_lex_blank_prefix_changes_nothing() {
    assert_eq!(lex("// note\n \t\r\n// more\n x + 1;"), lex("x + 1;"));
    assert_eq!(lex("\u{a0}\u{2003}x"), lex("x"));
}
