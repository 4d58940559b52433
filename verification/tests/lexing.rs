//! The configuration lexer and the word splitter.

use storm::config::file::lexer::{Lexer, LexerErrorKind, Radix, Token};
use storm::config::file::{Instruction, Literal, Parser};
use storm::config::file_parser::FileParser;

fn tokens_equal(a: &Token, b: &Token) -> bool {
    match (a, b) {
        (Token::NewLine, Token::NewLine) => true,
        (Token::LBrace, Token::LBrace) => true,
        (Token::RBrace, Token::RBrace) => true,
        (Token::Assign, Token::Assign) => true,
        (Token::Comma, Token::Comma) => true,
        (Token::Bool(x), Token::Bool(y)) => x == y,
        (Token::Int(x), Token::Int(y)) => x == y,
        (Token::Ident(x), Token::Ident(y)) => x == y,
        (Token::Str(x), Token::Str(y)) => x == y,
        _ => false,
    }
}

fn token_list(cases: &[(&str, Token)]) {
    // concatenated with blanks between
    let src: String = cases.iter().flat_map(|(t, _)| [*t, " "]).collect();
    let mut lexer = Lexer::new(&src);
    for (_, expected) in cases {
        let got = lexer.next().unwrap().unwrap();
        assert!(tokens_equal(&got, expected), "wanted {:?}, got {:?}", expected, got);
    }
    assert!(lexer.next().is_none());
    // each on its own
    for (text, expected) in cases {
        let mut lexer = Lexer::new(text);
        let got = lexer.next().unwrap().unwrap();
        assert!(tokens_equal(&got, expected), "wanted {:?}, got {:?}", expected, got);
        assert!(lexer.next().is_none());
    }
}

#[test]
fn static_inputs() {
    token_list(&[
        ("[", Token::LBrace),
        (",", Token::Comma),
        ("]", Token::RBrace),
        ("=", Token::Assign),
        ("\n", Token::NewLine),
        ("\r\n", Token::NewLine),
    ]);
}

#[test]
fn fauly_inputs() {
    for text in ["0b", "0o", "0d", "0x", "\r", "\"\\a\"", "\"", "\"\\\""] {
        let mut lexer = Lexer::new(text);
        assert!(
            lexer.next().unwrap().is_err(),
            "lexing {:?} should have failed",
            text
        );
    }
}

#[test]
fn varadic_inputs() {
    token_list(&[
        ("true", Token::Bool(true)),
        ("false", Token::Bool(false)),
        ("foo", Token::Ident("foo")),
        ("bar", Token::Ident("bar")),
        ("0", Token::Int(0)),
        ("0b10", Token::Int(0b10)),
        ("0o12345670", Token::Int(0o12345670)),
        ("0d1234567890", Token::Int(1234567890)),
        ("0x123456789abcdef0", Token::Int(0x123456789abcdef0)),
        ("+0", Token::Int(0)),
        ("+0b10", Token::Int(0b10)),
        ("+0o12345670", Token::Int(0o12345670)),
        ("+0d1234567890", Token::Int(1234567890)),
        ("+0x123456789abcdef0", Token::Int(0x123456789abcdef0)),
        ("-0", Token::Int(-0)),
        ("-0b10", Token::Int(-0b10)),
        ("-0o12345670", Token::Int(-0o12345670)),
        ("-0d1234567890", Token::Int(-1234567890)),
        ("-0x123456789abcdef0", Token::Int(-0x123456789abcdef0)),
        (
            "\"hello world\\n\\r\\t\\\"\\'\"",
            Token::Str(String::from("hello world\n\r\t\"\'")),
        ),
    ]);
}

#[test]
fn int_overflow_is_reported() {
    let mut lexer = Lexer::new("0x10000000000000000");
    match lexer.next().unwrap() {
        Err(e) => assert!(matches!(e.kind, LexerErrorKind::IntOverflow)),
        Ok(t) => panic!("expected an overflow, got {:?}", t),
    }
}

#[test]
fn radix_digit_rules() {
    assert!(Radix::Binary.validate('1'));
    assert!(!Radix::Binary.validate('2'));
    assert!(Radix::Octal.validate('7'));
    assert!(!Radix::Octal.validate('8'));
    assert!(Radix::Decimal.validate('9'));
    assert!(!Radix::Decimal.validate('a'));
    assert!(Radix::Hexadecimal.validate('f'));
    assert!(Radix::Hexadecimal.validate('F'));
    assert!(!Radix::Hexadecimal.validate('g'));
    assert!(matches!(
        Radix::Decimal.digit_rule(),
        storm::config::file::lexer::Expectation::Regex(_)
    ));
}

#[test]
fn line_counting() {
    let mut lexer = Lexer::new("foo\nbar");
    assert!(matches!(lexer.next().unwrap().unwrap(), Token::Ident("foo")));
    assert!(matches!(lexer.next().unwrap().unwrap(), Token::NewLine));
    assert!(matches!(lexer.next().unwrap().unwrap(), Token::Ident("bar")));
    assert!(lexer.next().is_none());
}

#[test]
fn file_parser_iter() {
    let mut parser = FileParser::new("lorem\nipsum\ndolor\nsit\namet");
    for expected in ["lorem", "ipsum", "dolor", "sit", "amet"] {
        assert_eq!(parser.next().unwrap(), expected);
    }
    assert!(parser.next().is_none());
}

#[test]
fn file_parser_skips_comments() {
    let mut parser = FileParser::new("  alpha #comment beta\n#tail gamma");
    assert_eq!(parser.next().unwrap(), "alpha");
    assert_eq!(parser.next().unwrap(), "beta");
    assert_eq!(parser.next().unwrap(), "gamma");
    assert!(parser.next().is_none());
}

#[test]
fn literal() {
    let mut parser = Parser::new("foo = \"bar\"\nbar = [\n1,\n0xDEADBEEF,\n\n\n]");
    match parser.next().unwrap().unwrap() {
        Instruction::Literal(name, Literal::Str(text)) => {
            assert_eq!(name, "foo");
            assert_eq!(text, "bar");
        }
        other => panic!("expected a literal instruction, got {:?}", other),
    }
    match parser.next().unwrap().unwrap() {
        Instruction::Array(name, items) => {
            assert_eq!(name, "bar");
            assert_eq!(items.len(), 2);
            assert!(matches!(items[0], Literal::Int(1)));
            assert!(matches!(items[1], Literal::Int(0xDEADBEEF)));
        }
        other => panic!("expected an array instruction, got {:?}", other),
    }
    assert!(parser.next().is_none());
}

#[test]
fn faulty_inputs() {
    for input in ["foo", "[]", "[foo", "foo=", "0xDEADBEEF=10"] {
        let got = Parser::new(input).next();
        assert!(
            got.is_none() || got.unwrap().is_err(),
            "parsing {:?} should not have yielded an instruction",
            input
        );
    }
}
