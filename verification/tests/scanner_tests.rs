use rlox::error::ErrorKind;
use rlox::error::ScanError;
use rlox::scanner::Scanner;
use rlox::token::Literal;
use rlox::token::Token;
use rlox::token::TokenType;

fn scan(source: &str) -> (Vec<Token>, Vec<ScanError>) {
    let mut scanner = Scanner::new(String::from(source));
    let tokens = scanner.scan_tokens();
    let errors = scanner.errors().clone();
    (tokens, errors)
}

fn number_value(token: &Token) -> f64 {
    match &token.literal {
        Literal::NumberLiteral(text) => text.parse::<f64>().unwrap(),
        other => panic!("expected a number literal, got {other:?}"),
    }
}

#[test]
fn test_single_character_punctuation() {
    let source = "(){},.-+;*";
    let (tokens, errors) = scan(source);
    assert!(errors.is_empty());
    assert_eq!(tokens.len(), source.len() + 1);
    let kinds = [
        TokenType::LeftParen,
        TokenType::RightParen,
        TokenType::LeftBrace,
        TokenType::RightBrace,
        TokenType::Comma,
        TokenType::Dot,
        TokenType::Minus,
        TokenType::Plus,
        TokenType::Semicolon,
        TokenType::Star,
    ];
    for (i, c) in source.chars().enumerate() {
        assert_eq!(tokens[i].kind, kinds[i]);
        assert_eq!(tokens[i].lexeme, c.to_string());
        assert_eq!(tokens[i].literal, Literal::NilLiteral);
        assert_eq!(tokens[i].line, 1);
    }
    assert_eq!(tokens[source.len()].kind, TokenType::Eof);
}

#[test]
fn test_operators_maximal_munch() {
    let cases = [
        ("!", TokenType::Bang),
        ("!=", TokenType::BangEqual),
        ("=", TokenType::Equal),
        ("==", TokenType::EqualEqual),
        ("<", TokenType::Less),
        ("<=", TokenType::LessEqual),
        (">", TokenType::Greater),
        (">=", TokenType::GreaterEqual),
    ];
    for (source, kind) in cases {
        let (tokens, errors) = scan(source);
        assert!(errors.is_empty());
        assert_eq!(tokens.len(), 2, "{source} must scan to one token plus Eof");
        assert_eq!(tokens[0].kind, kind);
        assert_eq!(tokens[0].lexeme, source);
        assert_eq!(tokens[1].kind, TokenType::Eof);
    }
}

#[test]
fn test_line_comment_contributes_no_tokens() {
    let (tokens, errors) = scan("// anything at all\nfoo");
    assert!(errors.is_empty());
    assert_eq!(tokens.len(), 2);
    assert_eq!(tokens[0].kind, TokenType::Identifier);
    assert_eq!(tokens[0].lexeme, "foo");
    assert_eq!(tokens[0].line, 2);
    assert_eq!(tokens[1].kind, TokenType::Eof);
    assert_eq!(tokens[1].line, 2);
}

#[test]
fn test_line_comment_to_end_of_input() {
    let (tokens, errors) = scan("// nothing after this");
    assert!(errors.is_empty());
    assert_eq!(tokens.len(), 1);
    assert_eq!(tokens[0].kind, TokenType::Eof);
    assert_eq!(tokens[0].line, 1);
}

#[test]
fn test_string_literal() {
    let (tokens, errors) = scan("\"hello\"");
    assert!(errors.is_empty());
    assert_eq!(tokens.len(), 2);
    assert_eq!(tokens[0].kind, TokenType::String);
    assert_eq!(tokens[0].lexeme, "\"hello\"");
    assert_eq!(
        tokens[0].literal,
        Literal::StringLiteral(String::from("hello"))
    );
    assert_eq!(tokens[1].kind, TokenType::Eof);
}

#[test]
fn test_unterminated_string() {
    let (tokens, errors) = scan("\"unterminated");
    assert_eq!(tokens.len(), 1);
    assert_eq!(tokens[0].kind, TokenType::Eof);
    assert_eq!(errors.len(), 1);
    assert_eq!(errors[0].kind, ErrorKind::UnterminatedString);
    assert_eq!(errors[0].line, 1);
}

#[test]
fn test_multi_line_string() {
    let (tokens, errors) = scan("\"a\nb\"");
    assert!(errors.is_empty());
    assert_eq!(tokens.len(), 2);
    assert_eq!(tokens[0].kind, TokenType::String);
    assert_eq!(tokens[0].literal, Literal::StringLiteral(String::from("a\nb")));
    assert_eq!(tokens[0].line, 2);
}

#[test]
fn test_number_literals() {
    let (tokens, errors) = scan("123");
    assert!(errors.is_empty());
    assert_eq!(tokens.len(), 2);
    assert_eq!(tokens[0].kind, TokenType::Number);
    assert_eq!(number_value(&tokens[0]), 123.0);

    let (tokens, errors) = scan("123.45");
    assert!(errors.is_empty());
    assert_eq!(tokens.len(), 2);
    assert_eq!(tokens[0].kind, TokenType::Number);
    assert_eq!(tokens[0].lexeme, "123.45");
    assert_eq!(number_value(&tokens[0]), 123.45);
}

#[test]
fn test_number_then_dot() {
    let (tokens, errors) = scan("123.");
    assert!(errors.is_empty());
    assert_eq!(tokens.len(), 3);
    assert_eq!(tokens[0].kind, TokenType::Number);
    assert_eq!(tokens[0].lexeme, "123");
    assert_eq!(number_value(&tokens[0]), 123.0);
    assert_eq!(tokens[1].kind, TokenType::Dot);
    assert_eq!(tokens[2].kind, TokenType::Eof);
}

#[test]
fn test_var_declaration() {
    let (tokens, errors) = scan("var x = 10;");
    assert!(errors.is_empty());
    assert_eq!(tokens.len(), 6);
    assert_eq!(tokens[0].kind, TokenType::Var);
    assert_eq!(tokens[1].kind, TokenType::Identifier);
    assert_eq!(tokens[1].lexeme, "x");
    assert_eq!(tokens[2].kind, TokenType::Equal);
    assert_eq!(tokens[3].kind, TokenType::Number);
    assert_eq!(number_value(&tokens[3]), 10.0);
    assert_eq!(tokens[4].kind, TokenType::Semicolon);
    assert_eq!(tokens[5].kind, TokenType::Eof);
}

#[test]
fn test_empty_source() {
    let (tokens, errors) = scan("");
    assert!(errors.is_empty());
    assert_eq!(tokens.len(), 1);
    assert_eq!(tokens[0].kind, TokenType::Eof);
    assert_eq!(tokens[0].lexeme, "");
    assert_eq!(tokens[0].line, 1);
}

#[test]
fn test_unexpected_character() {
    let (tokens, errors) = scan("(@)");
    assert_eq!(errors.len(), 1);
    assert_eq!(errors[0].kind, ErrorKind::UnexpectedCharacter);
    assert_eq!(errors[0].line, 1);
    assert_eq!(tokens.len(), 3);
    assert_eq!(tokens[0].kind, TokenType::LeftParen);
    assert_eq!(tokens[1].kind, TokenType::RightParen);
    assert_eq!(tokens[2].kind, TokenType::Eof);
}

#[test]
fn test_keywords_and_identifiers() {
    let keywords = [
        ("and", TokenType::And),
        ("class", TokenType::Class),
        ("else", TokenType::Else),
        ("false", TokenType::False),
        ("for", TokenType::For),
        ("fun", TokenType::Fun),
        ("if", TokenType::If),
        ("nil", TokenType::Nil),
        ("or", TokenType::Or),
        ("print", TokenType::Print),
        ("return", TokenType::Return),
        ("super", TokenType::Super),
        ("this", TokenType::This),
        ("true", TokenType::True),
        ("var", TokenType::Var),
        ("while", TokenType::While),
    ];
    for (word, kind) in keywords {
        let (tokens, errors) = scan(word);
        assert!(errors.is_empty());
        assert_eq!(tokens.len(), 2);
        assert_eq!(tokens[0].kind, kind);
        assert_eq!(tokens[0].lexeme, word);
    }
    let (tokens, _) = scan("andy orchid nil0");
    assert_eq!(tokens.len(), 4);
    assert_eq!(tokens[0].kind, TokenType::Identifier);
    assert_eq!(tokens[1].kind, TokenType::Identifier);
    assert_eq!(tokens[2].kind, TokenType::Identifier);
}

#[test]
fn test_slash_and_division() {
    let (tokens, errors) = scan("6 / 3");
    assert!(errors.is_empty());
    assert_eq!(tokens.len(), 4);
    assert_eq!(tokens[0].kind, TokenType::Number);
    assert_eq!(tokens[1].kind, TokenType::Slash);
    assert_eq!(tokens[2].kind, TokenType::Number);
}

#[test]
fn test_line_counting() {
    let (tokens, errors) = scan("(\n)\n");
    assert!(errors.is_empty());
    assert_eq!(tokens.len(), 3);
    assert_eq!(tokens[0].line, 1);
    assert_eq!(tokens[1].line, 2);
    assert_eq!(tokens[2].kind, TokenType::Eof);
    assert_eq!(tokens[2].line, 3);
}

#[test]
fn test_unterminated_string_line_number() {
    let (tokens, errors) = scan("\"ab\ncd");
    assert_eq!(tokens.len(), 1);
    assert_eq!(errors.len(), 1);
    assert_eq!(errors[0].kind, ErrorKind::UnterminatedString);
    assert_eq!(errors[0].line, 2);
}

#[test]
fn test_had_error_flag() {
    let mut scanner = Scanner::new(String::from("var @ = 1;"));
    let _tokens = scanner.scan_tokens();
    assert!(scanner.had_error());
    let mut clean = Scanner::new(String::from("var a = 1;"));
    let _tokens = clean.scan_tokens();
    assert!(!clean.had_error());
}

#[test]
fn test_lox_session_starts_clean() {
    let lox = rlox::lox::Lox::new();
    assert!(!lox.had_error);
}
