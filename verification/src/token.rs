//! The token data model: token kinds, attached literal values, and the
//! `Token` record emitted by the scanner, together with their mathematical
//! views and the reserved-word table.

use vstd::prelude::*;
use vstd::string::StringExecFns;

verus! {

/// The closed set of token kinds: single- and double-character punctuation
/// and operators, the three literal families, the reserved words, and the
/// `Eof` sentinel.
#[derive(Clone, Copy, Debug, PartialEq, Eq, Structural)]
pub enum TokenType {
    LeftParen,
    RightParen,
    LeftBrace,
    RightBrace,
    Comma,
    Dot,
    Minus,
    Plus,
    Semicolon,
    Slash,
    Star,
    Bang,
    BangEqual,
    Equal,
    EqualEqual,
    Greater,
    GreaterEqual,
    Less,
    LessEqual,
    Identifier,
    String,
    Number,
    And,
    Class,
    Else,
    False,
    Fun,
    For,
    If,
    Nil,
    Or,
    Print,
    Return,
    Super,
    This,
    True,
    Var,
    While,
    Eof,
}

/// The decoded value attached to a literal-bearing token.
///
/// A string literal carries its text with the quotes stripped. A number
/// literal carries the exact numeral text that was matched; the library
/// keeps to exact values, so turning the numeral into a machine float is
/// left to the consumer (`str::parse::<f64>` never fails on a numeral of
/// this shape). All other tokens carry `NilLiteral`.
#[derive(Clone, Debug, PartialEq)]
pub enum Literal {
    NilLiteral,
    StringLiteral(String),
    NumberLiteral(String),
}

/// The mathematical value of a `Literal`: the same three cases over
/// character sequences.
pub enum LiteralValue {
    NilValue,
    StringValue(Seq<char>),
    NumberValue(Seq<char>),
}

impl View for Literal {
    type V = LiteralValue;

    open spec fn view(&self) -> LiteralValue {
        match self {
            Literal::NilLiteral => LiteralValue::NilValue,
            Literal::StringLiteral(s) => LiteralValue::StringValue(s@),
            Literal::NumberLiteral(s) => LiteralValue::NumberValue(s@),
        }
    }
}

/// One scanned token: its kind, the exact source substring matched, the
/// decoded literal value (if any), and the 1-based line where it was
/// emitted. Immutable once created.
#[derive(Clone, Debug, PartialEq)]
pub struct Token {
    pub kind: TokenType,
    pub lexeme: String,
    pub literal: Literal,
    pub line: usize,
}

/// The mathematical value of a `Token`.
pub struct TokenValue {
    pub kind: TokenType,
    pub lexeme: Seq<char>,
    pub literal: LiteralValue,
    pub line: nat,
}

impl View for Token {
    type V = TokenValue;

    open spec fn view(&self) -> TokenValue {
        TokenValue {
            kind: self.kind,
            lexeme: self.lexeme@,
            literal: self.literal@,
            line: self.line as nat,
        }
    }
}

impl Token {
    pub fn new(kind: TokenType, lexeme: String, literal: Literal, line: usize) -> (t: Token)
        ensures
            t.kind == kind,
            t.lexeme == lexeme,
            t.literal == literal,
            t.line == line,
    {
        Token { kind, lexeme, literal, line }
    }
}

/// The kind that a maximal run of alphanumeric characters scans to: the
/// matching reserved word's kind on a hit in the fixed keyword table,
/// `Identifier` otherwise.
pub open spec fn spec_keyword(lexeme: Seq<char>) -> TokenType {
    if lexeme == "and"@ {
        TokenType::And
    } else if lexeme == "class"@ {
        TokenType::Class
    } else if lexeme == "else"@ {
        TokenType::Else
    } else if lexeme == "false"@ {
        TokenType::False
    } else if lexeme == "for"@ {
        TokenType::For
    } else if lexeme == "fun"@ {
        TokenType::Fun
    } else if lexeme == "if"@ {
        TokenType::If
    } else if lexeme == "nil"@ {
        TokenType::Nil
    } else if lexeme == "or"@ {
        TokenType::Or
    } else if lexeme == "print"@ {
        TokenType::Print
    } else if lexeme == "return"@ {
        TokenType::Return
    } else if lexeme == "super"@ {
        TokenType::Super
    } else if lexeme == "this"@ {
        TokenType::This
    } else if lexeme == "true"@ {
        TokenType::True
    } else if lexeme == "var"@ {
        TokenType::Var
    } else if lexeme == "while"@ {
        TokenType::While
    } else {
        TokenType::Identifier
    }
}

/// The executable keyword table: one equality test per reserved word, in
/// the same order as `spec_keyword`.
pub fn keyword_or_identifier(lexeme: &String) -> (kind: TokenType)
    ensures
        kind == spec_keyword(lexeme@),
{
    if *lexeme == String::from_str("and") {
        TokenType::And
    } else if *lexeme == String::from_str("class") {
        TokenType::Class
    } else if *lexeme == String::from_str("else") {
        TokenType::Else
    } else if *lexeme == String::from_str("false") {
        TokenType::False
    } else if *lexeme == String::from_str("for") {
        TokenType::For
    } else if *lexeme == String::from_str("fun") {
        TokenType::Fun
    } else if *lexeme == String::from_str("if") {
        TokenType::If
    } else if *lexeme == String::from_str("nil") {
        TokenType::Nil
    } else if *lexeme == String::from_str("or") {
        TokenType::Or
    } else if *lexeme == String::from_str("print") {
        TokenType::Print
    } else if *lexeme == String::from_str("return") {
        TokenType::Return
    } else if *lexeme == String::from_str("super") {
        TokenType::Super
    } else if *lexeme == String::from_str("this") {
        TokenType::This
    } else if *lexeme == String::from_str("true") {
        TokenType::True
    } else if *lexeme == String::from_str("var") {
        TokenType::Var
    } else if *lexeme == String::from_str("while") {
        TokenType::While
    } else {
        TokenType::Identifier
    }
}

} // verus!
