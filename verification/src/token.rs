//! Tokens produced by the Spring lexer.
use vstd::prelude::*;
use crate::num::Num;

verus! {

/// A single lexical token produced by the Spring lexer.
#[derive(Debug, PartialEq)]
pub enum Token {
    /// A number literal, by its exact value.
    Number(Num),
    /// A number literal whose exact value is beyond what a `Num` holds, as
    /// written.
    Numeral(String),
    Ident(String),
    Plus,
    Minus,
    Star,
    Slash,
    Eq,
    Neq,
    Lt,
    Gt,
    Le,
    Ge,
    Let,
    If,
    Else,
    Fn,
    LParen,
    RParen,
    LBrace,
    RBrace,
    Semicolon,
    Comma,
    Assign,
    Return,
    Eof,
}

/// The mathematical model of a token: identifiers as character sequences.
pub enum SpecToken {
    Number(Num),
    Numeral(Seq<char>),
    Ident(Seq<char>),
    Plus,
    Minus,
    Star,
    Slash,
    Eq,
    Neq,
    Lt,
    Gt,
    Le,
    Ge,
    Let,
    If,
    Else,
    Fn,
    LParen,
    RParen,
    LBrace,
    RBrace,
    Semicolon,
    Comma,
    Assign,
    Return,
    Eof,
}

impl View for Token {
    type V = SpecToken;

    open spec fn view(&self) -> SpecToken {
        match self {
            Token::Number(n) => SpecToken::Number(*n),
            Token::Numeral(s) => SpecToken::Numeral(s@),
            Token::Ident(s) => SpecToken::Ident(s@),
            Token::Plus => SpecToken::Plus,
            Token::Minus => SpecToken::Minus,
            Token::Star => SpecToken::Star,
            Token::Slash => SpecToken::Slash,
            Token::Eq => SpecToken::Eq,
            Token::Neq => SpecToken::Neq,
            Token::Lt => SpecToken::Lt,
            Token::Gt => SpecToken::Gt,
            Token::Le => SpecToken::Le,
            Token::Ge => SpecToken::Ge,
            Token::Let => SpecToken::Let,
            Token::If => SpecToken::If,
            Token::Else => SpecToken::Else,
            Token::Fn => SpecToken::Fn,
            Token::LParen => SpecToken::LParen,
            Token::RParen => SpecToken::RParen,
            Token::LBrace => SpecToken::LBrace,
            Token::RBrace => SpecToken::RBrace,
            Token::Semicolon => SpecToken::Semicolon,
            Token::Comma => SpecToken::Comma,
            Token::Assign => SpecToken::Assign,
            Token::Return => SpecToken::Return,
            Token::Eof => SpecToken::Eof,
        }
    }
}

/// The human-readable name of a token kind.
pub open spec fn token_name(t: SpecToken) -> Seq<char> {
    match t {
        SpecToken::Number(_) => "number"@,
        SpecToken::Numeral(_) => "number"@,
        SpecToken::Ident(_) => "identifier"@,
        SpecToken::Plus => "+"@,
        SpecToken::Minus => "-"@,
        SpecToken::Star => "*"@,
        SpecToken::Slash => "/"@,
        SpecToken::Eq => "=="@,
        SpecToken::Neq => "!="@,
        SpecToken::Lt => "<"@,
        SpecToken::Gt => ">"@,
        SpecToken::Le => "<="@,
        SpecToken::Ge => ">="@,
        SpecToken::Let => "let"@,
        SpecToken::If => "if"@,
        SpecToken::Else => "else"@,
        SpecToken::Fn => "fn"@,
        SpecToken::LParen => "("@,
        SpecToken::RParen => ")"@,
        SpecToken::LBrace => "{"@,
        SpecToken::RBrace => "}"@,
        SpecToken::Semicolon => ";"@,
        SpecToken::Comma => ","@,
        SpecToken::Assign => "="@,
        SpecToken::Return => "return"@,
        SpecToken::Eof => "eof"@,
    }
}

/// The position of a token's kind in the declaration order.
pub open spec fn token_kind(t: SpecToken) -> u8 {
    match t {
            SpecToken::Number(_) => 0,
            SpecToken::Ident(_) => 1,
            SpecToken::Plus => 2,
            SpecToken::Minus => 3,
            SpecToken::Star => 4,
            SpecToken::Slash => 5,
            SpecToken::Eq => 6,
            SpecToken::Neq => 7,
            SpecToken::Lt => 8,
            SpecToken::Gt => 9,
            SpecToken::Le => 10,
            SpecToken::Ge => 11,
            SpecToken::Let => 12,
            SpecToken::If => 13,
            SpecToken::Else => 14,
            SpecToken::Fn => 15,
            SpecToken::LParen => 16,
            SpecToken::RParen => 17,
            SpecToken::LBrace => 18,
            SpecToken::RBrace => 19,
            SpecToken::Semicolon => 20,
            SpecToken::Comma => 21,
            SpecToken::Assign => 22,
            SpecToken::Return => 23,
            SpecToken::Eof => 24,
            SpecToken::Numeral(_) => 25,
    }
}

/// Tokens of the same kind without payload are equal.
proof fn lemma_same_kind(a: SpecToken, b: SpecToken)
    requires
        token_kind(a) == token_kind(b),
        !(a is Number && b is Number),
        !(a is Ident && b is Ident),
        !(a is Numeral && b is Numeral),
    ensures
        a == b,
{
    match a {
        SpecToken::Number(_) => {},
        SpecToken::Numeral(_) => {},
        SpecToken::Ident(_) => {},
        SpecToken::Plus => assert(b is Plus),
        SpecToken::Minus => assert(b is Minus),
        SpecToken::Star => assert(b is Star),
        SpecToken::Slash => assert(b is Slash),
        SpecToken::Eq => assert(b is Eq),
        SpecToken::Neq => assert(b is Neq),
        SpecToken::Lt => assert(b is Lt),
        SpecToken::Gt => assert(b is Gt),
        SpecToken::Le => assert(b is Le),
        SpecToken::Ge => assert(b is Ge),
        SpecToken::Let => assert(b is Let),
        SpecToken::If => assert(b is If),
        SpecToken::Else => assert(b is Else),
        SpecToken::Fn => assert(b is Fn),
        SpecToken::LParen => assert(b is LParen),
        SpecToken::RParen => assert(b is RParen),
        SpecToken::LBrace => assert(b is LBrace),
        SpecToken::RBrace => assert(b is RBrace),
        SpecToken::Semicolon => assert(b is Semicolon),
        SpecToken::Comma => assert(b is Comma),
        SpecToken::Assign => assert(b is Assign),
        SpecToken::Return => assert(b is Return),
        SpecToken::Eof => assert(b is Eof),
    }
}

impl Token {
    /// Returns a human-readable name for the token variant.
    pub fn name(&self) -> (r: &'static str)
        ensures
            r@ == token_name(self@),
    {
        match self {
            Token::Number(_) => "number",
            Token::Numeral(_) => "number",
            Token::Ident(_) => "identifier",
            Token::Plus => "+",
            Token::Minus => "-",
            Token::Star => "*",
            Token::Slash => "/",
            Token::Eq => "==",
            Token::Neq => "!=",
            Token::Lt => "<",
            Token::Gt => ">",
            Token::Le => "<=",
            Token::Ge => ">=",
            Token::Let => "let",
            Token::If => "if",
            Token::Else => "else",
            Token::Fn => "fn",
            Token::LParen => "(",
            Token::RParen => ")",
            Token::LBrace => "{",
            Token::RBrace => "}",
            Token::Semicolon => ";",
            Token::Comma => ",",
            Token::Assign => "=",
            Token::Return => "return",
            Token::Eof => "eof",
        }
    }

    /// The position of the token's kind in the declaration order.
    fn kind(&self) -> (r: u8)
        ensures
            r == token_kind(self@),
    {
        match self {
            Token::Number(_) => 0,
            Token::Ident(_) => 1,
            Token::Plus => 2,
            Token::Minus => 3,
            Token::Star => 4,
            Token::Slash => 5,
            Token::Eq => 6,
            Token::Neq => 7,
            Token::Lt => 8,
            Token::Gt => 9,
            Token::Le => 10,
            Token::Ge => 11,
            Token::Let => 12,
            Token::If => 13,
            Token::Else => 14,
            Token::Fn => 15,
            Token::LParen => 16,
            Token::RParen => 17,
            Token::LBrace => 18,
            Token::RBrace => 19,
            Token::Semicolon => 20,
            Token::Comma => 21,
            Token::Assign => 22,
            Token::Return => 23,
            Token::Eof => 24,
            Token::Numeral(_) => 25,
        }
    }

    /// Whether two tokens are the same (same kind, same identifier text and
    /// same number).
    pub fn same_as(&self, other: &Token) -> (r: bool)
        ensures
            r == (self@ == other@),
    {
        if self.kind() != other.kind() {
            return false;
        }
        match self {
            Token::Number(a) => match other {
                Token::Number(b) => a.equals(b),
                _ => false,
            },
            Token::Numeral(a) => match other {
                Token::Numeral(b) => *a == *b,
                _ => false,
            },
            Token::Ident(a) => match other {
                Token::Ident(b) => *a == *b,
                _ => false,
            },
            _ => {
                proof {
                    lemma_same_kind(self@, other@);
                }
                true
            },
        }
    }
}

impl Clone for Token {
    fn clone(&self) -> (r: Token)
        ensures
            r@ == self@,
    {
        match self {
            Token::Number(n) => Token::Number(*n),
            Token::Numeral(s) => Token::Numeral(s.clone()),
            Token::Ident(s) => Token::Ident(s.clone()),
            Token::Plus => Token::Plus,
            Token::Minus => Token::Minus,
            Token::Star => Token::Star,
            Token::Slash => Token::Slash,
            Token::Eq => Token::Eq,
            Token::Neq => Token::Neq,
            Token::Lt => Token::Lt,
            Token::Gt => Token::Gt,
            Token::Le => Token::Le,
            Token::Ge => Token::Ge,
            Token::Let => Token::Let,
            Token::If => Token::If,
            Token::Else => Token::Else,
            Token::Fn => Token::Fn,
            Token::LParen => Token::LParen,
            Token::RParen => Token::RParen,
            Token::LBrace => Token::LBrace,
            Token::RBrace => Token::RBrace,
            Token::Semicolon => Token::Semicolon,
            Token::Comma => Token::Comma,
            Token::Assign => Token::Assign,
            Token::Return => Token::Return,
            Token::Eof => Token::Eof,
        }
    }
}

} // verus!
