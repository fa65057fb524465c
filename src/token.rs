use vstd::prelude::*;

verus! {

#[derive(Clone, Copy, Debug, PartialEq, Eq, Structural)]
pub enum TokenType {
    // One-character tokens
    LeftParen,
    RightParen,
    LeftBrace,
    RightBrace,
    Semicolon,
    Comma,
    Dot,
    Minus,
    Plus,
    Slash,
    Star,
    Bang,
    Equal,
    Less,
    Greater,
    // Two-character tokens
    BangEqual,
    EqualEqual,
    LessEqual,
    GreaterEqual,
    // Literals
    String,
    Number,
    Identifier,
    // Keywords
    And,
    Class,
    Else,
    False,
    For,
    Fun,
    If,
    Nil,
    Or,
    Print,
    Return,
    Super,
    This,
    True,
    Var,
    While,
    EOF,
    Error,
}

/// A lexical unit. For an error token the lexeme is the error message.
#[derive(Clone, Copy, Debug)]
pub struct Token<'a> {
    pub token_type: TokenType,
    pub lexeme: &'a str,
    /// The source line on which the token ends.
    pub line: usize,
}

} // verus!
