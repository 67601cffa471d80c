//! Tokens produced by the lexer.

use vstd::prelude::*;

verus! {

/// The category of a token: punctuation, operators, literals, keywords,
/// identifiers, a lexing error, or end of input.
#[derive(Clone, Copy, PartialEq, Eq, Structural, Debug)]
pub enum TokenType {
    LeftParen,
    RightParen,
    LeftBrace,
    RightBrace,
    Comma,
    Dot,
    Minus,
    Plus,
    Semicolon,
    Slash,
    Star,
    Bang,
    BangEqual,
    Equal,
    EqualEqual,
    Greater,
    GreaterEqual,
    Less,
    LessEqual,
    Identifier,
    Str,
    Number,
    And,
    Class,
    Else,
    False,
    For,
    Fun,
    If,
    Nil,
    Or,
    Print,
    Return,
    Super,
    This,
    True,
    Var,
    While,
    Error,
    Eof,
}

/// One token: its category, the bytes of its lexeme (for error tokens, a
/// diagnostic message instead), and the source line it starts on.
pub struct Token {
    pub token_type: TokenType,
    pub lexeme: Vec<u8>,
    pub line: usize,
}

/// The mathematical model of a [`Token`].
pub ghost struct TokenM {
    pub token_type: TokenType,
    pub lexeme: Seq<u8>,
    pub line: usize,
}

impl View for Token {
    type V = TokenM;

    open spec fn view(&self) -> TokenM {
        TokenM { token_type: self.token_type, lexeme: self.lexeme@, line: self.line }
    }
}

impl Token {
    /// Copies the token; the copy has the same model.
    pub fn duplicate(&self) -> (r: Token)
        ensures
            r@ == self@,
    {
        Token {
            token_type: self.token_type,
            lexeme: crate::value::copy_bytes(&self.lexeme),
            line: self.line,
        }
    }
}

} // verus!
