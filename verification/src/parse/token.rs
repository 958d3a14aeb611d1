use vstd::prelude::*;

use crate::parse::position::DocumentPosition;

verus! {

/// The kinds of token of the Lox language.
#[derive(Debug, Clone, Copy, PartialEq, Eq, Structural)]
pub enum TokenTag {
    // Single-character tokens.
    LeftParen,
    RightParen,
    LeftBrace,
    RightBrace,
    Comma,
    Dot,
    Minus,
    Plus,
    SemiColon,
    Slash,
    Star,
    // One or two character tokens.
    Question,
    Colon,
    Bang,
    BangEqual,
    Equal,
    EqualEqual,
    Greater,
    GreaterEqual,
    Less,
    LessEqual,
    // Literals.
    Identifier,
    String,
    Number,
    Comment,
    InlineComment,
    // Keywords
    And,
    Class,
    Else,
    False,
    Fun,
    For,
    If,
    Nil,
    Or,
    Print,
    Return,
    Super,
    This,
    True,
    Var,
    While,
    EOF,
}

/// A token: its kind, the source text it was read from, and where that starts.
#[derive(Debug)]
pub struct Token {
    pub tag: TokenTag,
    pub lexeme: String,
    pub position: DocumentPosition,
}

/// The mathematical value of a [`Token`].
pub struct TokenV {
    pub tag: TokenTag,
    pub lexeme: Seq<char>,
    pub position: DocumentPosition,
}

impl View for Token {
    type V = TokenV;

    open spec fn view(&self) -> TokenV {
        TokenV { tag: self.tag, lexeme: self.lexeme@, position: self.position }
    }
}

pub open spec fn tokens_view(ts: Seq<Token>) -> Seq<TokenV> {
    ts.map_values(|t: Token| t@)
}

pub open spec fn eof_spec(position: DocumentPosition) -> TokenV {
    TokenV { tag: TokenTag::EOF, lexeme: Seq::empty(), position }
}

impl Token {
    pub fn new(tag: TokenTag, lexeme: String, position: DocumentPosition) -> (t: Self)
        ensures
            t@ == (TokenV { tag, lexeme: lexeme@, position }),
    {
        Token { tag, lexeme, position }
    }

    /// The end-of-file token at the given position.
    pub fn eof(position: DocumentPosition) -> (t: Self)
        ensures
            t@ == eof_spec(position),
    {
        Token { tag: TokenTag::EOF, lexeme: String::new(), position }
    }

    /// A copy of the token.
    pub fn copy(&self) -> (t: Self)
        ensures
            t@ == self@,
    {
        Token { tag: self.tag, lexeme: self.lexeme.clone(), position: self.position }
    }
}

} // verus!
