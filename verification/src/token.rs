//! Lexical atoms: the closed set of token kinds and the token record.

use vstd::prelude::*;

verus! {

/// The lexical category of a token.
#[derive(Clone, Copy, Debug, PartialEq, Eq, Structural)]
pub enum TokenType {
    LeftParen,
    RightParen,
    LeftBrace,
    RightBrace,
    Comma,
    Dot,
    Minus,
    Plus,
    Semicolon,
    Slash,
    Star,
    Bang,
    BangEqual,
    Equal,
    EqualEqual,
    Greater,
    GreaterEqual,
    Less,
    LessEqual,
    Identifier,
    String,
    Number,
    And,
    Class,
    Else,
    False,
    Fun,
    For,
    If,
    Nil,
    Or,
    Print,
    Return,
    Super,
    This,
    True,
    Var,
    While,
    EOF,
}

/// The payload of a literal token.
///
/// A number keeps its numeral: the decimal digits exactly as written. Turning
/// a numeral into a binary floating-point value is left to the embedder.
#[derive(Debug, PartialEq)]
pub enum Literal {
    Num(String),
    String(String),
}

/// The mathematical content of a [`Literal`].
pub enum LiteralView {
    Num(Seq<char>),
    String(Seq<char>),
}

impl View for Literal {
    type V = LiteralView;

    open spec fn view(&self) -> LiteralView {
        match *self {
            Literal::Num(s) => LiteralView::Num(s@),
            Literal::String(s) => LiteralView::String(s@),
        }
    }
}

impl Clone for Literal {
    fn clone(&self) -> (r: Self)
        ensures
            r == *self,
    {
        match self {
            Literal::Num(s) => Literal::Num(s.clone()),
            Literal::String(s) => Literal::String(s.clone()),
        }
    }
}

/// A token: its kind, the text it was read from, and where that text stood.
///
/// `position` is the offset, counted in characters from the start of the
/// source, of the first character of `lexeme`.
#[derive(Debug, PartialEq)]
pub struct Token {
    pub token_type: TokenType,
    pub lexeme: String,
    pub literal: Option<Literal>,
    pub line: usize,
    pub position: usize,
}

/// The mathematical content of a [`Token`].
pub struct TokenView {
    pub token_type: TokenType,
    pub lexeme: Seq<char>,
    pub literal: Option<LiteralView>,
    pub line: usize,
    pub position: usize,
}

impl View for Token {
    type V = TokenView;

    open spec fn view(&self) -> TokenView {
        TokenView {
            token_type: self.token_type,
            lexeme: self.lexeme@,
            literal: match self.literal {
                Some(l) => Some(l@),
                None => None,
            },
            line: self.line,
            position: self.position,
        }
    }
}

pub open spec fn token_views(tokens: Seq<Token>) -> Seq<TokenView> {
    tokens.map_values(|t: Token| t@)
}

impl Clone for Token {
    fn clone(&self) -> (r: Self)
        ensures
            r == *self,
    {
        let literal = match &self.literal {
            Some(l) => Some(l.clone()),
            None => None,
        };
        Token {
            token_type: self.token_type,
            lexeme: self.lexeme.clone(),
            literal,
            line: self.line,
            position: self.position,
        }
    }
}

impl Token {
    pub fn new(
        token_type: TokenType,
        lexeme: String,
        literal: Option<Literal>,
        line: usize,
        position: usize,
    ) -> (t: Token)
        ensures
            t == (Token { token_type, lexeme, literal, line, position }),
    {
        Token { token_type, lexeme, literal, line, position }
    }

    pub fn token_type(&self) -> (r: TokenType)
        ensures
            r == self.token_type,
    {
        self.token_type
    }

    /// The literal payload of a `String` or `Number` token.
    pub fn literal(&self) -> (r: Literal)
        requires
            self.literal is Some,
        ensures
            Some(r) == self.literal,
    {
        match &self.literal {
            Some(l) => l.clone(),
            None => {
                proof {
                    assert(false);
                }
                Literal::String(String::new())
            },
        }
    }

    pub fn line(&self) -> (r: usize)
        ensures
            r == self.line,
    {
        self.line
    }

    pub fn position(&self) -> (r: usize)
        ensures
            r == self.position,
    {
        self.position
    }

    pub fn lexeme(&self) -> (r: String)
        ensures
            r == self.lexeme,
    {
        self.lexeme.clone()
    }
}

} // verus!
