//! Tokens of the markdown front end.
use vstd::prelude::*;

verus! {

/// A source range: character offsets `start..end`, and the line and column where it starts.
#[derive(Debug, Clone, Copy, PartialEq, Eq, Structural)]
pub struct Span {
    pub start: usize,
    pub end: usize,
    pub line: usize,
    pub column: usize,
}

impl Span {
    pub fn new(start: usize, end: usize, line: usize, column: usize) -> (r: Self)
        ensures
            r == (Span { start, end, line, column }),
    {
        Self { start, end, line, column }
    }
}

impl Default for Span {
    fn default() -> (r: Self)
        ensures
            r == (Span { start: 0, end: 0, line: 0, column: 0 }),
    {
        Span { start: 0, end: 0, line: 0, column: 0 }
    }
}

/// The kinds of markdown tokens.
#[allow(non_camel_case_types)]
#[derive(Debug, Clone, Copy, PartialEq, Eq, Structural)]
pub enum TokenType {
    TError,
    TEof,
    TNl,
    H6,
    H5,
    H4,
    H3,
    H2,
    H1,
    CODE,
    HR,
    TEXT,
    SPACE,
}

impl Default for TokenType {
    fn default() -> (r: Self)
        ensures
            r == TokenType::TError,
    {
        TokenType::TError
    }
}

/// A token: its kind, the exact characters it covers, and where they are.
#[derive(Debug, Clone)]
pub struct Token {
    pub token_type: TokenType,
    pub content: String,
    pub span: Span,
}

impl Default for Token {
    fn default() -> (r: Self)
        ensures
            r.token_type == TokenType::TError,
            r.content@ == Seq::<char>::empty(),
            r.span == (Span { start: 0, end: 0, line: 0, column: 0 }),
    {
        Token { token_type: TokenType::TError, content: String::new(), span: Span::default() }
    }
}

} // verus!
