//! The tokens of an arithmetic expression.

use vstd::prelude::*;
use crate::annot::Annot;
use crate::loc::Loc;

verus! {

/// What a token is.
#[derive(Debug, Clone, PartialEq, Eq, Hash)]
pub enum TokenKind {
    /// A run of decimal digits, with its value.
    Number(u64),
    /// `+`
    Plus,
    /// `-`
    Minus,
    /// `*`
    Asterisk,
    /// `/`
    Slash,
    /// `(`
    LParen,
    /// `)`
    RParen,
}

/// A token kind with the range it was read from.
pub type Token = Annot<TokenKind>;

impl Token {
    /// A number with the value `n`, read from `loc`.
    pub fn number(n: u64, loc: Loc) -> (token: Self)
        ensures
            token == (Annot { value: TokenKind::Number(n), loc }),
    {
        Self::new(TokenKind::Number(n), loc)
    }

    /// A `+` read from `loc`.
    pub fn plus(loc: Loc) -> (token: Self)
        ensures
            token == (Annot { value: TokenKind::Plus, loc }),
    {
        Self::new(TokenKind::Plus, loc)
    }

    /// A `-` read from `loc`.
    pub fn minus(loc: Loc) -> (token: Self)
        ensures
            token == (Annot { value: TokenKind::Minus, loc }),
    {
        Self::new(TokenKind::Minus, loc)
    }

    /// A `*` read from `loc`.
    pub fn asterisk(loc: Loc) -> (token: Self)
        ensures
            token == (Annot { value: TokenKind::Asterisk, loc }),
    {
        Self::new(TokenKind::Asterisk, loc)
    }

    /// A `/` read from `loc`.
    pub fn slash(loc: Loc) -> (token: Self)
        ensures
            token == (Annot { value: TokenKind::Slash, loc }),
    {
        Self::new(TokenKind::Slash, loc)
    }

    /// A `(` read from `loc`.
    pub fn lparen(loc: Loc) -> (token: Self)
        ensures
            token == (Annot { value: TokenKind::LParen, loc }),
    {
        Self::new(TokenKind::LParen, loc)
    }

    /// A `)` read from `loc`.
    pub fn rparen(loc: Loc) -> (token: Self)
        ensures
            token == (Annot { value: TokenKind::RParen, loc }),
    {
        Self::new(TokenKind::RParen, loc)
    }
}

} // verus!
