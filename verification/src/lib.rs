//! A lexical analyzer for arithmetic expressions.
//!
//! The input is a text made of decimal digits, the operators `+ - * /`,
//! parentheses and whitespace. [`lexer::lex`] turns it into the sequence of
//! its tokens, each carrying the half-open byte range it was read from, or
//! into the single error that stopped the scan.

pub mod loc;
pub mod annot;
pub mod token;
pub mod error;
pub mod bytes;
pub mod lexer;
pub mod laws;

pub use crate::annot::Annot;
pub use crate::error::{LexError, LexErrorKind};
pub use crate::lexer::lex;
pub use crate::loc::Loc;
pub use crate::token::{Token, TokenKind};
