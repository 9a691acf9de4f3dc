//! The scanner: one routine for each class of token, and the loop that
//! picks among them by the byte at hand.
//!
//! A number is the longest run of digits. Its value must fit in 64 bits:
//! a longer one is refused with `Overflow` on the range of the whole run,
//! never truncated, wrapped or saturated.

use vstd::prelude::*;
use vstd::string::StringSliceAdditionalSpecFns;
use crate::annot::Annot;
use crate::bytes::{
    all_digits, digit_run_end, digits_value, is_digit, is_space, lemma_digit_run_end,
    lemma_digit_run_end_unique, lemma_digits_value_prefix, lemma_digits_value_step,
    lemma_space_run_end_unique, space_run_end, symbol_kind, ASTERISK, LPAREN, MINUS, NEWLINE,
    NINE, PLUS, RPAREN, SLASH, SPACE, TAB, ZERO,
};
use crate::error::{LexError, LexErrorKind};
use crate::laws::{
    all_recognized, is_tokenization, lemma_lex_never_eof, lemma_lex_succeeds_iff,
    lemma_lex_tokenizes, numbers_fit,
};
use crate::loc::Loc;
use crate::token::{Token, TokenKind};

verus! {

/// The range of the single byte at `pos`.
pub open spec fn unit_loc(pos: int) -> Loc {
    Loc(pos as usize, (pos + 1) as usize)
}

/// What asking for the byte `b` at `pos` gives: the byte and the position
/// behind it where `b` stands there; `Eof` on the empty range at `pos`
/// where the text has ended; `InvalidChar` with the byte that stands there
/// instead, on its range, otherwise.
pub open spec fn expect_byte(s: Seq<u8>, pos: int, b: u8) -> Result<(u8, usize), LexError> {
    if pos >= s.len() {
        Err(Annot { value: LexErrorKind::Eof, loc: Loc(pos as usize, pos as usize) })
    } else if s[pos] != b {
        Err(Annot { value: LexErrorKind::InvalidChar(s[pos] as char), loc: unit_loc(pos) })
    } else {
        Ok((b, (pos + 1) as usize))
    }
}

/// What reading the one-byte token `kind`, written `b`, at `pos` gives:
/// the token on the range of that byte and the position behind it, or the
/// error of `expect_byte`.
pub open spec fn expect_symbol(s: Seq<u8>, pos: int, b: u8, kind: TokenKind) -> Result<
    (Token, usize),
    LexError,
> {
    match expect_byte(s, pos, b) {
        Ok((_, next)) => Ok((Annot { value: kind, loc: unit_loc(pos) }, next)),
        Err(e) => Err(e),
    }
}

/// What reading a number at `pos` gives: the longest run of digits from
/// there on, as a token with the value of the run and the position behind
/// it; `Overflow` on the range of the whole run where that value does not
/// fit in 64 bits.
pub open spec fn number_at(s: Seq<u8>, pos: int) -> Result<(Token, usize), LexError> {
    let end = digit_run_end(s, pos);
    let loc = Loc(pos as usize, end as usize);
    let value = digits_value(s.subrange(pos, end));
    if value <= u64::MAX {
        Ok((Annot { value: TokenKind::Number(value as u64), loc }, end as usize))
    } else {
        Err(Annot { value: LexErrorKind::Overflow, loc })
    }
}

/// Puts the tokens `front` before those that follow them, and keeps the
/// error where what follows failed.
pub open spec fn followed_by(front: Seq<Token>, rest: Result<Seq<Token>, LexError>) -> Result<
    Seq<Token>,
    LexError,
> {
    match rest {
        Ok(tokens) => Ok(front + tokens),
        Err(e) => Err(e),
    }
}

/// The tokens of `s` from `pos` on, or the first error: whitespace is
/// passed over, a digit starts a number, one of `+ - * / ( )` is a token
/// on its own, and any other byte is an `InvalidChar` on its own range.
pub open spec fn tokens_from(s: Seq<u8>, pos: int) -> Result<Seq<Token>, LexError>
    decreases s.len() - pos,
{
    if pos < 0 || pos >= s.len() {
        Ok(Seq::empty())
    } else if is_space(s[pos]) {
        tokens_from(s, pos + 1)
    } else if is_digit(s[pos]) {
        match number_at(s, pos) {
            Ok((token, _)) => {
                proof {
                    lemma_digit_run_end(s, pos);
                }
                followed_by(seq![token], tokens_from(s, digit_run_end(s, pos)))
            },
            Err(e) => Err(e),
        }
    } else {
        match symbol_kind(s[pos]) {
            Some(kind) => followed_by(
                seq![Annot { value: kind, loc: unit_loc(pos) }],
                tokens_from(s, pos + 1),
            ),
            None => Err(
                Annot { value: LexErrorKind::InvalidChar(s[pos] as char), loc: unit_loc(pos) },
            ),
        }
    }
}

/// The tokens of the whole text `s`, or the first error in it.
pub open spec fn lex_spec(s: Seq<u8>) -> Result<Seq<Token>, LexError> {
    tokens_from(s, 0)
}

/// What a scan has returned, with the tokens as a sequence.
pub open spec fn outcome(r: Result<Vec<Token>, LexError>) -> Result<Seq<Token>, LexError> {
    match r {
        Ok(tokens) => Ok(tokens@),
        Err(e) => Err(e),
    }
}

/// Asks for the byte `b` at `pos`.
pub fn consume_byte(input: &[u8], pos: usize, b: u8) -> (r: Result<(u8, usize), LexError>)
    ensures
        r == expect_byte(input@, pos as int, b),
        r is Ok <==> pos < input@.len() && input@[pos as int] == b,
{
    if input.len() <= pos {
        return Err(LexError::eof(Loc(pos, pos)));
    }
    if input[pos] != b {
        return Err(LexError::invalid_char(input[pos] as char, Loc(pos, pos + 1)));
    }
    Ok((b, pos + 1))
}

/// Reads `+` at `start`.
pub fn lex_plus(input: &[u8], start: usize) -> (r: Result<(Token, usize), LexError>)
    ensures
        r == expect_symbol(input@, start as int, PLUS, TokenKind::Plus),
        r is Ok <==> start < input@.len() && input@[start as int] == PLUS,
{
    match consume_byte(input, start, PLUS) {
        Ok((_, end)) => Ok((Token::plus(Loc(start, end)), end)),
        Err(e) => Err(e),
    }
}

/// Reads `-` at `start`.
pub fn lex_minus(input: &[u8], start: usize) -> (r: Result<(Token, usize), LexError>)
    ensures
        r == expect_symbol(input@, start as int, MINUS, TokenKind::Minus),
        r is Ok <==> start < input@.len() && input@[start as int] == MINUS,
{
    match consume_byte(input, start, MINUS) {
        Ok((_, end)) => Ok((Token::minus(Loc(start, end)), end)),
        Err(e) => Err(e),
    }
}

/// Reads `*` at `start`.
pub fn lex_asterisk(input: &[u8], start: usize) -> (r: Result<(Token, usize), LexError>)
    ensures
        r == expect_symbol(input@, start as int, ASTERISK, TokenKind::Asterisk),
        r is Ok <==> start < input@.len() && input@[start as int] == ASTERISK,
{
    match consume_byte(input, start, ASTERISK) {
        Ok((_, end)) => Ok((Token::asterisk(Loc(start, end)), end)),
        Err(e) => Err(e),
    }
}

/// Reads `/` at `start`.
pub fn lex_slash(input: &[u8], start: usize) -> (r: Result<(Token, usize), LexError>)
    ensures
        r == expect_symbol(input@, start as int, SLASH, TokenKind::Slash),
        r is Ok <==> start < input@.len() && input@[start as int] == SLASH,
{
    match consume_byte(input, start, SLASH) {
        Ok((_, end)) => Ok((Token::slash(Loc(start, end)), end)),
        Err(e) => Err(e),
    }
}

/// Reads `(` at `start`.
pub fn lex_lparen(input: &[u8], start: usize) -> (r: Result<(Token, usize), LexError>)
    ensures
        r == expect_symbol(input@, start as int, LPAREN, TokenKind::LParen),
        r is Ok <==> start < input@.len() && input@[start as int] == LPAREN,
{
    match consume_byte(input, start, LPAREN) {
        Ok((_, end)) => Ok((Token::lparen(Loc(start, end)), end)),
        Err(e) => Err(e),
    }
}

/// Reads `)` at `start`.
pub fn lex_rparen(input: &[u8], start: usize) -> (r: Result<(Token, usize), LexError>)
    ensures
        r == expect_symbol(input@, start as int, RPAREN, TokenKind::RParen),
        r is Ok <==> start < input@.len() && input@[start as int] == RPAREN,
{
    match consume_byte(input, start, RPAREN) {
        Ok((_, end)) => Ok((Token::rparen(Loc(start, end)), end)),
        Err(e) => Err(e),
    }
}

/// Reads the number that starts at `pos`: the longest run of digits from
/// there on. A run whose value does not fit in 64 bits is refused as a
/// whole, with `Overflow` on the range of the run.
pub fn lex_number(input: &[u8], pos: usize) -> (r: Result<(Token, usize), LexError>)
    requires
        pos < input@.len(),
        is_digit(input@[pos as int]),
    ensures
        r == number_at(input@, pos as int),
        r is Ok <==> digits_value(
            input@.subrange(pos as int, digit_run_end(input@, pos as int)),
        ) <= u64::MAX,
{
    let mut end: usize = pos;
    while end < input.len() && input[end] >= ZERO && input[end] <= NINE
        invariant
            pos <= end <= input@.len(),
            all_digits(input@, pos as int, end as int),
        decreases input@.len() - end,
    {
        end += 1;
    }
    proof {
        lemma_digit_run_end_unique(input@, pos as int, end as int);
    }
    let mut n: u64 = 0;
    let mut i: usize = pos;
    while i < end
        invariant
            pos <= i <= end <= input@.len(),
            all_digits(input@, pos as int, end as int),
            digit_run_end(input@, pos as int) == end,
            n == digits_value(input@.subrange(pos as int, i as int)),
        decreases end - i,
    {
        let digit: u64 = (input[i] - ZERO) as u64;
        proof {
            lemma_digits_value_step(input@, pos as int, i as int);
            lemma_digits_value_prefix(input@, pos as int, i + 1, end as int);
        }
        let shifted: u64 = match n.checked_mul(10) {
            Some(shifted) => shifted,
            None => { return Err(LexError::overflow(Loc(pos, end))); },
        };
        n = match shifted.checked_add(digit) {
            Some(sum) => sum,
            None => { return Err(LexError::overflow(Loc(pos, end))); },
        };
        i += 1;
    }
    Ok((Token::number(n, Loc(pos, end)), end))
}

/// Passes over the longest run of whitespace that starts at `pos`, which
/// may be empty, and returns the position behind it.
pub fn skip_spaces(input: &[u8], pos: usize) -> (end: usize)
    ensures
        end == space_run_end(input@, pos as int),
        pos <= end,
        pos <= input@.len() ==> end <= input@.len(),
        forall|i: int| pos <= i < end ==> is_space(#[trigger] input@[i]),
        end < input@.len() ==> !is_space(input@[end as int]),
{
    let mut end: usize = pos;
    while end < input.len() && (input[end] == SPACE || input[end] == NEWLINE || input[end] == TAB)
        invariant
            pos <= end,
            end <= input@.len() || end == pos,
            forall|i: int| pos <= i < end ==> is_space(#[trigger] input@[i]),
        decreases input@.len() - end,
    {
        end += 1;
    }
    proof {
        if pos <= input@.len() {
            lemma_space_run_end_unique(input@, pos as int, end as int);
        }
    }
    end
}

/// Whitespace before the next token changes nothing of what follows.
pub proof fn lemma_tokens_from_skips_spaces(s: Seq<u8>, pos: int)
    requires
        0 <= pos <= s.len(),
    ensures
        tokens_from(s, pos) == tokens_from(s, space_run_end(s, pos)),
    decreases s.len() - pos,
{
    if pos < s.len() && is_space(s[pos]) {
        lemma_tokens_from_skips_spaces(s, pos + 1);
    }
}

/// Scans `input` from its first byte to its last and returns its tokens
/// in the order in which they stand in the text, or the first error. After
/// an error no token is returned.
///
/// The scan succeeds exactly on a text of digits, `+ - * / ( )` and
/// whitespace in which every number fits in 64 bits. A byte that is none
/// of these gives `InvalidChar` on its own range, a number that does not
/// fit gives `Overflow` on the range of all its digits, and `Eof` is
/// never returned.
#[verifier::loop_isolation(false)]
pub fn lex(input: &str) -> (r: Result<Vec<Token>, LexError>)
    ensures
        outcome(r) == lex_spec(input.spec_bytes()),
        r is Ok <==> all_recognized(input.spec_bytes()) && numbers_fit(input.spec_bytes()),
        r matches Ok(tokens) ==> is_tokenization(input.spec_bytes(), tokens@),
        r matches Err(e) ==> e.value != LexErrorKind::Eof,
{
    let mut tokens: Vec<Token> = Vec::new();
    let bytes = input.as_bytes();
    let mut pos: usize = 0;
    proof {
        lemma_lex_succeeds_iff(bytes@);
        lemma_lex_never_eof(bytes@);
        if lex_spec(bytes@) is Ok {
            lemma_lex_tokenizes(bytes@);
        }
    }
    while pos < bytes.len()
        invariant
            pos <= bytes@.len(),
            lex_spec(bytes@) == followed_by(tokens@, tokens_from(bytes@, pos as int)),
        decreases bytes@.len() - pos,
    {
        let b: u8 = bytes[pos];
        let ghost before = tokens@;
        if b == SPACE || b == NEWLINE || b == TAB {
            proof {
                lemma_tokens_from_skips_spaces(bytes@, pos as int);
            }
            pos = skip_spaces(bytes, pos);
        } else {
            let read = if b >= ZERO && b <= NINE {
                lex_number(bytes, pos)
            } else if b == PLUS {
                lex_plus(bytes, pos)
            } else if b == MINUS {
                lex_minus(bytes, pos)
            } else if b == ASTERISK {
                lex_asterisk(bytes, pos)
            } else if b == SLASH {
                lex_slash(bytes, pos)
            } else if b == LPAREN {
                lex_lparen(bytes, pos)
            } else if b == RPAREN {
                lex_rparen(bytes, pos)
            } else {
                return Err(LexError::invalid_char(b as char, Loc(pos, pos + 1)));
            };
            proof {
                lemma_digit_run_end(bytes@, pos as int);
            }
            match read {
                Ok((token, next)) => {
                    tokens.push(token);
                    proof {
                        let rest = tokens_from(bytes@, next as int);
                        if let Ok(after) = rest {
                            assert(before + (seq![token] + after) =~= before.push(token) + after);
                        }
                    }
                    pos = next;
                },
                Err(e) => {
                    return Err(e);
                },
            }
        }
    }
    proof {
        assert(tokens@ + Seq::<Token>::empty() =~= tokens@);
    }
    Ok(tokens)
}

} // verus!
