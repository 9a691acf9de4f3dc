//! The classes of bytes that the scanner tells apart, and what runs of
//! them denote.

use vstd::prelude::*;
use crate::token::TokenKind;

verus! {

/// The digit `0`.
pub const ZERO: u8 = 0x30;

/// The digit `9`.
pub const NINE: u8 = 0x39;

/// A space.
pub const SPACE: u8 = 0x20;

/// A newline.
pub const NEWLINE: u8 = 0x0a;

/// A tab.
pub const TAB: u8 = 0x09;

/// `+`
pub const PLUS: u8 = 0x2b;

/// `-`
pub const MINUS: u8 = 0x2d;

/// `*`
pub const ASTERISK: u8 = 0x2a;

/// `/`
pub const SLASH: u8 = 0x2f;

/// `(`
pub const LPAREN: u8 = 0x28;

/// `)`
pub const RPAREN: u8 = 0x29;

/// An ASCII decimal digit, `0` to `9`.
pub open spec fn is_digit(b: u8) -> bool {
    ZERO <= b <= NINE
}

/// A space, a newline or a tab.
pub open spec fn is_space(b: u8) -> bool {
    b == SPACE || b == NEWLINE || b == TAB
}

/// The token that the byte `b` is on its own, if it is one of
/// `+ - * / ( )`.
pub open spec fn symbol_kind(b: u8) -> Option<TokenKind> {
    if b == PLUS {
        Some(TokenKind::Plus)
    } else if b == MINUS {
        Some(TokenKind::Minus)
    } else if b == ASTERISK {
        Some(TokenKind::Asterisk)
    } else if b == SLASH {
        Some(TokenKind::Slash)
    } else if b == LPAREN {
        Some(TokenKind::LParen)
    } else if b == RPAREN {
        Some(TokenKind::RParen)
    } else {
        None
    }
}

/// One of the six bytes that are a token on their own.
pub open spec fn is_symbol(b: u8) -> bool {
    symbol_kind(b) is Some
}

/// A byte that may occur in a text that can be scanned: a digit, a symbol
/// or whitespace.
pub open spec fn is_recognized(b: u8) -> bool {
    is_digit(b) || is_symbol(b) || is_space(b)
}

/// The number that a sequence of digits denotes in base ten; the empty
/// sequence denotes zero.
pub open spec fn digits_value(digits: Seq<u8>) -> nat
    decreases digits.len(),
{
    if digits.len() == 0 {
        0
    } else {
        (digits_value(digits.drop_last()) * 10 + (digits.last() - ZERO)) as nat
    }
}

/// Whether every byte of `s` from `from` up to `to` is a digit.
pub open spec fn all_digits(s: Seq<u8>, from: int, to: int) -> bool {
    forall|i: int| from <= i < to ==> is_digit(#[trigger] s[i])
}

/// The end of the longest run of digits that starts at `pos`; `pos` itself
/// where no digit stands there.
pub open spec fn digit_run_end(s: Seq<u8>, pos: int) -> int
    decreases s.len() - pos,
{
    if 0 <= pos < s.len() && is_digit(s[pos]) {
        digit_run_end(s, pos + 1)
    } else {
        pos
    }
}

/// The end of the longest run of whitespace that starts at `pos`; `pos`
/// itself where no whitespace stands there.
pub open spec fn space_run_end(s: Seq<u8>, pos: int) -> int
    decreases s.len() - pos,
{
    if 0 <= pos < s.len() && is_space(s[pos]) {
        space_run_end(s, pos + 1)
    } else {
        pos
    }
}

/// `digit_run_end` is the first position from `pos` on that holds no
/// digit, or the end of the text.
pub proof fn lemma_digit_run_end(s: Seq<u8>, pos: int)
    requires
        0 <= pos <= s.len(),
    ensures
        pos <= digit_run_end(s, pos) <= s.len(),
        all_digits(s, pos, digit_run_end(s, pos)),
        digit_run_end(s, pos) < s.len() ==> !is_digit(s[digit_run_end(s, pos)]),
        pos < s.len() && is_digit(s[pos]) ==> pos < digit_run_end(s, pos),
    decreases s.len() - pos,
{
    if pos < s.len() && is_digit(s[pos]) {
        lemma_digit_run_end(s, pos + 1);
    }
}

/// A position that is reached through digits alone and holds no digit is
/// where the run of digits ends.
pub proof fn lemma_digit_run_end_unique(s: Seq<u8>, pos: int, end: int)
    requires
        0 <= pos <= end <= s.len(),
        all_digits(s, pos, end),
        end < s.len() ==> !is_digit(s[end]),
    ensures
        digit_run_end(s, pos) == end,
    decreases end - pos,
{
    if pos < end {
        assert(is_digit(s[pos]));
        lemma_digit_run_end_unique(s, pos + 1, end);
    }
}

/// A position that is reached through whitespace alone and holds none is
/// where the run of whitespace ends.
pub proof fn lemma_space_run_end_unique(s: Seq<u8>, pos: int, end: int)
    requires
        0 <= pos <= end <= s.len(),
        forall|i: int| pos <= i < end ==> is_space(#[trigger] s[i]),
        end < s.len() ==> !is_space(s[end]),
    ensures
        space_run_end(s, pos) == end,
    decreases end - pos,
{
    if pos < end {
        assert(is_space(s[pos]));
        lemma_space_run_end_unique(s, pos + 1, end);
    }
}

/// Reading one more digit multiplies the value by ten and adds the digit.
pub proof fn lemma_digits_value_step(s: Seq<u8>, from: int, to: int)
    requires
        0 <= from <= to < s.len(),
        is_digit(s[to]),
    ensures
        digits_value(s.subrange(from, to + 1)) == digits_value(s.subrange(from, to)) * 10 + (s[to]
            - ZERO),
        digits_value(s.subrange(from, to)) <= digits_value(s.subrange(from, to + 1)),
{
    let longer = s.subrange(from, to + 1);
    assert(longer.drop_last() =~= s.subrange(from, to));
    assert(longer.last() == s[to]);
    assert(digits_value(s.subrange(from, to)) * 10 >= digits_value(s.subrange(from, to)))
        by (nonlinear_arith);
}

/// The value of a run of digits is at least the value of each of its
/// beginnings.
pub proof fn lemma_digits_value_prefix(s: Seq<u8>, from: int, mid: int, to: int)
    requires
        0 <= from <= mid <= to <= s.len(),
        all_digits(s, from, to),
    ensures
        digits_value(s.subrange(from, mid)) <= digits_value(s.subrange(from, to)),
    decreases to - mid,
{
    if mid < to {
        lemma_digits_value_prefix(s, from, mid, to - 1);
        assert(is_digit(s[to - 1]));
        lemma_digits_value_step(s, from, to - 1);
    }
}

} // verus!
