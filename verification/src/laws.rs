//! What holds of every scan: which texts are accepted, what the tokens
//! of an accepted text are, and which error a refused text gives.

use vstd::prelude::*;
use crate::annot::Annot;
use crate::bytes::{
    all_digits, digit_run_end, digits_value, is_digit, is_recognized, is_space, is_symbol,
    lemma_digit_run_end, lemma_digit_run_end_unique, symbol_kind,
};
use crate::error::{LexError, LexErrorKind};
use crate::lexer::{followed_by, lex_spec, number_at, tokens_from, unit_loc};
use crate::loc::Loc;
use crate::token::{Token, TokenKind};

verus! {

/// The bytes from `start` up to `end` are a number as it stands in the
/// text: a run of digits that cannot be made longer on either side.
pub open spec fn is_number_lexeme(s: Seq<u8>, start: int, end: int) -> bool {
    &&& 0 <= start < end <= s.len()
    &&& all_digits(s, start, end)
    &&& (start == 0 || !is_digit(s[start - 1]))
    &&& (end == s.len() || !is_digit(s[end]))
}

/// The bytes from `start` up to `end` are a single byte that is a token
/// on its own.
pub open spec fn is_symbol_lexeme(s: Seq<u8>, start: int, end: int) -> bool {
    0 <= start < s.len() && end == start + 1 && is_symbol(s[start])
}

/// The bytes from `start` up to `end` are one token's text: either a whole
/// number or a symbol.
pub open spec fn is_lexeme(s: Seq<u8>, start: int, end: int) -> bool {
    is_number_lexeme(s, start, end) || is_symbol_lexeme(s, start, end)
}

/// `kind` is what the bytes from `start` up to `end` say: the symbol that
/// stands there, or else the number that the digits denote.
pub open spec fn has_kind(s: Seq<u8>, start: int, end: int, kind: TokenKind) -> bool {
    match symbol_kind(s[start]) {
        Some(symbol) => kind == symbol,
        None => kind matches TokenKind::Number(n) && n == digits_value(s.subrange(start, end)),
    }
}

/// Every byte of the text is a digit, a symbol or whitespace.
pub open spec fn all_recognized(s: Seq<u8>) -> bool {
    forall|i: int| 0 <= i < s.len() ==> is_recognized(#[trigger] s[i])
}

/// Every number that stands in the text fits in 64 bits.
pub open spec fn numbers_fit(s: Seq<u8>) -> bool {
    forall|start: int, end: int| #[trigger]
        is_number_lexeme(s, start, end) ==> digits_value(s.subrange(start, end)) <= u64::MAX
}

/// Some token of `tokens` has the position `p` in its range.
pub open spec fn covered(tokens: Seq<Token>, p: int) -> bool {
    exists|i: int| 0 <= i < tokens.len() && (#[trigger] tokens[i]).loc.0 <= p < tokens[i].loc.1
}

/// `tokens` are the tokens of the text `s` from `pos` on: each is the
/// text of one lexeme, with the kind that its bytes say; they stand in the
/// order of the text and do not overlap; and together they cover the bytes
/// from `pos` on that are not whitespace, and no others.
pub open spec fn tokenizes_from(s: Seq<u8>, pos: int, tokens: Seq<Token>) -> bool {
    &&& forall|i: int|
        0 <= i < tokens.len() ==> {
            let token = #[trigger] tokens[i];
            &&& pos <= token.loc.0
            &&& is_lexeme(s, token.loc.0 as int, token.loc.1 as int)
            &&& has_kind(s, token.loc.0 as int, token.loc.1 as int, token.value)
        }
    &&& forall|i: int, j: int|
        0 <= i < j < tokens.len() ==> (#[trigger] tokens[i]).loc.1 <= (#[trigger] tokens[j]).loc.0
    &&& forall|p: int| pos <= p < s.len() ==> (#[trigger] covered(tokens, p) <==> !is_space(s[p]))
}

/// `tokens` are the tokens of the whole text `s`.
pub open spec fn is_tokenization(s: Seq<u8>, tokens: Seq<Token>) -> bool {
    tokenizes_from(s, 0, tokens)
}

/// The position `pos` does not stand between two digits.
pub open spec fn is_boundary(s: Seq<u8>, pos: int) -> bool {
    pos <= 0 || pos >= s.len() || !is_digit(s[pos - 1]) || !is_digit(s[pos])
}

/// The error for the byte at `pos`, which starts no token.
pub open spec fn invalid_at(s: Seq<u8>, pos: int) -> LexError {
    Annot { value: LexErrorKind::InvalidChar(s[pos] as char), loc: unit_loc(pos) }
}

proof fn lemma_tokenizes_prepend(s: Seq<u8>, pos: int, end: int, token: Token, rest: Seq<Token>)
    requires
        s.len() <= usize::MAX,
        token.loc == Loc(pos as usize, end as usize),
        is_lexeme(s, pos, end),
        has_kind(s, pos, end, token.value),
        tokenizes_from(s, end, rest),
    ensures
        tokenizes_from(s, pos, seq![token] + rest),
{
    let tokens = seq![token] + rest;
    assert(tokens[0] == token);
    assert forall|i: int| 0 < i < tokens.len() implies #[trigger] tokens[i] == rest[i - 1] by {}
    assert forall|p: int| pos <= p < s.len() implies (#[trigger] covered(tokens, p) <==> !is_space(
        s[p],
    )) by {
        if p < end {
            assert(tokens[0].loc.0 <= p < tokens[0].loc.1);
            assert(is_digit(s[p]) || is_symbol(s[p]));
        } else {
            if covered(rest, p) {
                let i = choose|i: int|
                    0 <= i < rest.len() && (#[trigger] rest[i]).loc.0 <= p < rest[i].loc.1;
                assert(tokens[i + 1] == rest[i]);
            }
            if covered(tokens, p) {
                let i = choose|i: int|
                    0 <= i < tokens.len() && (#[trigger] tokens[i]).loc.0 <= p < tokens[i].loc.1;
                assert(rest[i - 1] == tokens[i]);
            }
        }
    }
}

/// Where the scan from a position that is not inside a number succeeds,
/// what it returns are the tokens of the text from there on.
pub proof fn lemma_tokens_from_tokenizes(s: Seq<u8>, pos: int)
    requires
        s.len() <= usize::MAX,
        0 <= pos <= s.len(),
        is_boundary(s, pos),
        tokens_from(s, pos) is Ok,
    ensures
        tokenizes_from(s, pos, tokens_from(s, pos)->Ok_0),
    decreases s.len() - pos,
{
    let tokens = tokens_from(s, pos)->Ok_0;
    if pos >= s.len() {
    } else if is_space(s[pos]) {
        lemma_tokens_from_tokenizes(s, pos + 1);
        assert forall|p: int| pos <= p < s.len() implies (#[trigger] covered(tokens, p)
            <==> !is_space(s[p])) by {
            if p == pos && covered(tokens, p) {
                let i = choose|i: int|
                    0 <= i < tokens.len() && (#[trigger] tokens[i]).loc.0 <= p < tokens[i].loc.1;
                assert(pos + 1 <= tokens[i].loc.0);
            }
        }
    } else if is_digit(s[pos]) {
        let end = digit_run_end(s, pos);
        lemma_digit_run_end(s, pos);
        lemma_tokens_from_tokenizes(s, end);
        let token = number_at(s, pos)->Ok_0.0;
        assert(is_number_lexeme(s, pos, end));
        lemma_tokenizes_prepend(s, pos, end, token, tokens_from(s, end)->Ok_0);
    } else {
        lemma_tokens_from_tokenizes(s, pos + 1);
        let token = Annot { value: symbol_kind(s[pos])->Some_0, loc: unit_loc(pos) };
        assert(is_symbol_lexeme(s, pos, pos + 1));
        lemma_tokenizes_prepend(s, pos, pos + 1, token, tokens_from(s, pos + 1)->Ok_0);
    }
}

proof fn lemma_tokens_from_succeeds(s: Seq<u8>, pos: int)
    requires
        0 <= pos <= s.len(),
        is_boundary(s, pos),
        all_recognized(s),
        numbers_fit(s),
    ensures
        tokens_from(s, pos) is Ok,
    decreases s.len() - pos,
{
    if pos >= s.len() {
    } else if is_space(s[pos]) {
        lemma_tokens_from_succeeds(s, pos + 1);
    } else if is_digit(s[pos]) {
        let end = digit_run_end(s, pos);
        lemma_digit_run_end(s, pos);
        assert(is_number_lexeme(s, pos, end));
        lemma_tokens_from_succeeds(s, end);
    } else {
        assert(is_recognized(s[pos]));
        lemma_tokens_from_succeeds(s, pos + 1);
    }
}

/// A text of digits, symbols and whitespace alone, in which every number
/// fits in 64 bits, is scanned without error, and what comes out are its
/// tokens: one for each number and each symbol, in the order of the text,
/// on ranges that do not overlap and that cover what is not whitespace and
/// nothing else.
pub proof fn lemma_lex_valid_input(s: Seq<u8>)
    requires
        s.len() <= usize::MAX,
        all_recognized(s),
        numbers_fit(s),
    ensures
        lex_spec(s) is Ok,
        is_tokenization(s, lex_spec(s)->Ok_0),
{
    lemma_tokens_from_succeeds(s, 0);
    lemma_tokens_from_tokenizes(s, 0);
}

/// Whatever text is scanned without error, what comes out are its tokens.
pub proof fn lemma_lex_tokenizes(s: Seq<u8>)
    requires
        s.len() <= usize::MAX,
        lex_spec(s) is Ok,
    ensures
        is_tokenization(s, lex_spec(s)->Ok_0),
{
    lemma_tokens_from_tokenizes(s, 0);
}

/// In a text that is scanned without error each number and each symbol
/// is the text of exactly one token: the result is the index of that
/// token.
pub proof fn lemma_one_token_per_lexeme(s: Seq<u8>, start: int, end: int) -> (i: int)
    requires
        s.len() <= usize::MAX,
        lex_spec(s) is Ok,
        is_lexeme(s, start, end),
    ensures
        0 <= i < lex_spec(s)->Ok_0.len(),
        lex_spec(s)->Ok_0[i].loc == Loc(start as usize, end as usize),
        forall|j: int|
            0 <= j < lex_spec(s)->Ok_0.len() && (#[trigger] lex_spec(s)->Ok_0[j]).loc == Loc(
                start as usize,
                end as usize,
            ) ==> j == i,
{
    let tokens = lex_spec(s)->Ok_0;
    lemma_tokens_from_tokenizes(s, 0);
    assert(is_digit(s[start]) || is_symbol(s[start]));
    assert(covered(tokens, start));
    let i = choose|i: int|
        0 <= i < tokens.len() && (#[trigger] tokens[i]).loc.0 <= start < tokens[i].loc.1;
    let from = tokens[i].loc.0 as int;
    let to = tokens[i].loc.1 as int;
    assert(is_lexeme(s, from, to));
    if is_number_lexeme(s, from, to) {
        assert(is_digit(s[start]));
        if from < start {
            assert(is_digit(s[start - 1]));
        }
        if to < end {
            assert(is_digit(s[to]));
        }
        if end < to {
            assert(is_digit(s[end]));
        }
    }
    assert forall|j: int| 0 <= j < tokens.len() && (#[trigger] tokens[j]).loc == tokens[i].loc
        implies j == i by {
        if j < i {
            assert(tokens[j].loc.1 <= tokens[i].loc.0);
        }
        if i < j {
            assert(tokens[i].loc.1 <= tokens[j].loc.0);
        }
    }
    i
}

/// A text is scanned without error exactly when each of its bytes is a
/// digit, a symbol or whitespace and each of its numbers fits in 64 bits.
pub proof fn lemma_lex_succeeds_iff(s: Seq<u8>)
    requires
        s.len() <= usize::MAX,
    ensures
        lex_spec(s) is Ok <==> all_recognized(s) && numbers_fit(s),
{
    if all_recognized(s) && numbers_fit(s) {
        lemma_tokens_from_succeeds(s, 0);
    }
    if lex_spec(s) is Ok {
        let tokens = lex_spec(s)->Ok_0;
        lemma_tokens_from_tokenizes(s, 0);
        assert forall|p: int| 0 <= p < s.len() implies is_recognized(#[trigger] s[p]) by {
            if !is_space(s[p]) {
                assert(covered(tokens, p));
                let i = choose|i: int|
                    0 <= i < tokens.len() && (#[trigger] tokens[i]).loc.0 <= p < tokens[i].loc.1;
                assert(is_lexeme(s, tokens[i].loc.0 as int, tokens[i].loc.1 as int));
            }
        }
        assert forall|start: int, end: int| #[trigger]
            is_number_lexeme(s, start, end) implies digits_value(s.subrange(start, end))
            <= u64::MAX by {
            let i = lemma_one_token_per_lexeme(s, start, end);
            assert(has_kind(s, start, end, tokens[i].value));
            assert(is_digit(s[start]));
        }
    }
}

/// Scanning the text of one token alone gives that token again, and
/// nothing else, on the range of the whole of that text.
pub proof fn lemma_relex_token(s: Seq<u8>, i: int)
    requires
        s.len() <= usize::MAX,
        lex_spec(s) is Ok,
        0 <= i < lex_spec(s)->Ok_0.len(),
    ensures
        ({
            let token = lex_spec(s)->Ok_0[i];
            let text = s.subrange(token.loc.0 as int, token.loc.1 as int);
            lex_spec(text) == Ok::<Seq<Token>, LexError>(
                seq![Annot { value: token.value, loc: Loc(0, text.len() as usize) }],
            )
        }),
{
    let tokens = lex_spec(s)->Ok_0;
    let token = tokens[i];
    let start = token.loc.0 as int;
    let end = token.loc.1 as int;
    let text = s.subrange(start, end);
    let alone = Annot { value: token.value, loc: Loc(0, text.len() as usize) };
    lemma_tokens_from_tokenizes(s, 0);
    assert(is_lexeme(s, start, end));
    assert(has_kind(s, start, end, token.value));
    assert(text[0] == s[start]);
    if is_number_lexeme(s, start, end) {
        assert(is_digit(s[start]));
        assert forall|k: int| 0 <= k < text.len() implies is_digit(#[trigger] text[k]) by {
            assert(text[k] == s[start + k]);
        }
        lemma_digit_run_end_unique(text, 0, text.len() as int);
        assert(text.subrange(0, text.len() as int) =~= text);
        assert(tokens_from(text, text.len() as int) == Ok::<Seq<Token>, LexError>(Seq::empty()));
        assert(seq![alone] + Seq::<Token>::empty() =~= seq![alone]);
    } else {
        assert(tokens_from(text, 1) == Ok::<Seq<Token>, LexError>(Seq::empty()));
        assert(seq![alone] + Seq::<Token>::empty() =~= seq![alone]);
    }
}

proof fn lemma_tokens_from_blank(s: Seq<u8>, pos: int)
    requires
        0 <= pos <= s.len(),
        forall|i: int| 0 <= i < s.len() ==> is_space(#[trigger] s[i]),
    ensures
        tokens_from(s, pos) == Ok::<Seq<Token>, LexError>(Seq::empty()),
    decreases s.len() - pos,
{
    if pos < s.len() {
        assert(is_space(s[pos]));
        lemma_tokens_from_blank(s, pos + 1);
    }
}

/// A text that holds nothing but whitespace, the empty text among them,
/// has no tokens and no error.
pub proof fn lemma_lex_blank(s: Seq<u8>)
    requires
        forall|i: int| 0 <= i < s.len() ==> is_space(#[trigger] s[i]),
    ensures
        lex_spec(s) == Ok::<Seq<Token>, LexError>(Seq::empty()),
{
    lemma_tokens_from_blank(s, 0);
}

proof fn lemma_tokens_from_first_invalid(s: Seq<u8>, pos: int, at: int)
    requires
        s.len() <= usize::MAX,
        0 <= pos <= at < s.len(),
        is_boundary(s, pos),
        !is_recognized(s[at]),
        forall|i: int| 0 <= i < at ==> is_recognized(#[trigger] s[i]),
        numbers_fit(s.subrange(0, at)),
    ensures
        tokens_from(s, pos) == Err::<Seq<Token>, LexError>(invalid_at(s, at)),
    decreases at - pos,
{
    if pos == at {
    } else if is_space(s[pos]) {
        lemma_tokens_from_first_invalid(s, pos + 1, at);
    } else if is_digit(s[pos]) {
        let end = digit_run_end(s, pos);
        lemma_digit_run_end(s, pos);
        if end > at {
            assert(is_digit(s[at]));
        }
        let before = s.subrange(0, at);
        assert forall|k: int| pos <= k < end implies is_digit(#[trigger] before[k]) by {
            assert(before[k] == s[k]);
        }
        assert(is_number_lexeme(before, pos, end));
        assert(before.subrange(pos, end) =~= s.subrange(pos, end));
        lemma_tokens_from_first_invalid(s, end, at);
    } else {
        assert(is_recognized(s[pos]));
        lemma_tokens_from_first_invalid(s, pos + 1, at);
    }
}

/// Where the byte at `at` is the first that is no digit, symbol or
/// whitespace, and the numbers before it fit in 64 bits, the scan fails
/// with `InvalidChar` for that byte on its own range, whatever follows it.
pub proof fn lemma_lex_first_invalid(s: Seq<u8>, at: int)
    requires
        s.len() <= usize::MAX,
        0 <= at < s.len(),
        !is_recognized(s[at]),
        forall|i: int| 0 <= i < at ==> is_recognized(#[trigger] s[i]),
        numbers_fit(s.subrange(0, at)),
    ensures
        lex_spec(s) == Err::<Seq<Token>, LexError>(invalid_at(s, at)),
{
    lemma_tokens_from_first_invalid(s, 0, at);
}

proof fn lemma_tokens_from_first_overflow(s: Seq<u8>, pos: int, start: int, end: int)
    requires
        s.len() <= usize::MAX,
        0 <= pos <= start,
        is_boundary(s, pos),
        is_number_lexeme(s, start, end),
        digits_value(s.subrange(start, end)) > u64::MAX,
        forall|i: int| 0 <= i < start ==> is_recognized(#[trigger] s[i]),
        numbers_fit(s.subrange(0, start)),
    ensures
        tokens_from(s, pos) == Err::<Seq<Token>, LexError>(
            Annot { value: LexErrorKind::Overflow, loc: Loc(start as usize, end as usize) },
        ),
    decreases start - pos,
{
    if pos == start {
        assert(is_digit(s[start]));
        lemma_digit_run_end_unique(s, start, end);
    } else if is_space(s[pos]) {
        lemma_tokens_from_first_overflow(s, pos + 1, start, end);
    } else if is_digit(s[pos]) {
        let stop = digit_run_end(s, pos);
        lemma_digit_run_end(s, pos);
        if stop >= start {
            assert(is_digit(s[start - 1]));
        }
        let before = s.subrange(0, start);
        assert forall|k: int| pos <= k < stop implies is_digit(#[trigger] before[k]) by {
            assert(before[k] == s[k]);
        }
        assert(is_number_lexeme(before, pos, stop));
        assert(before.subrange(pos, stop) =~= s.subrange(pos, stop));
        lemma_tokens_from_first_overflow(s, stop, start, end);
    } else {
        assert(is_recognized(s[pos]));
        lemma_tokens_from_first_overflow(s, pos + 1, start, end);
    }
}

/// Where a number does not fit in 64 bits, every byte before it is a
/// digit, a symbol or whitespace, and the numbers before it fit, the scan
/// fails with `Overflow` on the range of that number, whatever follows it.
pub proof fn lemma_lex_first_overflow(s: Seq<u8>, start: int, end: int)
    requires
        s.len() <= usize::MAX,
        is_number_lexeme(s, start, end),
        digits_value(s.subrange(start, end)) > u64::MAX,
        forall|i: int| 0 <= i < start ==> is_recognized(#[trigger] s[i]),
        numbers_fit(s.subrange(0, start)),
    ensures
        lex_spec(s) == Err::<Seq<Token>, LexError>(
            Annot { value: LexErrorKind::Overflow, loc: Loc(start as usize, end as usize) },
        ),
{
    lemma_tokens_from_first_overflow(s, 0, start, end);
}

proof fn lemma_tokens_from_never_eof(s: Seq<u8>, pos: int)
    requires
        0 <= pos <= s.len(),
    ensures
        tokens_from(s, pos) matches Err(e) ==> e.value != LexErrorKind::Eof,
    decreases s.len() - pos,
{
    if pos >= s.len() {
    } else if is_space(s[pos]) {
        lemma_tokens_from_never_eof(s, pos + 1);
    } else if is_digit(s[pos]) {
        lemma_digit_run_end(s, pos);
        lemma_tokens_from_never_eof(s, digit_run_end(s, pos));
    } else {
        lemma_tokens_from_never_eof(s, pos + 1);
    }
}

/// The scan of a whole text never fails for want of a byte: the end of
/// the text is where it stops.
pub proof fn lemma_lex_never_eof(s: Seq<u8>)
    ensures
        lex_spec(s) matches Err(e) ==> e.value != LexErrorKind::Eof,
{
    lemma_tokens_from_never_eof(s, 0);
}

} // verus!
