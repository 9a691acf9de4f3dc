use arith_lexer::{lex, LexError, LexErrorKind, Loc, Token, TokenKind};

fn kinds(tokens: &[Token]) -> Vec<TokenKind> {
    tokens.iter().map(|token| token.value.clone()).collect()
}

#[test]
fn lexes_an_expression_with_spaces_and_a_negated_number() {
    assert_eq!(
        lex("1 + 2 * 3 - -10"),
        Ok(vec![
            Token::number(1, Loc(0, 1)),
            Token::plus(Loc(2, 3)),
            Token::number(2, Loc(4, 5)),
            Token::asterisk(Loc(6, 7)),
            Token::number(3, Loc(8, 9)),
            Token::minus(Loc(10, 11)),
            Token::minus(Loc(12, 13)),
            Token::number(10, Loc(13, 15)),
        ])
    );
}

#[test]
fn empty_text_has_no_tokens() {
    assert_eq!(lex(""), Ok(vec![]));
}

#[test]
fn lexes_a_parenthesized_sum_without_spaces() {
    assert_eq!(
        lex("(1+2)"),
        Ok(vec![
            Token::lparen(Loc(0, 1)),
            Token::number(1, Loc(1, 2)),
            Token::plus(Loc(2, 3)),
            Token::number(2, Loc(3, 4)),
            Token::rparen(Loc(4, 5)),
        ])
    );
}

#[test]
fn ampersand_is_an_invalid_char() {
    assert_eq!(lex("1 & 2"), Err(LexError::invalid_char('&', Loc(2, 3))));
}

#[test]
fn whitespace_alone_has_no_tokens() {
    assert_eq!(lex(" "), Ok(vec![]));
    assert_eq!(lex("\n"), Ok(vec![]));
    assert_eq!(lex("\t"), Ok(vec![]));
    assert_eq!(lex("  \n\t \t\n  "), Ok(vec![]));
}

#[test]
fn every_kind_of_whitespace_separates_tokens() {
    assert_eq!(
        lex("1\n+\t2 "),
        Ok(vec![
            Token::number(1, Loc(0, 1)),
            Token::plus(Loc(2, 3)),
            Token::number(2, Loc(4, 5)),
        ])
    );
}

#[test]
fn other_whitespace_is_not_accepted() {
    assert_eq!(lex("1\r\n"), Err(LexError::invalid_char('\r', Loc(1, 2))));
    assert_eq!(lex("\u{b}"), Err(LexError::invalid_char('\u{b}', Loc(0, 1))));
}

#[test]
fn all_six_symbols_are_tokens_on_their_own() {
    assert_eq!(
        lex("+-*/()"),
        Ok(vec![
            Token::plus(Loc(0, 1)),
            Token::minus(Loc(1, 2)),
            Token::asterisk(Loc(2, 3)),
            Token::slash(Loc(3, 4)),
            Token::lparen(Loc(4, 5)),
            Token::rparen(Loc(5, 6)),
        ])
    );
}

#[test]
fn a_sign_is_a_token_of_its_own() {
    assert_eq!(
        lex("-10"),
        Ok(vec![Token::minus(Loc(0, 1)), Token::number(10, Loc(1, 3))])
    );
}

#[test]
fn digits_run_as_far_as_they_go() {
    assert_eq!(lex("1234567890"), Ok(vec![Token::number(1234567890, Loc(0, 10))]));
    assert_eq!(
        lex("12 34"),
        Ok(vec![Token::number(12, Loc(0, 2)), Token::number(34, Loc(3, 5))])
    );
    assert_eq!(
        lex("12(34"),
        Ok(vec![
            Token::number(12, Loc(0, 2)),
            Token::lparen(Loc(2, 3)),
            Token::number(34, Loc(3, 5)),
        ])
    );
}

#[test]
fn leading_zeros_are_part_of_the_number() {
    assert_eq!(lex("007"), Ok(vec![Token::number(7, Loc(0, 3))]));
    assert_eq!(lex("0"), Ok(vec![Token::number(0, Loc(0, 1))]));
    assert_eq!(
        lex("00000000000000000000000000000042"),
        Ok(vec![Token::number(42, Loc(0, 32))])
    );
}

#[test]
fn the_largest_number_is_accepted() {
    assert_eq!(
        lex("18446744073709551615"),
        Ok(vec![Token::number(u64::MAX, Loc(0, 20))])
    );
    assert_eq!(
        lex("018446744073709551615"),
        Ok(vec![Token::number(u64::MAX, Loc(0, 21))])
    );
}

#[test]
fn a_number_that_does_not_fit_is_an_overflow() {
    assert_eq!(lex("18446744073709551616"), Err(LexError::overflow(Loc(0, 20))));
    assert_eq!(lex("18446744073709551620"), Err(LexError::overflow(Loc(0, 20))));
    assert_eq!(lex("99999999999999999999"), Err(LexError::overflow(Loc(0, 20))));
    assert_eq!(lex("100000000000000000000"), Err(LexError::overflow(Loc(0, 21))));
}

#[test]
fn an_overflow_spans_the_whole_run_of_digits() {
    assert_eq!(
        lex("1 + 123456789012345678901234567890 * 2"),
        Err(LexError::overflow(Loc(4, 34)))
    );
}

#[test]
fn the_first_error_is_the_one_reported() {
    assert_eq!(lex("99999999999999999999 #"), Err(LexError::overflow(Loc(0, 20))));
    assert_eq!(lex("# 99999999999999999999"), Err(LexError::invalid_char('#', Loc(0, 1))));
    assert_eq!(lex("1 @ 2 # 3"), Err(LexError::invalid_char('@', Loc(2, 3))));
}

#[test]
fn an_unrecognized_char_fails_wherever_it_stands() {
    let text = "(1 + 23) * 4";
    for at in 0..=text.len() {
        for c in ['#', '@', '&', 'a', '.', '_'] {
            let mut broken = String::from(&text[..at]);
            broken.push(c);
            broken.push_str(&text[at..]);
            assert_eq!(lex(&broken), Err(LexError::invalid_char(c, Loc(at, at + 1))));
        }
    }
}

#[test]
fn a_byte_outside_ascii_is_an_invalid_char() {
    assert_eq!(lex("1 \u{e9}"), Err(LexError::invalid_char('\u{c3}', Loc(2, 3))));
}

#[test]
fn an_error_after_tokens_returns_no_tokens() {
    let result = lex("1 + 2 #");
    assert!(result.is_err());
    assert_eq!(result, Err(LexError::invalid_char('#', Loc(6, 7))));
}

#[test]
fn lex_never_reports_the_end_of_the_text() {
    for text in ["", "1", "1+", "(", "1 + (", "+", " ", "12 ", "a", "1a"] {
        if let Err(error) = lex(text) {
            assert_ne!(error.value, LexErrorKind::Eof);
        }
    }
}

#[test]
fn token_ranges_cover_exactly_what_is_not_whitespace() {
    let text = " (12+ 3)*\t45 /6 -\n789 ";
    let bytes = text.as_bytes();
    let tokens = lex(text).unwrap();
    assert_eq!(tokens.len(), 11);
    let mut covered = vec![false; bytes.len()];
    let mut previous_end: usize = 0;
    for token in &tokens {
        let Loc(start, end) = token.loc.clone();
        assert!(previous_end <= start);
        assert!(start < end);
        assert!(end <= bytes.len());
        for flag in &mut covered[start..end] {
            assert!(!*flag);
            *flag = true;
        }
        if let TokenKind::Number(n) = token.value {
            assert!(bytes[start..end].iter().all(|b| b.is_ascii_digit()));
            assert!(start == 0 || !bytes[start - 1].is_ascii_digit());
            assert!(end == bytes.len() || !bytes[end].is_ascii_digit());
            assert_eq!(text[start..end].parse::<u64>(), Ok(n));
        } else {
            assert_eq!(end, start + 1);
        }
        previous_end = end;
    }
    for (at, b) in bytes.iter().enumerate() {
        assert_eq!(covered[at], !matches!(*b, b' ' | b'\n' | b'\t'));
    }
    assert_eq!(
        kinds(&tokens),
        vec![
            TokenKind::LParen,
            TokenKind::Number(12),
            TokenKind::Plus,
            TokenKind::Number(3),
            TokenKind::RParen,
            TokenKind::Asterisk,
            TokenKind::Number(45),
            TokenKind::Slash,
            TokenKind::Number(6),
            TokenKind::Minus,
            TokenKind::Number(789),
        ]
    );
}

#[test]
fn the_text_of_a_token_lexes_to_that_token_alone() {
    let text = "(1 + 23) * 456 / 7 - 18446744073709551615";
    let tokens = lex(text).unwrap();
    assert_eq!(tokens.len(), 11);
    for token in tokens {
        let Loc(start, end) = token.loc;
        assert_eq!(
            lex(&text[start..end]),
            Ok(vec![Token::new(token.value, Loc(0, end - start))])
        );
    }
}
