use arith_lexer::lexer::{
    consume_byte, lex_asterisk, lex_lparen, lex_minus, lex_number, lex_plus, lex_rparen,
    lex_slash, skip_spaces,
};
use arith_lexer::{LexError, Loc, Token};

#[test]
fn consume_byte_takes_the_byte_asked_for() {
    assert_eq!(consume_byte(b"a+b", 1, b'+'), Ok((b'+', 2)));
    assert_eq!(consume_byte(b"+", 0, b'+'), Ok((b'+', 1)));
    assert_eq!(consume_byte(b"xyz", 2, b'z'), Ok((b'z', 3)));
}

#[test]
fn consume_byte_refuses_another_byte() {
    assert_eq!(consume_byte(b"a+b", 0, b'+'), Err(LexError::invalid_char('a', Loc(0, 1))));
    assert_eq!(consume_byte(b"a+b", 2, b'+'), Err(LexError::invalid_char('b', Loc(2, 3))));
    assert_eq!(
        consume_byte(&[0x2b, 0xff], 1, b'+'),
        Err(LexError::invalid_char('\u{ff}', Loc(1, 2)))
    );
}

#[test]
fn consume_byte_reports_the_end_of_the_text() {
    assert_eq!(consume_byte(b"a+b", 3, b'+'), Err(LexError::eof(Loc(3, 3))));
    assert_eq!(consume_byte(b"a+b", 10, b'+'), Err(LexError::eof(Loc(10, 10))));
    assert_eq!(consume_byte(b"", 0, b'+'), Err(LexError::eof(Loc(0, 0))));
    assert_eq!(
        consume_byte(b"+", usize::MAX, b'+'),
        Err(LexError::eof(Loc(usize::MAX, usize::MAX)))
    );
}

#[test]
fn each_symbol_lexer_reads_its_own_byte() {
    let text = b" +-*/()";
    assert_eq!(lex_plus(text, 1), Ok((Token::plus(Loc(1, 2)), 2)));
    assert_eq!(lex_minus(text, 2), Ok((Token::minus(Loc(2, 3)), 3)));
    assert_eq!(lex_asterisk(text, 3), Ok((Token::asterisk(Loc(3, 4)), 4)));
    assert_eq!(lex_slash(text, 4), Ok((Token::slash(Loc(4, 5)), 5)));
    assert_eq!(lex_lparen(text, 5), Ok((Token::lparen(Loc(5, 6)), 6)));
    assert_eq!(lex_rparen(text, 6), Ok((Token::rparen(Loc(6, 7)), 7)));
}

#[test]
fn each_symbol_lexer_refuses_another_byte() {
    let text = b")+-*/(";
    assert_eq!(lex_plus(text, 0), Err(LexError::invalid_char(')', Loc(0, 1))));
    assert_eq!(lex_minus(text, 1), Err(LexError::invalid_char('+', Loc(1, 2))));
    assert_eq!(lex_asterisk(text, 2), Err(LexError::invalid_char('-', Loc(2, 3))));
    assert_eq!(lex_slash(text, 3), Err(LexError::invalid_char('*', Loc(3, 4))));
    assert_eq!(lex_lparen(text, 4), Err(LexError::invalid_char('/', Loc(4, 5))));
    assert_eq!(lex_rparen(text, 5), Err(LexError::invalid_char('(', Loc(5, 6))));
}

#[test]
fn each_symbol_lexer_reports_the_end_of_the_text() {
    let text = b"12";
    assert_eq!(lex_plus(text, 2), Err(LexError::eof(Loc(2, 2))));
    assert_eq!(lex_minus(text, 2), Err(LexError::eof(Loc(2, 2))));
    assert_eq!(lex_asterisk(text, 3), Err(LexError::eof(Loc(3, 3))));
    assert_eq!(lex_slash(text, 4), Err(LexError::eof(Loc(4, 4))));
    assert_eq!(lex_lparen(b"", 0), Err(LexError::eof(Loc(0, 0))));
    assert_eq!(lex_rparen(b"", 5), Err(LexError::eof(Loc(5, 5))));
}

#[test]
fn lex_number_reads_the_whole_run() {
    assert_eq!(lex_number(b"123", 0), Ok((Token::number(123, Loc(0, 3)), 3)));
    assert_eq!(lex_number(b"123", 1), Ok((Token::number(23, Loc(1, 3)), 3)));
    assert_eq!(lex_number(b"1+23*4", 2), Ok((Token::number(23, Loc(2, 4)), 4)));
    assert_eq!(lex_number(b"x9 ", 1), Ok((Token::number(9, Loc(1, 2)), 2)));
    assert_eq!(lex_number(b"0012", 0), Ok((Token::number(12, Loc(0, 4)), 4)));
}

#[test]
fn lex_number_stops_at_bytes_next_to_the_digits() {
    assert_eq!(lex_number(b"5/", 0), Ok((Token::number(5, Loc(0, 1)), 1)));
    assert_eq!(lex_number(b"5:", 0), Ok((Token::number(5, Loc(0, 1)), 1)));
}

#[test]
fn lex_number_refuses_what_does_not_fit() {
    assert_eq!(
        lex_number(b"18446744073709551615", 0),
        Ok((Token::number(18446744073709551615, Loc(0, 20)), 20))
    );
    assert_eq!(lex_number(b"18446744073709551616", 0), Err(LexError::overflow(Loc(0, 20))));
    assert_eq!(lex_number(b"(18446744073709551616)", 1), Err(LexError::overflow(Loc(1, 21))));
    assert_eq!(
        lex_number(b"18446744073709551616", 1),
        Ok((Token::number(8446744073709551616, Loc(1, 20)), 20))
    );
    assert_eq!(lex_number(b"184467440737095516150+1", 0), Err(LexError::overflow(Loc(0, 21))));
}

#[test]
fn skip_spaces_passes_over_the_whole_run() {
    assert_eq!(skip_spaces(b"  \n\t1", 0), 4);
    assert_eq!(skip_spaces(b"  \n\t1", 2), 4);
    assert_eq!(skip_spaces(b"1   ", 1), 4);
    assert_eq!(skip_spaces(b" \r ", 0), 1);
}

#[test]
fn skip_spaces_accepts_an_empty_run() {
    assert_eq!(skip_spaces(b"1 2", 0), 0);
    assert_eq!(skip_spaces(b"1 2", 2), 2);
    assert_eq!(skip_spaces(b"1 2", 3), 3);
    assert_eq!(skip_spaces(b"1 2", 9), 9);
    assert_eq!(skip_spaces(b"", 0), 0);
}
