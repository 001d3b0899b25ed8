use calculator::{Error, Span, Token, TokenStream};

fn stream(text: &str) -> TokenStream {
    TokenStream::new(&String::from(text))
}

fn all(text: &str) -> Result<Vec<Token>, Error> {
    stream(text).collect()
}

#[test]
fn a_new_stream_has_consumed_nothing() {
    let s = stream("1+2");
    assert_eq!(s.position(), 0);
}

#[test]
fn each_symbol_is_its_token() {
    assert_eq!(
        all("+-*/^()"),
        Ok(vec![
            Token::Add,
            Token::Sub,
            Token::Mul,
            Token::Div,
            Token::Pow,
            Token::LeftParen,
            Token::RightParen,
        ])
    );
}

#[test]
fn an_empty_line_has_no_token() {
    let mut s = stream("");
    assert_eq!(s.read(), Ok(None));
    assert_eq!(s.read(), Ok(None));
    assert_eq!(s.position(), 0);
}

#[test]
fn a_line_of_spaces_has_no_token() {
    let mut s = stream("    ");
    assert_eq!(s.read(), Ok(None));
    assert_eq!(s.position(), 4);
}

#[test]
fn digits_make_an_integer() {
    assert_eq!(all("0"), Ok(vec![Token::Int(0)]));
    assert_eq!(all("12345"), Ok(vec![Token::Int(12345)]));
    assert_eq!(all("007"), Ok(vec![Token::Int(7)]));
    assert_eq!(all("2147483647"), Ok(vec![Token::Int(i32::MAX)]));
}

#[test]
fn a_point_makes_a_float_that_spans_the_literal() {
    assert_eq!(all("3.14"), Ok(vec![Token::Float(Span { start: 0, end: 4 })]));
    assert_eq!(all("  3.14 "), Ok(vec![Token::Float(Span { start: 2, end: 6 })]));
}

#[test]
fn the_fraction_of_a_float_may_be_empty() {
    assert_eq!(all("3."), Ok(vec![Token::Float(Span { start: 0, end: 2 })]));
    assert_eq!(
        all("3.+1"),
        Ok(vec![Token::Float(Span { start: 0, end: 2 }), Token::Add, Token::Int(1)])
    );
}

#[test]
fn a_float_may_have_more_digits_than_an_integer_holds() {
    assert_eq!(
        all("99999999999999999999.5"),
        Ok(vec![Token::Float(Span { start: 0, end: 22 })])
    );
}

#[test]
fn an_integer_too_large_is_an_error_at_its_first_digit() {
    assert_eq!(all("2147483648"), Err(Error::UnexpectedCharacter('2')));
    assert_eq!(all("1+99999999999"), Err(Error::UnexpectedCharacter('9')));
}

#[test]
fn a_second_point_is_an_error() {
    assert_eq!(all("1.2.3"), Err(Error::UnexpectedCharacter('.')));
}

#[test]
fn a_bare_point_is_an_error() {
    assert_eq!(all("."), Err(Error::UnexpectedCharacter('.')));
    assert_eq!(all(".5"), Err(Error::UnexpectedCharacter('.')));
}

#[test]
fn any_other_character_is_an_error_and_is_not_consumed() {
    let mut s = stream("1 $");
    assert_eq!(s.read(), Ok(Some(Token::Int(1))));
    assert_eq!(s.read(), Err(Error::UnexpectedCharacter('$')));
    assert_eq!(s.position(), 2);
    assert_eq!(s.read(), Err(Error::UnexpectedCharacter('$')));
    assert_eq!(all("x"), Err(Error::UnexpectedCharacter('x')));
    assert_eq!(all("1\t2"), Err(Error::UnexpectedCharacter('\t')));
    assert_eq!(all("\u{e9}"), Err(Error::UnexpectedCharacter('\u{e9}')));
}

#[test]
fn spaces_between_tokens_are_skipped() {
    let spaced = all("1 + 2");
    let tight = all("1+2");
    assert_eq!(spaced, Ok(vec![Token::Int(1), Token::Add, Token::Int(2)]));
    assert_eq!(spaced, tight);
    assert_eq!(all("   1   +   2   "), tight);
}

#[test]
fn a_space_parts_two_numbers() {
    assert_eq!(all("1 2"), Ok(vec![Token::Int(1), Token::Int(2)]));
    assert_eq!(all("12"), Ok(vec![Token::Int(12)]));
}

#[test]
fn read_moves_past_each_token() {
    let mut s = stream("12 + 3.5");
    assert_eq!(s.read(), Ok(Some(Token::Int(12))));
    assert_eq!(s.position(), 2);
    assert_eq!(s.read(), Ok(Some(Token::Add)));
    assert_eq!(s.position(), 4);
    assert_eq!(s.read(), Ok(Some(Token::Float(Span { start: 5, end: 8 }))));
    assert_eq!(s.position(), 8);
    assert_eq!(s.read(), Ok(None));
    assert_eq!(s.position(), 8);
}

#[test]
fn next_is_read() {
    let mut s = stream("(7)");
    assert_eq!(s.next(), Ok(Some(Token::LeftParen)));
    assert_eq!(s.next(), Ok(Some(Token::Int(7))));
    assert_eq!(s.next(), Ok(Some(Token::RightParen)));
    assert_eq!(s.next(), Ok(None));
}

#[test]
fn get_digits_takes_the_longest_run() {
    let mut s = stream("123abc");
    assert_eq!(s.get_digits(), "123");
    assert_eq!(s.position(), 3);
    assert_eq!(s.get_digits(), "");
    assert_eq!(s.position(), 3);
}

#[test]
fn get_digits_stops_at_the_end() {
    let mut s = stream("42");
    assert_eq!(s.get_digits(), "42");
    assert_eq!(s.position(), 2);
}

#[test]
fn read_while_takes_what_the_condition_accepts() {
    let mut s = stream("aaab");
    assert_eq!(s.read_while(|c| c == 'a'), "aaa");
    assert_eq!(s.position(), 3);
    assert_eq!(s.read_while(|c| c == 'a'), "");
    assert_eq!(s.read_while(|_| true), "b");
    assert_eq!(s.position(), 4);
    assert_eq!(s.read_while(|_| true), "");
}

#[test]
fn read_while_with_nothing_accepted_consumes_nothing() {
    let mut s = stream("1+2");
    assert_eq!(s.read_while(|_| false), "");
    assert_eq!(s.position(), 0);
    assert_eq!(s.read(), Ok(Some(Token::Int(1))));
}

#[test]
fn collect_gives_what_repeated_reading_gives() {
    for text in ["", "1+2", " ( 3.5 * 4 ) ^ 2 ", "1 $ 2", "12 99999999999", "((("] {
        let mut s = stream(text);
        let mut found = Vec::new();
        let read = loop {
            match s.read() {
                Ok(Some(t)) => found.push(t),
                Ok(None) => break Ok(found),
                Err(e) => break Err(e),
            }
        };
        assert_eq!(stream(text).collect(), read);
    }
}

#[test]
fn collect_starts_where_the_stream_stands() {
    let mut s = stream("1 + 2");
    assert_eq!(s.read(), Ok(Some(Token::Int(1))));
    assert_eq!(s.collect(), Ok(vec![Token::Add, Token::Int(2)]));
}
