use calculator::{Error, Span, Token};

#[test]
fn operators_have_their_ranks() {
    assert_eq!(Token::Add.prec(), Some(1));
    assert_eq!(Token::Sub.prec(), Some(1));
    assert_eq!(Token::Mul.prec(), Some(2));
    assert_eq!(Token::Div.prec(), Some(2));
    assert_eq!(Token::Pow.prec(), Some(3));
}

#[test]
fn other_tokens_have_no_rank() {
    assert_eq!(Token::Int(3).prec(), None);
    assert_eq!(Token::Float(Span { start: 0, end: 3 }).prec(), None);
    assert_eq!(Token::LeftParen.prec(), None);
    assert_eq!(Token::RightParen.prec(), None);
}

#[test]
fn is_op_holds_of_the_five_operators() {
    for t in [Token::Add, Token::Sub, Token::Mul, Token::Div, Token::Pow] {
        assert!(t.is_op());
        assert!(!t.is_num());
    }
    for t in [Token::Int(0), Token::Float(Span { start: 1, end: 4 }), Token::LeftParen, Token::RightParen] {
        assert!(!t.is_op());
    }
}

#[test]
fn is_num_holds_of_numbers() {
    assert!(Token::Int(-4).is_num());
    assert!(Token::Float(Span { start: 0, end: 2 }).is_num());
    assert!(!Token::LeftParen.is_num());
    assert!(!Token::RightParen.is_num());
}

#[test]
fn tokens_describe_themselves() {
    assert_eq!(Token::Add.describe(), "Add (+)");
    assert_eq!(Token::Sub.describe(), "Sub (-)");
    assert_eq!(Token::Mul.describe(), "Mul (*)");
    assert_eq!(Token::Div.describe(), "Div (/)");
    assert_eq!(Token::Pow.describe(), "Pow (^)");
    assert_eq!(Token::Int(15).describe(), "Int (15)");
    assert_eq!(Token::Int(-15).describe(), "Int (-15)");
    assert_eq!(Token::Float(Span { start: 2, end: 11 }).describe(), "Float (2..11)");
    assert_eq!(Token::LeftParen.describe(), "Left Paren (\"(\")");
    assert_eq!(Token::RightParen.describe(), "Right Paren (\")\")");
}

#[test]
fn errors_describe_themselves() {
    assert_eq!(Error::UnexpectedCharacter('$').describe(), "Unexpected character: $");
    assert_eq!(
        Error::UnmatchedRightParen.describe(),
        "Unmatched right parenthesis: expected Left Paren (\"(\")"
    );
    assert_eq!(
        Error::UnmatchedLeftParen.describe(),
        "Unmatched left parenthesis: unexpected Left Paren (\"(\")"
    );
    assert_eq!(
        Error::InsufficientOperands.describe(),
        "Insufficient operands: an operator must have two"
    );
    assert_eq!(
        Error::InvalidExpression.describe(),
        "Invalid expression: more than one value is left"
    );
    assert_eq!(Error::DivideByZero.describe(), "Divide by zero: an integer divided by zero");
}

#[test]
fn a_span_cuts_its_text_out_of_the_line() {
    let line = String::from("12 + 3.75");
    assert_eq!(Span { start: 5, end: 9 }.text(&line), Some(String::from("3.75")));
    assert_eq!(Span { start: 0, end: 2 }.text(&line), Some(String::from("12")));
    assert_eq!(Span { start: 0, end: 9 }.text(&line), Some(String::from("12 + 3.75")));
    assert_eq!(Span { start: 4, end: 4 }.text(&line), Some(String::new()));
    assert_eq!(Span { start: 9, end: 9 }.text(&line), Some(String::new()));
}

#[test]
fn a_span_outside_the_line_cuts_nothing() {
    let line = String::from("1.5");
    assert_eq!(Span { start: 0, end: 4 }.text(&line), None);
    assert_eq!(Span { start: 2, end: 1 }.text(&line), None);
    assert_eq!(Span { start: 7, end: 9 }.text(&line), None);
}

#[test]
fn a_span_counts_characters_not_bytes() {
    let line = String::from("\u{e9}\u{e9}1.5");
    assert_eq!(Span { start: 2, end: 5 }.text(&line), Some(String::from("1.5")));
}
