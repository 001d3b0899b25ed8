//! The failures of an evaluation.

use vstd::prelude::*;
use vstd::string::StringExecFns;
use crate::text::push_char;
use crate::token::Token;

verus! {

/// Why a line could not be evaluated.
#[derive(Clone, Copy, Debug, PartialEq, Eq)]
pub enum Error {
    /// The scanner met a character that starts no token, or an integer
    /// literal too large for `i32` (then the character is the literal's
    /// first digit).
    UnexpectedCharacter(char),
    /// A `)` with no `(` open before it.
    UnmatchedRightParen,
    /// A `(` that is never closed.
    UnmatchedLeftParen,
    /// An operator found fewer than two values to work on.
    InsufficientOperands,
    /// More than one value was left when the expression ended.
    InvalidExpression,
    /// An integer was divided by the integer zero.
    DivideByZero,
}

impl Error {
    /// The line that reports the failure: its kind, and the character or
    /// token at fault.
    pub open spec fn message(&self) -> Seq<char> {
        match *self {
            Error::UnexpectedCharacter(c) => "Unexpected character: "@.push(c),
            Error::UnmatchedRightParen => "Unmatched right parenthesis: expected "@
                + Token::LeftParen.description(),
            Error::UnmatchedLeftParen => "Unmatched left parenthesis: unexpected "@
                + Token::LeftParen.description(),
            Error::InsufficientOperands => "Insufficient operands: an operator must have two"@,
            Error::InvalidExpression => "Invalid expression: more than one value is left"@,
            Error::DivideByZero => "Divide by zero: an integer divided by zero"@,
        }
    }

    /// The message as a `String`.
    pub fn describe(&self) -> (text: String)
        ensures
            text@ == self.message(),
    {
        match *self {
            Error::UnexpectedCharacter(c) => {
                let mut text = String::from_str("Unexpected character: ");
                push_char(&mut text, c);
                text
            },
            Error::UnmatchedRightParen => {
                let mut text = String::from_str("Unmatched right parenthesis: expected ");
                text.append(Token::LeftParen.describe().as_str());
                text
            },
            Error::UnmatchedLeftParen => {
                let mut text = String::from_str("Unmatched left parenthesis: unexpected ");
                text.append(Token::LeftParen.describe().as_str());
                text
            },
            Error::InsufficientOperands => String::from_str(
                "Insufficient operands: an operator must have two",
            ),
            Error::InvalidExpression => String::from_str(
                "Invalid expression: more than one value is left",
            ),
            Error::DivideByZero => String::from_str("Divide by zero: an integer divided by zero"),
        }
    }
}

} // verus!
