//! Tokens, and the places of literals in a line.

use vstd::prelude::*;
use vstd::string::StringExecFns;
use crate::text::{chars_of, decimal, decimal_nat, decimal_of, push_char, push_decimal};

verus! {

/// A range of character positions in the scanned line: from `start` up to,
/// not including, `end`.
#[derive(Clone, Copy, Debug, PartialEq, Eq)]
pub struct Span {
    pub start: usize,
    pub end: usize,
}

impl Span {
    /// The characters of `line` that the span covers, if it lies within the
    /// line.
    pub open spec fn cut(&self, line: Seq<char>) -> Option<Seq<char>> {
        if self.start <= self.end <= line.len() {
            Some(line.subrange(self.start as int, self.end as int))
        } else {
            None
        }
    }

    /// The text that the span covers in `line`, counted in characters.
    pub fn text(&self, line: &String) -> (found: Option<String>)
        ensures
            match found {
                Some(s) => self.cut(line@) == Some(s@),
                None => self.cut(line@) is None,
            },
    {
        let chars = chars_of(line.as_str());
        if self.start > self.end || self.end > chars.len() {
            return None;
        }
        let mut found = String::new();
        let mut at: usize = self.start;
        assert(found@ =~= chars@.subrange(self.start as int, at as int));
        while at < self.end
            invariant
                self.start <= at <= self.end <= chars.len(),
                found@ == chars@.subrange(self.start as int, at as int),
            decreases self.end - at,
        {
            push_char(&mut found, chars[at]);
            assert(chars@.subrange(self.start as int, at as int).push(chars@[at as int])
                =~= chars@.subrange(self.start as int, at + 1));
            at = at + 1;
        }
        Some(found)
    }
}

/// What the scanner produces and the evaluator consumes.
///
/// A decimal literal is kept as the place of its text in the line, digits,
/// point and digits: its value is a double-precision number, which this
/// library carries but never computes.
#[derive(Clone, Copy, Debug, PartialEq, Eq)]
pub enum Token {
    Add,
    Sub,
    Mul,
    Div,
    Pow,
    Int(i32),
    Float(Span),
    LeftParen,
    RightParen,
}

impl Token {
    /// The precedence rank of an operator; `None` for any other token.
    pub open spec fn spec_prec(&self) -> Option<u8> {
        match *self {
            Token::Add | Token::Sub => Some(1u8),
            Token::Mul | Token::Div => Some(2u8),
            Token::Pow => Some(3u8),
            _ => None,
        }
    }

    pub open spec fn spec_is_op(&self) -> bool {
        *self is Add || *self is Sub || *self is Mul || *self is Div || *self is Pow
    }

    pub open spec fn spec_is_num(&self) -> bool {
        *self is Int || *self is Float
    }

    /// The name of the token, with its sign or its value in brackets. A
    /// `Float` shows its place in the line.
    pub open spec fn description(&self) -> Seq<char> {
        match *self {
            Token::Add => "Add (+)"@,
            Token::Sub => "Sub (-)"@,
            Token::Mul => "Mul (*)"@,
            Token::Div => "Div (/)"@,
            Token::Pow => "Pow (^)"@,
            Token::Int(x) => "Int ("@ + decimal_of(x as int) + ")"@,
            Token::Float(place) => "Float ("@ + decimal_nat(place.start as nat) + ".."@
                + decimal_nat(place.end as nat) + ")"@,
            Token::LeftParen => "Left Paren (\"(\")"@,
            Token::RightParen => "Right Paren (\")\")"@,
        }
    }

    #[verifier::when_used_as_spec(spec_prec)]
    pub fn prec(&self) -> (rank: Option<u8>)
        ensures
            rank == self.spec_prec(),
    {
        match *self {
            Token::Add | Token::Sub => Some(1),
            Token::Mul | Token::Div => Some(2),
            Token::Pow => Some(3),
            _ => None,
        }
    }

    #[verifier::when_used_as_spec(spec_is_op)]
    pub fn is_op(&self) -> (yes: bool)
        ensures
            yes == self.spec_is_op(),
    {
        match *self {
            Token::Add | Token::Sub | Token::Mul | Token::Div | Token::Pow => true,
            _ => false,
        }
    }

    #[verifier::when_used_as_spec(spec_is_num)]
    pub fn is_num(&self) -> (yes: bool)
        ensures
            yes == self.spec_is_num(),
    {
        match *self {
            Token::Int(_) | Token::Float(_) => true,
            _ => false,
        }
    }

    /// The description as a `String`.
    pub fn describe(&self) -> (text: String)
        ensures
            text@ == self.description(),
    {
        match *self {
            Token::Add => String::from_str("Add (+)"),
            Token::Sub => String::from_str("Sub (-)"),
            Token::Mul => String::from_str("Mul (*)"),
            Token::Div => String::from_str("Div (/)"),
            Token::Pow => String::from_str("Pow (^)"),
            Token::Int(x) => {
                let mut text = String::from_str("Int (");
                text.append(decimal(x).as_str());
                text.append(")");
                text
            },
            Token::Float(place) => {
                let mut text = String::from_str("Float (");
                push_decimal(&mut text, place.start as u64);
                text.append("..");
                push_decimal(&mut text, place.end as u64);
                text.append(")");
                text
            },
            Token::LeftParen => String::from_str("Left Paren (\"(\")"),
            Token::RightParen => String::from_str("Right Paren (\")\")"),
        }
    }
}

/// A token is an operator exactly when it has a precedence rank, and the
/// ranks are 1 for `+ -`, 2 for `* /` and 3 for `^`.
pub proof fn lemma_ranks(t: Token)
    ensures
        t.is_op() <==> t.prec() is Some,
        t.is_op() ==> 1 <= t.prec()->0 <= 3,
        !(t.is_op() && t.is_num()),
{
}

} // verus!
