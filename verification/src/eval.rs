//! The reduction of a postfix sequence to one value, and the evaluation of a
//! whole line.

use vstd::prelude::*;
use vstd::string::StringExecFns;
use crate::arith::{operation_result, reduce, Value};
use crate::error::Error;
use crate::scanner::{lemma_run_end_unique, space, tokens, TokenStream};
use crate::text::{decimal, decimal_of};
use crate::token::Token;
use crate::yard::{convert, empty_yard, flush, lemma_convert_tokens, postfix, ShuntingYard};

verus! {

/// What a line evaluates to.
#[derive(Debug, PartialEq, Eq)]
pub enum Outcome {
    /// The line held no number and no operator.
    Empty,
    /// The value of the expression.
    Value(Value),
}

impl Clone for Outcome {
    fn clone(&self) -> (copy: Self)
        ensures
            copy == *self,
    {
        match self {
            Outcome::Empty => Outcome::Empty,
            Outcome::Value(v) => Outcome::Value(v.clone()),
        }
    }
}

impl Outcome {
    /// The text that shows the outcome, where it can be written without
    /// floating-point arithmetic: the integer in base ten, or a fixed text
    /// for the empty expression.
    pub open spec fn rendering(&self) -> Option<Seq<char>> {
        match *self {
            Outcome::Empty => Some("0 (empty)"@),
            Outcome::Value(Value::Int(x)) => Some(decimal_of(x as int)),
            _ => None,
        }
    }

    /// The rendering as a `String`; `None` for a double-precision value,
    /// which the caller has to work out.
    pub fn text(&self) -> (shown: Option<String>)
        ensures
            match shown {
                Some(s) => self.rendering() == Some(s@),
                None => self.rendering() is None,
            },
    {
        match self {
            Outcome::Empty => Some(String::from_str("0 (empty)")),
            Outcome::Value(Value::Int(x)) => Some(decimal(*x)),
            _ => None,
        }
    }
}

/// The value that a numeric token stands for.
pub open spec fn value_of(t: Token) -> Value {
    match t {
        Token::Float(place) => Value::Literal(place),
        Token::Int(x) => Value::Int(x),
        _ => Value::Int(0),
    }
}

/// What the values left at the end amount to: none is an empty expression,
/// one is the result, more are an error.
pub open spec fn finish(mem: Seq<Value>) -> Result<Outcome, Error> {
    if mem.len() == 0 {
        Ok(Outcome::Empty)
    } else if mem.len() == 1 {
        Ok(Outcome::Value(mem[0]))
    } else {
        Err(Error::InvalidExpression)
    }
}

/// Reduces the postfix sequence `code` from position `at` on, with `mem` as
/// the stack of values, last one on top: a number is pushed; an operator
/// replaces the two values on top, the upper one being its right operand,
/// by its result; a parenthesis is passed over.
pub open spec fn run(code: Seq<Token>, at: int, mem: Seq<Value>) -> Result<Outcome, Error>
    decreases code.len() - at,
{
    if at < 0 || at >= code.len() {
        finish(mem)
    } else if code[at].is_num() {
        run(code, at + 1, mem.push(value_of(code[at])))
    } else if code[at].is_op() {
        if mem.len() < 2 {
            Err(Error::InsufficientOperands)
        } else {
            match reduce(code[at], mem[mem.len() - 2], mem[mem.len() - 1]) {
                Err(e) => Err(e),
                Ok(v) => run(code, at + 1, mem.take(mem.len() - 2).push(v)),
            }
        }
    } else {
        run(code, at + 1, mem)
    }
}

/// What a line evaluates to: its tokens are brought into postfix order, and
/// the postfix sequence is reduced.
pub open spec fn evaluation(line: Seq<char>) -> Result<Outcome, Error> {
    match convert(line, 0, empty_yard()).result {
        Err(e) => Err(e),
        Ok(code) => run(code, 0, Seq::empty()),
    }
}

/// The outcome that the result of an operation amounts to.
pub open spec fn outcome_of(r: Result<Value, Error>) -> Result<Outcome, Error> {
    match r {
        Ok(v) => Ok(Outcome::Value(v)),
        Err(e) => Err(e),
    }
}

/// A line that scans without failure evaluates to what its tokens give:
/// two lines with the same tokens, however they are spaced, evaluate alike.
pub proof fn lemma_evaluation_by_tokens(line: Seq<char>, ts: Seq<Token>)
    requires
        tokens(line, 0) == Ok::<Seq<Token>, Error>(ts),
    ensures
        evaluation(line) == match postfix(ts) {
            Err(e) => Err(e),
            Ok(code) => run(code, 0, Seq::empty()),
        },
{
    lemma_convert_tokens(line, 0, empty_yard(), ts);
}

/// A line that holds nothing but spaces is an empty expression.
pub proof fn lemma_blank_line(line: Seq<char>)
    requires
        forall|i: int| 0 <= i < line.len() ==> line[i] == ' ',
    ensures
        evaluation(line) == Ok::<Outcome, Error>(Outcome::Empty),
{
    lemma_run_end_unique(line, 0, line.len() as int, space());
    assert(flush(empty_yard()) == Ok::<Seq<Token>, Error>(Seq::empty()));
    assert(run(Seq::<Token>::empty(), 0, Seq::empty()) == finish(Seq::<Value>::empty()));
}

/// Reduces a postfix sequence to its value.
pub fn run_stack(stack: Vec<Token>) -> (r: Result<Outcome, Error>)
    ensures
        r == run(stack@, 0, Seq::empty()),
{
    let mut mem: Vec<Value> = Vec::new();
    let mut at: usize = 0;
    while at < stack.len()
        invariant
            0 <= at <= stack.len(),
            run(stack@, at as int, mem@) == run(stack@, 0, Seq::empty()),
        decreases stack.len() - at,
    {
        let token = stack[at];
        let ghost before = mem@;
        if token.is_num() {
            let value = match token {
                Token::Float(place) => Value::Literal(place),
                Token::Int(x) => Value::Int(x),
                _ => Value::Int(0),
            };
            mem.push(value);
        } else if token.is_op() {
            if mem.len() < 2 {
                return Err(Error::InsufficientOperands);
            }
            let b = mem.pop().unwrap();
            let a = mem.pop().unwrap();
            assert(mem@ =~= before.take(before.len() - 2));
            match operation_result(token, a, b) {
                Err(e) => {
                    return Err(e);
                },
                Ok(v) => {
                    mem.push(v);
                },
            }
        }
        at = at + 1;
    }
    if mem.len() == 0 {
        Ok(Outcome::Empty)
    } else if mem.len() == 1 {
        Ok(Outcome::Value(mem.pop().unwrap()))
    } else {
        Err(Error::InvalidExpression)
    }
}

/// Evaluates one line.
pub fn evaluate(line: &String) -> (r: Result<Outcome, Error>)
    ensures
        r == evaluation(line@),
{
    let stream = TokenStream::new(line);
    let mut yard = ShuntingYard::new(stream);
    match yard.get_stack() {
        Err(e) => Err(e),
        Ok(stack) => run_stack(stack),
    }
}

} // verus!
