//! The shunting yard: from tokens in the order they are written to postfix
//! order.

use vstd::prelude::*;
use crate::error::Error;
use crate::scanner::{lemma_scan_bounds, scan, tokens, TokenStream};
use crate::token::Token;

verus! {

/// The two stacks of the conversion: the operators and parentheses that
/// wait, last one on top, and the output built so far.
pub struct Yard {
    pub ops: Seq<Token>,
    pub out: Seq<Token>,
}

/// The stacks with these contents.
pub open spec fn stacks(ops: Seq<Token>, out: Seq<Token>) -> Yard {
    Yard { ops, out }
}

/// The empty stacks that a conversion starts from.
pub open spec fn empty_yard() -> Yard {
    stacks(Seq::empty(), Seq::empty())
}

/// Before the operator `t` is pushed: moves operators from the top of the
/// stack to the output for as long as the top is an operator whose rank is
/// greater than or equal to that of `t`.
pub open spec fn settle(y: Yard, t: Token) -> Yard
    decreases y.ops.len(),
{
    if y.ops.len() > 0 && y.ops.last().is_op() && t.is_op() && y.ops.last().prec()->0
        >= t.prec()->0 {
        settle(Yard { ops: y.ops.drop_last(), out: y.out.push(y.ops.last()) }, t)
    } else {
        y
    }
}

/// At a `)`: moves the stack's entries to the output down to the nearest
/// `(`, which is dropped. `None` if the stack holds no `(`.
pub open spec fn close(y: Yard) -> Option<Yard>
    decreases y.ops.len(),
{
    if y.ops.len() == 0 {
        None
    } else if y.ops.last() is LeftParen {
        Some(Yard { ops: y.ops.drop_last(), out: y.out })
    } else {
        close(Yard { ops: y.ops.drop_last(), out: y.out.push(y.ops.last()) })
    }
}

/// At the end of the line: moves what is left on the stack to the output,
/// top first. A `(` among it was never closed.
pub open spec fn flush(y: Yard) -> Result<Seq<Token>, Error>
    decreases y.ops.len(),
{
    if y.ops.len() == 0 {
        Ok(y.out)
    } else if y.ops.last() is LeftParen {
        Err(Error::UnmatchedLeftParen)
    } else {
        flush(Yard { ops: y.ops.drop_last(), out: y.out.push(y.ops.last()) })
    }
}

/// Takes one token in: a number goes to the output; an operator settles the
/// stack and is pushed; a `(` is pushed; a `)` closes.
pub open spec fn place(y: Yard, t: Token) -> Result<Yard, Error> {
    if t.is_num() {
        Ok(Yard { ops: y.ops, out: y.out.push(t) })
    } else if t.is_op() {
        let s = settle(y, t);
        Ok(Yard { ops: s.ops.push(t), out: s.out })
    } else if t is LeftParen {
        Ok(Yard { ops: y.ops.push(t), out: y.out })
    } else {
        match close(y) {
            Some(s) => Ok(s),
            None => Err(Error::UnmatchedRightParen),
        }
    }
}

/// How a conversion ends: the postfix sequence or the first failure, and how
/// far the line was read.
pub struct Conversion {
    pub result: Result<Seq<Token>, Error>,
    pub end: int,
}

/// Converts the line from `pos` on, starting from the stacks `y`: tokens are
/// scanned one at a time and placed at once, so that of a scanning failure
/// and a misplaced parenthesis the one that comes first in the line is
/// reported.
pub open spec fn convert(chars: Seq<char>, pos: int, y: Yard) -> Conversion
    decreases chars.len() - pos,
    when 0 <= pos <= chars.len()
    via convert_decreases
{
    let s = scan(chars, pos);
    match s.result {
        Err(e) => Conversion { result: Err(e), end: s.end },
        Ok(None) => Conversion { result: flush(y), end: s.end },
        Ok(Some(t)) => match place(y, t) {
            Err(e) => Conversion { result: Err(e), end: s.end },
            Ok(next) => convert(chars, s.end, next),
        },
    }
}

#[via_fn]
proof fn convert_decreases(chars: Seq<char>, pos: int, y: Yard) {
    lemma_scan_bounds(chars, pos);
}

/// Takes the tokens `ts` in, one after the other, starting from the stacks
/// `y`, and flushes the stack at the end.
pub open spec fn arrange(ts: Seq<Token>, y: Yard) -> Result<Seq<Token>, Error>
    decreases ts.len(),
{
    if ts.len() == 0 {
        flush(y)
    } else {
        match place(y, ts[0]) {
            Err(e) => Err(e),
            Ok(next) => arrange(ts.drop_first(), next),
        }
    }
}

/// The postfix order of an infix token sequence.
pub open spec fn postfix(ts: Seq<Token>) -> Result<Seq<Token>, Error> {
    arrange(ts, empty_yard())
}

/// On a line that scans without failure, the conversion depends on the
/// tokens alone: it is their arrangement.
pub proof fn lemma_convert_tokens(chars: Seq<char>, pos: int, y: Yard, ts: Seq<Token>)
    requires
        0 <= pos <= chars.len(),
        tokens(chars, pos) == Ok::<Seq<Token>, Error>(ts),
    ensures
        convert(chars, pos, y).result == arrange(ts, y),
    decreases chars.len() - pos,
{
    lemma_scan_bounds(chars, pos);
    let s = scan(chars, pos);
    match s.result {
        Err(e) => {},
        Ok(None) => {},
        Ok(Some(t)) => {
            let rest = tokens(chars, s.end)->Ok_0;
            assert(ts == seq![t] + rest);
            assert(ts[0] == t);
            assert(ts.drop_first() =~= rest);
            match place(y, t) {
                Err(e) => {},
                Ok(next) => {
                    lemma_convert_tokens(chars, s.end, next, rest);
                },
            }
        },
    }
}

/// How many `(` the stack holds.
pub open spec fn open_count(ops: Seq<Token>) -> nat
    decreases ops.len(),
{
    if ops.len() == 0 {
        0
    } else {
        open_count(ops.drop_last()) + if ops.last() is LeftParen { 1nat } else { 0nat }
    }
}

/// What is wrong with the parentheses of `ts`, read from the left with
/// `depth` of them open already: a `)` that meets none open, else a `(`
/// still open at the end, else nothing.
pub open spec fn mismatch(ts: Seq<Token>, depth: nat) -> Option<Error>
    decreases ts.len(),
{
    if ts.len() == 0 {
        if depth == 0 {
            None
        } else {
            Some(Error::UnmatchedLeftParen)
        }
    } else if ts[0] is LeftParen {
        mismatch(ts.drop_first(), depth + 1)
    } else if ts[0] is RightParen {
        if depth == 0 {
            Some(Error::UnmatchedRightParen)
        } else {
            mismatch(ts.drop_first(), (depth - 1) as nat)
        }
    } else {
        mismatch(ts.drop_first(), depth)
    }
}

/// Pushing a token opens one parenthesis more if the token is a `(`.
proof fn lemma_count_push(ops: Seq<Token>, t: Token)
    ensures
        open_count(ops.push(t)) == open_count(ops) + if t is LeftParen { 1nat } else { 0nat },
{
    assert(ops.push(t).drop_last() =~= ops);
}

/// Settling the stack moves operators only.
proof fn lemma_settle_count(y: Yard, t: Token)
    ensures
        open_count(settle(y, t).ops) == open_count(y.ops),
    decreases y.ops.len(),
{
    if y.ops.len() > 0 && y.ops.last().is_op() && t.is_op() && y.ops.last().prec()->0
        >= t.prec()->0 {
        lemma_settle_count(stacks(y.ops.drop_last(), y.out.push(y.ops.last())), t);
    }
}

/// Closing takes one `(` off the stack, and fails exactly when it holds
/// none.
proof fn lemma_close_count(y: Yard)
    ensures
        match close(y) {
            Some(s) => open_count(y.ops) == open_count(s.ops) + 1,
            None => open_count(y.ops) == 0,
        },
    decreases y.ops.len(),
{
    if y.ops.len() > 0 && !(y.ops.last() is LeftParen) {
        lemma_close_count(stacks(y.ops.drop_last(), y.out.push(y.ops.last())));
    }
}

/// Flushing succeeds exactly when the stack holds no `(`.
proof fn lemma_flush_count(y: Yard)
    ensures
        match flush(y) {
            Ok(_) => open_count(y.ops) == 0,
            Err(e) => open_count(y.ops) > 0 && e == Error::UnmatchedLeftParen,
        },
    decreases y.ops.len(),
{
    if y.ops.len() > 0 && !(y.ops.last() is LeftParen) {
        lemma_flush_count(stacks(y.ops.drop_last(), y.out.push(y.ops.last())));
    }
}

/// Arranging a token sequence fails exactly when its parentheses do not
/// nest, and with the error that says how: numbers and operators never make
/// it fail.
pub proof fn lemma_arrange_nesting(ts: Seq<Token>, y: Yard)
    ensures
        match arrange(ts, y) {
            Ok(_) => mismatch(ts, open_count(y.ops)) is None,
            Err(e) => mismatch(ts, open_count(y.ops)) == Some(e),
        },
    decreases ts.len(),
{
    if ts.len() == 0 {
        lemma_flush_count(y);
    } else {
        let t = ts[0];
        if t.is_num() {
        } else if t.is_op() {
            lemma_settle_count(y, t);
            lemma_count_push(settle(y, t).ops, t);
        } else if t is LeftParen {
            lemma_count_push(y.ops, t);
        } else {
            lemma_close_count(y);
        }
        match place(y, t) {
            Err(e) => {},
            Ok(next) => {
                lemma_arrange_nesting(ts.drop_first(), next);
            },
        }
    }
}

/// A token sequence has a postfix order exactly when its parentheses nest.
pub proof fn lemma_postfix_nesting(ts: Seq<Token>)
    ensures
        postfix(ts) is Ok <==> mismatch(ts, 0) is None,
        postfix(ts) matches Err(e) ==> mismatch(ts, 0) == Some(e),
{
    lemma_arrange_nesting(ts, empty_yard());
}

/// Every token is a number or an operator.
pub open spec fn no_parens(s: Seq<Token>) -> bool {
    forall|i: int| 0 <= i < s.len() ==> (#[trigger] s[i]).is_num() || s[i].is_op()
}

/// No token is a number or a `)`.
pub open spec fn stackable(s: Seq<Token>) -> bool {
    forall|i: int| 0 <= i < s.len() ==> (#[trigger] s[i]).is_op() || s[i] is LeftParen
}

/// Converts the tokens of a stream from infix to postfix order.
pub struct ShuntingYard {
    stream: TokenStream,
}

impl ShuntingYard {
    /// The characters of the line that is converted.
    pub closed spec fn source(&self) -> Seq<char> {
        self.stream.source()
    }

    /// How many of them the stream has consumed.
    pub closed spec fn offset(&self) -> int {
        self.stream.offset()
    }

    pub fn new(stream: TokenStream) -> (yard: ShuntingYard)
        ensures
            yard.source() == stream.source(),
            yard.offset() == stream.offset(),
    {
        ShuntingYard { stream }
    }

    /// Reads the stream to its end and returns its tokens in postfix order,
    /// or the first failure of scanning or of parenthesis matching.
    pub fn get_stack(&mut self) -> (r: Result<Vec<Token>, Error>)
        ensures
            final(self).source() == old(self).source(),
            0 <= old(self).offset() <= old(self).source().len(),
            final(self).offset() == convert(
                old(self).source(),
                old(self).offset(),
                empty_yard(),
            ).end,
            match r {
                Ok(tokens) => convert(old(self).source(), old(self).offset(), empty_yard()).result
                    == Ok::<Seq<Token>, Error>(tokens@),
                Err(e) => convert(old(self).source(), old(self).offset(), empty_yard()).result
                    == Err::<Seq<Token>, Error>(e),
            },
            r matches Ok(tokens) ==> no_parens(tokens@),
    {
        let mut tokens: Vec<Token> = Vec::new();
        let mut op_stack: Vec<Token> = Vec::new();
        let ghost src = self.stream.source();
        let ghost goal = convert(src, self.stream.offset(), empty_yard());
        let _start = self.stream.position();
        assert(stacks(op_stack@, tokens@) == empty_yard());

        loop
            invariant_except_break
                0 <= self.stream.offset() <= src.len(),
                convert(src, self.stream.offset(), stacks(op_stack@, tokens@)) == goal,
            invariant
                self.stream.source() == src,
                src == old(self).stream.source(),
                0 <= old(self).stream.offset() <= src.len(),
                goal == convert(src, old(self).stream.offset(), empty_yard()),
                no_parens(tokens@),
                stackable(op_stack@),
            ensures
                self.stream.offset() == goal.end,
                goal.result == flush(stacks(op_stack@, tokens@)),
                no_parens(tokens@),
                stackable(op_stack@),
            decreases src.len() - self.stream.offset(),
        {
            let ghost before = self.stream.offset();
            let ghost y = stacks(op_stack@, tokens@);
            proof {
                lemma_scan_bounds(src, before);
            }
            match self.stream.read() {
                Err(e) => {
                    return Err(e);
                },
                Ok(None) => {
                    break;
                },
                Ok(Some(token)) => {
                    if token.is_num() {
                        tokens.push(token);
                    } else if token.is_op() {
                        loop
                            invariant
                                settle(stacks(op_stack@, tokens@), token) == settle(
                                    y,
                                    token,
                                ),
                                no_parens(tokens@),
                                stackable(op_stack@),
                            ensures
                                stacks(op_stack@, tokens@) == settle(y, token),
                                no_parens(tokens@),
                                stackable(op_stack@),
                            decreases op_stack.len(),
                        {
                            if op_stack.len() == 0 {
                                break;
                            }
                            let operator = op_stack[op_stack.len() - 1];
                            let above = match (operator.prec(), token.prec()) {
                                (Some(have), Some(want)) => have >= want,
                                _ => false,
                            };
                            if operator.is_op() && above {
                                op_stack.pop();
                                tokens.push(operator);
                            } else {
                                break;
                            }
                        }
                        op_stack.push(token);
                    } else if let Token::LeftParen = token {
                        op_stack.push(token);
                    } else {
                        let mut escaped = false;
                        loop
                            invariant_except_break
                                !escaped,
                                close(stacks(op_stack@, tokens@)) == close(y),
                                no_parens(tokens@),
                                stackable(op_stack@),
                            ensures
                                escaped ==> close(y) == Some(stacks(op_stack@, tokens@)),
                                !escaped ==> close(y) is None,
                                no_parens(tokens@),
                                stackable(op_stack@),
                            decreases op_stack.len(),
                        {
                            match op_stack.pop() {
                                None => {
                                    break;
                                },
                                Some(operator) => {
                                    if let Token::LeftParen = operator {
                                        escaped = true;
                                        break;
                                    } else {
                                        tokens.push(operator);
                                    }
                                },
                            }
                        }
                        if !escaped {
                            return Err(Error::UnmatchedRightParen);
                        }
                    }
                },
            }
        }

        let ghost rest = stacks(op_stack@, tokens@);
        let mut open = false;
        loop
            invariant_except_break
                !open,
                flush(stacks(op_stack@, tokens@)) == flush(rest),
                no_parens(tokens@),
                stackable(op_stack@),
            ensures
                open ==> flush(rest) == Err::<Seq<Token>, Error>(Error::UnmatchedLeftParen),
                !open ==> flush(rest) == Ok::<Seq<Token>, Error>(tokens@),
                no_parens(tokens@),
            decreases op_stack.len(),
        {
            match op_stack.pop() {
                None => {
                    break;
                },
                Some(operator) => {
                    if let Token::LeftParen = operator {
                        open = true;
                        break;
                    }
                    tokens.push(operator);
                },
            }
        }
        if open {
            Err(Error::UnmatchedLeftParen)
        } else {
            Ok(tokens)
        }
    }
}

} // verus!
