//! Expressions as trees, and the proof that a line which writes an
//! expression evaluates to the value of its tree.

use vstd::prelude::*;
use crate::arith::{reduce, Value};
use crate::error::Error;
use crate::eval::{evaluation, finish, lemma_evaluation_by_tokens, outcome_of, run, value_of};
use crate::scanner::tokens;
use crate::token::Token;
use crate::yard::{arrange, close, empty_yard, flush, place, postfix, settle, stacks, Yard};

verus! {

/// An arithmetic expression as a tree.
#[derive(Debug, PartialEq, Eq)]
pub enum Expr {
    /// A number.
    Leaf(Token),
    /// An expression in parentheses.
    Group(Box<Expr>),
    /// An operator between two expressions.
    Apply(Token, Box<Expr>, Box<Expr>),
}

/// How tightly the expression holds together: the rank of its operator, or
/// more than any rank for a number or a group.
pub open spec fn rank(e: Expr) -> int {
    match e {
        Expr::Apply(op, _, _) => op.prec()->0 as int,
        _ => 4,
    }
}

/// Whether the tree is the one that its own tokens, read from the left,
/// stand for: on the left of an operator stands nothing that holds together
/// less tightly than it, and on its right only what holds together more
/// tightly.
pub open spec fn shaped(e: Expr) -> bool
    decreases e,
{
    match e {
        Expr::Leaf(t) => t.is_num(),
        Expr::Group(inner) => shaped(*inner),
        Expr::Apply(op, l, r) => op.is_op() && shaped(*l) && shaped(*r) && rank(*l)
            >= op.prec()->0 && rank(*r) > op.prec()->0,
    }
}

/// The tokens of the expression as it is written.
pub open spec fn infix(e: Expr) -> Seq<Token>
    decreases e,
{
    match e {
        Expr::Leaf(t) => seq![t],
        Expr::Group(inner) => seq![Token::LeftParen] + infix(*inner) + seq![Token::RightParen],
        Expr::Apply(op, l, r) => infix(*l) + seq![op] + infix(*r),
    }
}

/// The tokens of the expression with each operator after its operands.
pub open spec fn post(e: Expr) -> Seq<Token>
    decreases e,
{
    match e {
        Expr::Leaf(t) => seq![t],
        Expr::Group(inner) => post(*inner),
        Expr::Apply(op, l, r) => post(*l) + post(*r) + seq![op],
    }
}

/// The value of the expression: that of a number is the number, that of a
/// group is the value of what it holds, and that of an operator is what it
/// makes of the values of its two sides, the left one worked out first.
pub open spec fn value(e: Expr) -> Result<Value, Error>
    decreases e,
{
    match e {
        Expr::Leaf(t) => Ok(value_of(t)),
        Expr::Group(inner) => value(*inner),
        Expr::Apply(op, l, r) => match value(*l) {
            Err(x) => Err(x),
            Ok(a) => match value(*r) {
                Err(x) => Err(x),
                Ok(b) => reduce(op, a, b),
            },
        },
    }
}

/// The operators of the expression that still wait on the stack when its
/// last token has been read: those down its right side.
pub open spec fn pending(e: Expr) -> Seq<Token>
    decreases e,
{
    match e {
        Expr::Apply(op, l, r) => seq![op] + pending(*r),
        _ => Seq::empty(),
    }
}

/// What the expression has put out when its last token has been read.
pub open spec fn emitted(e: Expr) -> Seq<Token>
    decreases e,
{
    match e {
        Expr::Leaf(t) => seq![t],
        Expr::Group(inner) => post(*inner),
        Expr::Apply(op, l, r) => post(*l) + emitted(*r),
    }
}

/// `out` after the tokens of `pend` were moved onto it, the last one first.
pub open spec fn pour(pend: Seq<Token>, out: Seq<Token>) -> Seq<Token>
    decreases pend.len(),
{
    if pend.len() == 0 {
        out
    } else {
        pour(pend.drop_last(), out.push(pend.last()))
    }
}

/// Whether every token of `pend` is an operator of rank `k` or more.
pub open spec fn ranked(pend: Seq<Token>, k: int) -> bool {
    forall|i: int| 0 <= i < pend.len() ==> (#[trigger] pend[i]).is_op() && pend[i].prec()->0 >= k
}

/// Whether an operator of rank `k` would leave the stack as it is: the
/// stack is empty, or its top is a parenthesis or an operator of lower rank.
pub open spec fn barrier(ops: Seq<Token>, k: int) -> bool {
    ops.len() == 0 || !ops.last().is_op() || ops.last().prec()->0 < k
}

proof fn lemma_pour_joined(a: Seq<Token>, b: Seq<Token>, out: Seq<Token>)
    ensures
        pour(a + b, out) == pour(a, pour(b, out)),
    decreases b.len(),
{
    if b.len() == 0 {
        assert(a + b =~= a);
    } else {
        assert((a + b).drop_last() =~= a + b.drop_last());
        lemma_pour_joined(a, b.drop_last(), out.push(b.last()));
    }
}

/// The operators that wait are of the rank of the expression or more, and
/// once they are poured the expression is out in postfix.
proof fn lemma_pending(e: Expr, out: Seq<Token>)
    requires
        shaped(e),
    ensures
        ranked(pending(e), rank(e)),
        pour(pending(e), out + emitted(e)) == out + post(e),
    decreases e,
{
    match e {
        Expr::Apply(op, l, r) => {
            let base = out + post(*l);
            lemma_pending(*r, base);
            assert(out + emitted(e) =~= base + emitted(*r));
            lemma_pour_joined(seq![op], pending(*r), base + emitted(*r));
            let full = base + post(*r);
            assert(seq![op].drop_last() =~= Seq::<Token>::empty());
            assert(pour(seq![op], full) == pour(Seq::<Token>::empty(), full.push(op)));
            assert(full.push(op) =~= out + post(e));
        },
        _ => {},
    }
}

proof fn lemma_settle_pours(ops: Seq<Token>, pend: Seq<Token>, out: Seq<Token>, t: Token)
    requires
        t.is_op(),
        ranked(pend, t.prec()->0 as int),
        barrier(ops, t.prec()->0 as int),
    ensures
        settle(stacks(ops + pend, out), t) == stacks(ops, pour(pend, out)),
    decreases pend.len(),
{
    if pend.len() == 0 {
        assert(ops + pend =~= ops);
    } else {
        assert((ops + pend).drop_last() =~= ops + pend.drop_last());
        assert((ops + pend).last() == pend.last());
        lemma_settle_pours(ops, pend.drop_last(), out.push(pend.last()), t);
    }
}

proof fn lemma_close_pours(ops: Seq<Token>, pend: Seq<Token>, out: Seq<Token>)
    requires
        ranked(pend, 0),
    ensures
        close(stacks(ops.push(Token::LeftParen) + pend, out)) == Some(
            stacks(ops, pour(pend, out)),
        ),
    decreases pend.len(),
{
    let under = ops.push(Token::LeftParen);
    if pend.len() == 0 {
        assert(under + pend =~= under);
        assert(under.drop_last() =~= ops);
    } else {
        assert((under + pend).drop_last() =~= under + pend.drop_last());
        assert((under + pend).last() == pend.last());
        lemma_close_pours(ops, pend.drop_last(), out.push(pend.last()));
    }
}

proof fn lemma_flush_pours(pend: Seq<Token>, out: Seq<Token>)
    requires
        ranked(pend, 0),
    ensures
        flush(stacks(pend, out)) == Ok::<Seq<Token>, Error>(pour(pend, out)),
    decreases pend.len(),
{
    if pend.len() > 0 {
        lemma_flush_pours(pend.drop_last(), out.push(pend.last()));
    }
}

proof fn lemma_arrange_first(t: Token, rest: Seq<Token>, y: Yard)
    ensures
        arrange(seq![t] + rest, y) == match place(y, t) {
            Err(e) => Err(e),
            Ok(next) => arrange(rest, next),
        },
{
    assert((seq![t] + rest).drop_first() =~= rest);
}

/// Reading the tokens of an expression leaves on the stack, above what was
/// there, the operators that wait, and adds to the output what the
/// expression has put out, provided that the stack does not give way to the
/// operators of the expression.
proof fn lemma_feed(e: Expr, y: Yard, rest: Seq<Token>)
    requires
        shaped(e),
        barrier(y.ops, rank(e)),
    ensures
        arrange(infix(e) + rest, y) == arrange(
            rest,
            stacks(y.ops + pending(e), y.out + emitted(e)),
        ),
    decreases e,
{
    match e {
        Expr::Leaf(t) => {
            lemma_arrange_first(t, rest, y);
            assert(y.ops + pending(e) =~= y.ops);
            assert(y.out.push(t) =~= y.out + emitted(e));
        },
        Expr::Group(inner) => {
            let inside = stacks(y.ops.push(Token::LeftParen), y.out);
            let tail = seq![Token::RightParen] + rest;
            assert(infix(e) + rest =~= seq![Token::LeftParen] + (infix(*inner) + tail));
            lemma_arrange_first(Token::LeftParen, infix(*inner) + tail, y);
            lemma_feed(*inner, inside, tail);
            let full = stacks(inside.ops + pending(*inner), inside.out + emitted(*inner));
            lemma_arrange_first(Token::RightParen, rest, full);
            lemma_pending(*inner, y.out);
            assert(ranked(pending(*inner), 0));
            lemma_close_pours(y.ops, pending(*inner), y.out + emitted(*inner));
            assert(y.ops + pending(e) =~= y.ops);
        },
        Expr::Apply(op, l, r) => {
            let k = op.prec()->0 as int;
            let tail = seq![op] + (infix(*r) + rest);
            assert(infix(e) + rest =~= infix(*l) + tail);
            lemma_feed(*l, y, tail);
            let left = stacks(y.ops + pending(*l), y.out + emitted(*l));
            lemma_arrange_first(op, infix(*r) + rest, left);
            lemma_pending(*l, y.out);
            assert(ranked(pending(*l), k));
            lemma_settle_pours(y.ops, pending(*l), y.out + emitted(*l), op);
            let middle = stacks(y.ops.push(op), y.out + post(*l));
            assert(place(left, op) == Ok::<Yard, Error>(middle));
            lemma_feed(*r, middle, rest);
            assert(middle.ops + pending(*r) =~= y.ops + pending(e));
            assert(middle.out + emitted(*r) =~= y.out + emitted(e));
        },
    }
}

/// The tokens of a shaped expression are arranged into its postfix order.
pub proof fn lemma_postfix_of_tree(e: Expr)
    requires
        shaped(e),
    ensures
        postfix(infix(e)) == Ok::<Seq<Token>, Error>(post(e)),
{
    let none = Seq::<Token>::empty();
    lemma_feed(e, empty_yard(), none);
    assert(infix(e) + none =~= infix(e));
    lemma_pending(e, none);
    assert(ranked(pending(e), 0));
    assert(none + pending(e) =~= pending(e));
    lemma_flush_pours(pending(e), none + emitted(e));
    assert(none + post(e) =~= post(e));
}

/// Reducing the postfix order of a shaped expression, wherever it stands in
/// a sequence, pushes the value of the expression, or fails as the
/// expression does.
pub proof fn lemma_run_tree(e: Expr, code: Seq<Token>, at: int, mem: Seq<Value>)
    requires
        shaped(e),
        0 <= at,
        at + post(e).len() <= code.len(),
        code.subrange(at, at + post(e).len()) == post(e),
    ensures
        run(code, at, mem) == match value(e) {
            Err(x) => Err(x),
            Ok(v) => run(code, at + post(e).len(), mem.push(v)),
        },
    decreases e,
{
    let part = code.subrange(at, at + post(e).len());
    match e {
        Expr::Leaf(t) => {
            assert(code[at] == part[0]);
        },
        Expr::Group(inner) => {
            lemma_run_tree(*inner, code, at, mem);
        },
        Expr::Apply(op, l, r) => {
            let n = post(*l).len() as int;
            let m = post(*r).len() as int;
            assert(code.subrange(at, at + n) =~= post(*l)) by {
                assert forall|i: int| 0 <= i < n implies code[at + i] == post(*l)[i] by {
                    assert(code[at + i] == part[i]);
                }
            }
            assert(code.subrange(at + n, at + n + m) =~= post(*r)) by {
                assert forall|i: int| 0 <= i < m implies code[at + n + i] == post(*r)[i] by {
                    assert(code[at + n + i] == part[n + i]);
                }
            }
            assert(code[at + n + m] == op) by {
                assert(code[at + n + m] == part[n + m]);
            }
            lemma_run_tree(*l, code, at, mem);
            match value(*l) {
                Err(x) => {},
                Ok(a) => {
                    lemma_run_tree(*r, code, at + n, mem.push(a));
                    match value(*r) {
                        Err(x) => {},
                        Ok(b) => {
                            let both = mem.push(a).push(b);
                            match reduce(op, a, b) {
                                Err(x) => {},
                                Ok(v) => {
                                    assert(both.take(both.len() - 2).push(v) =~= mem.push(v));
                                },
                            }
                        },
                    }
                },
            }
        },
    }
}

/// A line whose tokens are those of a shaped expression evaluates to the
/// value of the expression.
pub proof fn lemma_tree_value(line: Seq<char>, e: Expr)
    requires
        shaped(e),
        tokens(line, 0) == Ok::<Seq<Token>, Error>(infix(e)),
    ensures
        evaluation(line) == outcome_of(value(e)),
{
    lemma_evaluation_by_tokens(line, infix(e));
    lemma_postfix_of_tree(e);
    let code = post(e);
    assert(code.subrange(0, code.len() as int) =~= code);
    lemma_run_tree(e, code, 0, Seq::empty());
    match value(e) {
        Err(x) => {},
        Ok(v) => {
            let m = Seq::<Value>::empty().push(v);
            assert(run(code, code.len() as int, m) == finish(m));
        },
    }
}

/// A line made of a number, an operator and a number evaluates to what the
/// operator makes of the two numbers.
pub proof fn lemma_single_operator(line: Seq<char>, x: Token, op: Token, y: Token)
    requires
        x.is_num(),
        op.is_op(),
        y.is_num(),
        tokens(line, 0) == Ok::<Seq<Token>, Error>(seq![x, op, y]),
    ensures
        evaluation(line) == outcome_of(reduce(op, value_of(x), value_of(y))),
{
    let e = Expr::Apply(op, Box::new(Expr::Leaf(x)), Box::new(Expr::Leaf(y)));
    reveal_with_fuel(shaped, 2);
    reveal_with_fuel(infix, 2);
    reveal_with_fuel(value, 2);
    assert(infix(e) =~= seq![x, op, y]);
    lemma_tree_value(line, e);
}

/// Of two operators between three numbers, the first is applied first when
/// its rank is at least that of the second; otherwise the second is.
pub proof fn lemma_two_operators(x: Token, p: Token, y: Token, q: Token, z: Token)
    requires
        x.is_num() && y.is_num() && z.is_num(),
        p.is_op() && q.is_op(),
    ensures
        postfix(seq![x, p, y, q, z]) == Ok::<Seq<Token>, Error>(
            if p.prec()->0 >= q.prec()->0 {
                seq![x, y, p, z, q]
            } else {
                seq![x, y, z, q, p]
            },
        ),
{
    reveal_with_fuel(shaped, 3);
    reveal_with_fuel(infix, 3);
    reveal_with_fuel(post, 3);
    if p.prec()->0 >= q.prec()->0 {
        let first = Expr::Apply(p, Box::new(Expr::Leaf(x)), Box::new(Expr::Leaf(y)));
        let e = Expr::Apply(q, Box::new(first), Box::new(Expr::Leaf(z)));
        assert(shaped(first));
        assert(infix(first) =~= seq![x, p, y]);
        assert(post(first) =~= seq![x, y, p]);
        assert(infix(e) =~= seq![x, p, y, q, z]);
        assert(post(e) =~= seq![x, y, p, z, q]);
        lemma_postfix_of_tree(e);
    } else {
        let second = Expr::Apply(q, Box::new(Expr::Leaf(y)), Box::new(Expr::Leaf(z)));
        let e = Expr::Apply(p, Box::new(Expr::Leaf(x)), Box::new(second));
        assert(shaped(second));
        assert(infix(second) =~= seq![y, q, z]);
        assert(post(second) =~= seq![y, z, q]);
        assert(infix(e) =~= seq![x, p, y, q, z]);
        assert(post(e) =~= seq![x, y, z, q, p]);
        lemma_postfix_of_tree(e);
    }
}

} // verus!
