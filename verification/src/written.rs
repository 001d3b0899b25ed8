//! What lines that write a number, or two numbers and an operator, evaluate
//! to.

use vstd::prelude::*;
use crate::arith::{reduce, Value};
use crate::error::Error;
use crate::eval::{evaluation, outcome_of, value_of, Outcome};
use crate::scanner::{
    digit, lemma_decimal_numeral, lemma_run_end, lemma_run_end_unique, lemma_scan_numeral,
    lemma_spaces_skipped, numeral, numeral_token, pointed, scan, space, symbol, tokens,
};
use crate::text::{decimal_nat, number, spec_is_digit};
use crate::token::Token;
use crate::tree::{lemma_single_operator, lemma_tree_value, Expr};

verus! {

/// Scanning `line` from `pos` finds `t` and stops at `end`.
pub open spec fn finds(line: Seq<char>, pos: int, t: Option<Token>, end: int) -> bool {
    scan(line, pos).result == Ok::<Option<Token>, Error>(t) && scan(line, pos).end == end
}

/// The text of a number that is not negative evaluates to the number.
pub proof fn lemma_number_round_trip(n: nat)
    requires
        n <= i32::MAX,
    ensures
        scan(decimal_nat(n), 0).result == Ok::<Option<Token>, Error>(Some(Token::Int(n as i32))),
        tokens(decimal_nat(n), 0) == Ok::<Seq<Token>, Error>(seq![Token::Int(n as i32)]),
        evaluation(decimal_nat(n)) == Ok::<Outcome, Error>(Outcome::Value(Value::Int(n as i32))),
{
    let line = decimal_nat(n);
    let t = Token::Int(n as i32);
    let end = line.len() as int;
    lemma_decimal_numeral(n);
    assert(line.subrange(0, end) =~= line);
    lemma_scan_numeral(line, 0, line);
    assert(finds(line, end, None, end));
    assert(tokens(line, end) == Ok::<Seq<Token>, Error>(Seq::empty()));
    assert(seq![t] + Seq::<Token>::empty() =~= seq![t]);
    lemma_tree_value(line, Expr::Leaf(t));
}

/// A run of spaces.
pub open spec fn blank(s: Seq<char>) -> bool {
    forall|i: int| 0 <= i < s.len() ==> s[i] == ' '
}

/// Every character of `line` from `from` up to `to` is a space.
pub open spec fn blank_between(line: Seq<char>, from: int, to: int) -> bool {
    forall|i: int| from <= i < to ==> #[trigger] line[i] == ' '
}

/// The tokens of a line that holds, between runs of spaces, the numeral
/// `left` from `first`, the sign `c` at `sign` and the numeral `right` from
/// `second`.
proof fn lemma_three_tokens(
    line: Seq<char>,
    first: int,
    left: Seq<char>,
    sign: int,
    c: char,
    second: int,
    right: Seq<char>,
)
    requires
        0 <= first,
        first + left.len() <= sign < second,
        second + right.len() <= line.len(),
        blank_between(line, 0, first),
        blank_between(line, first + left.len(), sign),
        blank_between(line, sign + 1, second),
        blank_between(line, second + right.len(), line.len() as int),
        line.subrange(first, first + left.len()) == left,
        line.subrange(second, second + right.len()) == right,
        line[sign] == c,
        numeral(left) && numeral(right),
        !pointed(left) ==> number(left) <= i32::MAX,
        !pointed(right) ==> number(right) <= i32::MAX,
        symbol(c) matches Some(op) && op.is_op(),
    ensures
        tokens(line, 0) == Ok::<Seq<Token>, Error>(
            seq![numeral_token(left, first), symbol(c)->0, numeral_token(right, second)],
        ),
{
    let op = symbol(c)->0;
    let first_end = first + left.len();
    let after_sign = sign + 1;
    let second_end = second + right.len();
    let end = line.len() as int;
    let x = numeral_token(left, first);
    let y = numeral_token(right, second);
    let none = Seq::<Token>::empty();
    lemma_run_end(left, 0, digit());
    lemma_run_end(right, 0, digit());

    assert(finds(line, second_end, None, end)) by {
        lemma_run_end_unique(line, second_end, end, space());
    }
    assert(tokens(line, second_end) == Ok::<Seq<Token>, Error>(none));

    assert(finds(line, after_sign, Some(y), second_end)) by {
        assert(spec_is_digit(line[second])) by {
            assert(line[second] == line.subrange(second, second_end)[0]);
        }
        lemma_run_end_unique(line, after_sign, second, space());
        lemma_spaces_skipped(line, after_sign);
        lemma_scan_numeral(line, second, right);
    }
    assert(tokens(line, after_sign) == Ok::<Seq<Token>, Error>(seq![y])) by {
        assert(seq![y] + none =~= seq![y]);
    }

    assert(finds(line, first_end, Some(op), after_sign)) by {
        lemma_run_end_unique(line, first_end, sign, space());
    }
    assert(tokens(line, first_end) == Ok::<Seq<Token>, Error>(seq![op, y])) by {
        assert(seq![op] + seq![y] =~= seq![op, y]);
    }

    assert(finds(line, 0, Some(x), first_end)) by {
        assert(spec_is_digit(line[first])) by {
            assert(line[first] == line.subrange(first, first_end)[0]);
        }
        lemma_run_end_unique(line, 0, first, space());
        lemma_spaces_skipped(line, 0);
        lemma_scan_numeral(line, first, left);
    }
    assert(tokens(line, 0) == Ok::<Seq<Token>, Error>(seq![x, op, y])) by {
        assert(seq![x] + seq![op, y] =~= seq![x, op, y]);
    }
}

/// Two numerals with the sign of an operator between them evaluate to what
/// the operator makes of the two numbers, whatever spaces stand before,
/// between and after the three. A numeral without a point must fit an
/// `i32`.
pub proof fn lemma_written_operation(
    lead: Seq<char>,
    left: Seq<char>,
    before: Seq<char>,
    c: char,
    after: Seq<char>,
    right: Seq<char>,
    trail: Seq<char>,
)
    requires
        numeral(left) && numeral(right),
        !pointed(left) ==> number(left) <= i32::MAX,
        !pointed(right) ==> number(right) <= i32::MAX,
        blank(lead) && blank(before) && blank(after) && blank(trail),
        symbol(c) matches Some(op) && op.is_op(),
    ensures
        evaluation(lead + left + before + seq![c] + after + right + trail) == outcome_of(
            reduce(
                symbol(c)->0,
                value_of(numeral_token(left, lead.len() as int)),
                value_of(
                    numeral_token(
                        right,
                        (lead.len() + left.len() + before.len() + 1 + after.len()) as int,
                    ),
                ),
            ),
        ),
{
    let line = lead + left + before + seq![c] + after + right + trail;
    let first = lead.len() as int;
    let first_end = first + left.len();
    let sign = first_end + before.len();
    let after_sign = sign + 1;
    let second = after_sign + after.len();
    let second_end = second + right.len();
    let end = line.len() as int;
    assert(end == second_end + trail.len());
    assert(line.subrange(first, first_end) =~= left);
    assert(line.subrange(second, second_end) =~= right);
    assert(line[sign] == c);
    assert(blank_between(line, 0, first)) by {
        assert forall|i: int| 0 <= i < first implies #[trigger] line[i] == ' ' by {
            assert(line[i] == lead[i]);
        }
    }
    assert(blank_between(line, first_end, sign)) by {
        assert forall|i: int| first_end <= i < sign implies #[trigger] line[i] == ' ' by {
            assert(line[i] == before[i - first_end]);
        }
    }
    assert(blank_between(line, after_sign, second)) by {
        assert forall|i: int| after_sign <= i < second implies #[trigger] line[i] == ' ' by {
            assert(line[i] == after[i - after_sign]);
        }
    }
    assert(blank_between(line, second_end, end)) by {
        assert forall|i: int| second_end <= i < end implies #[trigger] line[i] == ' ' by {
            assert(line[i] == trail[i - second_end]);
        }
    }
    lemma_three_tokens(line, first, left, sign, c, second, right);
    lemma_single_operator(
        line,
        numeral_token(left, first),
        symbol(c)->0,
        numeral_token(right, second),
    );
}

} // verus!
