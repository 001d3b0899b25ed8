//! Spaces between tokens do not matter: a line with one space more
//! evaluates to the same, up to the places of its literals.

use vstd::prelude::*;
use crate::arith::{reduce, Value};
use crate::error::Error;
use crate::eval::{evaluation, run, value_of, Outcome};
use crate::scanner::{
    digit, lemma_run_end, lemma_run_end_unique, lemma_scan_bounds, lemma_spaces_skipped,
    run_end, scan, space, symbol,
};
use crate::text::spec_is_digit;
use crate::token::{Span, Token};
use crate::yard::{close, convert, empty_yard, flush, place, settle, stacks, Yard};

verus! {

/// `line` with one more space, put in before position `p`.
pub open spec fn spaced(line: Seq<char>, p: int) -> Seq<char> {
    line.subrange(0, p) + seq![' '] + line.subrange(p, line.len() as int)
}

/// Whether a numeral can hold the character.
pub open spec fn joins(c: char) -> bool {
    spec_is_digit(c) || c == '.'
}

/// Whether position `p` of `line` lies between tokens: at either end of the
/// line, or anywhere but between two characters that a numeral can hold.
pub open spec fn between_tokens(line: Seq<char>, p: int) -> bool {
    0 <= p <= line.len() && !(0 < p < line.len() && joins(line[p - 1]) && joins(line[p]))
}

/// The place of a literal after a space was put in before position `p`: one
/// further if the literal begins at `p` or later.
pub open spec fn moved_span(place: Span, p: int) -> Span {
    if place.start >= p {
        Span { start: (place.start + 1) as usize, end: (place.end + 1) as usize }
    } else {
        place
    }
}

/// The token with its place moved, if it is a literal.
pub open spec fn moved_token(t: Token, p: int) -> Token {
    match t {
        Token::Float(place) => Token::Float(moved_span(place, p)),
        _ => t,
    }
}

/// What a step of scanning found, with its place moved.
pub open spec fn moved_scan(r: Result<Option<Token>, Error>, p: int) -> Result<
    Option<Token>,
    Error,
> {
    match r {
        Ok(Some(t)) => Ok(Some(moved_token(t, p))),
        _ => r,
    }
}

/// The tokens with their places moved.
pub open spec fn moved_tokens(s: Seq<Token>, p: int) -> Seq<Token> {
    Seq::new(s.len(), |i: int| moved_token(s[i], p))
}

/// The stacks with the places of their tokens moved.
pub open spec fn moved_yard(y: Yard, p: int) -> Yard {
    stacks(moved_tokens(y.ops, p), moved_tokens(y.out, p))
}

/// The postfix sequence, if there is one, with its places moved.
pub open spec fn moved_code(r: Result<Seq<Token>, Error>, p: int) -> Result<Seq<Token>, Error> {
    match r {
        Ok(code) => Ok(moved_tokens(code, p)),
        Err(e) => Err(e),
    }
}

/// The value with the places of its literals moved.
pub open spec fn moved_value(v: Value, p: int) -> Value
    decreases v,
{
    match v {
        Value::Int(x) => v,
        Value::Literal(place) => Value::Literal(moved_span(place, p)),
        Value::Computed(op, a, b) => Value::Computed(
            moved_token(op, p),
            Box::new(moved_value(*a, p)),
            Box::new(moved_value(*b, p)),
        ),
    }
}

/// The values with the places of their literals moved.
pub open spec fn moved_values(m: Seq<Value>, p: int) -> Seq<Value> {
    Seq::new(m.len(), |i: int| moved_value(m[i], p))
}

/// The outcome with the places of its literals moved: the same outcome if
/// it is an error, empty or an integer.
pub open spec fn moved_outcome(r: Result<Outcome, Error>, p: int) -> Result<Outcome, Error> {
    match r {
        Ok(Outcome::Value(v)) => Ok(Outcome::Value(moved_value(v, p))),
        _ => r,
    }
}

/// Where the characters of the line are found once the space is in.
proof fn lemma_spaced_index(line: Seq<char>, p: int)
    requires
        0 <= p <= line.len(),
    ensures
        spaced(line, p).len() == line.len() + 1,
        spaced(line, p)[p] == ' ',
        forall|i: int| 0 <= i < p ==> #[trigger] spaced(line, p)[i] == line[i],
        forall|i: int| p <= i < line.len() ==> spaced(line, p)[i + 1] == #[trigger] line[i],
        forall|i: int| p < i <= line.len() ==> #[trigger] spaced(line, p)[i] == line[i - 1],
{
}

/// A run that begins before the new space: it ends where it did if that was
/// before the space, and else at the space or, if it is a run of spaces, one
/// further than it did.
proof fn lemma_run_before(line: Seq<char>, p: int, q: int, pred: spec_fn(char) -> bool)
    requires
        0 <= q <= p <= line.len(),
    ensures
        run_end(line, q, pred) < p ==> run_end(spaced(line, p), q, pred) == run_end(
            line,
            q,
            pred,
        ),
        run_end(line, q, pred) >= p && !pred(' ') ==> run_end(spaced(line, p), q, pred) == p,
        run_end(line, q, pred) >= p && pred(' ') ==> run_end(spaced(line, p), q, pred)
            == run_end(line, q, pred) + 1,
{
    let wide = spaced(line, p);
    let e = run_end(line, q, pred);
    lemma_spaced_index(line, p);
    lemma_run_end(line, q, pred);
    if e < p {
        lemma_run_end_unique(wide, q, e, pred);
    } else if !pred(' ') {
        lemma_run_end_unique(wide, q, p, pred);
    } else {
        assert forall|i: int| q <= i < e + 1 implies pred(#[trigger] wide[i]) by {
            if i > p {
                assert(wide[i] == line[i - 1]);
            }
        }
        if e + 1 < wide.len() {
            assert(wide[e + 1] == line[e]);
        }
        lemma_run_end_unique(wide, q, e + 1, pred);
    }
}

/// A run that begins at the new space or after it is moved by one.
proof fn lemma_run_after(line: Seq<char>, p: int, q: int, pred: spec_fn(char) -> bool)
    requires
        0 <= p <= q <= line.len(),
    ensures
        run_end(spaced(line, p), q + 1, pred) == run_end(line, q, pred) + 1,
{
    let wide = spaced(line, p);
    let e = run_end(line, q, pred);
    lemma_spaced_index(line, p);
    lemma_run_end(line, q, pred);
    assert forall|i: int| q + 1 <= i < e + 1 implies pred(#[trigger] wide[i]) by {
        assert(wide[i] == line[i - 1]);
    }
    if e + 1 < wide.len() {
        assert(wide[e + 1] == line[e]);
    }
    lemma_run_end_unique(wide, q + 1, e + 1, pred);
}

/// Scanning from a position at the new space or after it finds what it
/// found one position earlier, moved by one.
proof fn lemma_scan_after(line: Seq<char>, p: int, q: int)
    requires
        0 <= p <= q <= line.len(),
        line.len() < usize::MAX,
    ensures
        scan(spaced(line, p), q + 1).result == moved_scan(scan(line, q).result, p),
        scan(spaced(line, p), q + 1).end == scan(line, q).end + 1,
{
    let wide = spaced(line, p);
    lemma_spaced_index(line, p);
    lemma_run_after(line, p, q, space());
    lemma_run_end(line, q, space());
    let start = run_end(line, q, space());
    if start < line.len() {
        assert(wide[start + 1] == line[start]);
        if symbol(line[start]) is None && spec_is_digit(line[start]) {
            lemma_run_after(line, p, start, digit());
            lemma_run_end(line, start, digit());
            let whole = run_end(line, start, digit());
            if whole < line.len() {
                assert(wide[whole + 1] == line[whole]);
            }
            if whole < line.len() && line[whole] == '.' {
                lemma_run_after(line, p, whole + 1, digit());
                lemma_run_end(line, whole + 1, digit());
            } else {
                assert(wide.subrange(start + 1, whole + 1) =~= line.subrange(start, whole));
            }
        }
    }
}

/// Scanning from a position before the new space, where the space does not
/// part a numeral, finds what it found without the space, moved if it lies
/// after the space.
proof fn lemma_scan_before(line: Seq<char>, p: int, q: int)
    requires
        between_tokens(line, p),
        0 <= q <= p,
        line.len() < usize::MAX,
    ensures
        scan(spaced(line, p), q).result == moved_scan(scan(line, q).result, p),
        (scan(line, q).end <= p && scan(spaced(line, p), q).end == scan(line, q).end) || (scan(
            line,
            q,
        ).end >= p && scan(spaced(line, p), q).end == scan(line, q).end + 1),
{
    let wide = spaced(line, p);
    lemma_spaced_index(line, p);
    lemma_run_before(line, p, q, space());
    lemma_run_end(line, q, space());
    let start = run_end(line, q, space());
    if start >= p {
        lemma_spaces_skipped(line, q);
        lemma_spaces_skipped(wide, q);
        lemma_scan_after(line, p, start);
        lemma_scan_bounds(line, start);
    } else {
        assert(wide[start] == line[start]);
        if symbol(line[start]) is None && spec_is_digit(line[start]) {
            lemma_run_before(line, p, start, digit());
            lemma_run_end(line, start, digit());
            let whole = run_end(line, start, digit());
            assert(whole <= p) by {
                if whole > p {
                    assert(spec_is_digit(line[p - 1]));
                    assert(spec_is_digit(line[p]));
                }
            }
            if whole < p {
                assert(wide[whole] == line[whole]);
            }
            if whole < line.len() && line[whole] == '.' {
                assert(whole < p) by {
                    if whole == p {
                        assert(spec_is_digit(line[p - 1]));
                    }
                }
                lemma_run_before(line, p, whole + 1, digit());
                lemma_run_end(line, whole + 1, digit());
                let end = run_end(line, whole + 1, digit());
                assert(end <= p) by {
                    if end > p {
                        assert(joins(line[p - 1]));
                        assert(spec_is_digit(line[p]));
                    }
                }
            } else {
                assert(wide.subrange(start, whole) =~= line.subrange(start, whole));
            }
        }
    }
}

/// Moving commutes with pushing a token.
proof fn lemma_moved_push(s: Seq<Token>, t: Token, p: int)
    ensures
        moved_tokens(s.push(t), p) == moved_tokens(s, p).push(moved_token(t, p)),
{
    assert(moved_tokens(s.push(t), p) =~= moved_tokens(s, p).push(moved_token(t, p)));
}

/// Moving commutes with taking the last token off.
proof fn lemma_moved_pop(s: Seq<Token>, p: int)
    requires
        s.len() > 0,
    ensures
        moved_tokens(s.drop_last(), p) == moved_tokens(s, p).drop_last(),
        moved_tokens(s, p).last() == moved_token(s.last(), p),
{
    assert(moved_tokens(s.drop_last(), p) =~= moved_tokens(s, p).drop_last());
}

/// Moving commutes with settling the stack.
proof fn lemma_settle_moved(y: Yard, t: Token, p: int)
    ensures
        settle(moved_yard(y, p), moved_token(t, p)) == moved_yard(settle(y, t), p),
    decreases y.ops.len(),
{
    if y.ops.len() > 0 {
        lemma_moved_pop(y.ops, p);
        if y.ops.last().is_op() && t.is_op() && y.ops.last().prec()->0 >= t.prec()->0 {
            let next = stacks(y.ops.drop_last(), y.out.push(y.ops.last()));
            lemma_moved_push(y.out, y.ops.last(), p);
            lemma_settle_moved(next, t, p);
        }
    }
}

/// Moving commutes with closing a parenthesis.
proof fn lemma_close_moved(y: Yard, p: int)
    ensures
        close(moved_yard(y, p)) == match close(y) {
            Some(s) => Some(moved_yard(s, p)),
            None => None,
        },
    decreases y.ops.len(),
{
    if y.ops.len() > 0 {
        lemma_moved_pop(y.ops, p);
        if !(y.ops.last() is LeftParen) {
            let next = stacks(y.ops.drop_last(), y.out.push(y.ops.last()));
            lemma_moved_push(y.out, y.ops.last(), p);
            lemma_close_moved(next, p);
        }
    }
}

/// Moving commutes with flushing the stack.
proof fn lemma_flush_moved(y: Yard, p: int)
    ensures
        flush(moved_yard(y, p)) == moved_code(flush(y), p),
    decreases y.ops.len(),
{
    if y.ops.len() > 0 {
        lemma_moved_pop(y.ops, p);
        if !(y.ops.last() is LeftParen) {
            let next = stacks(y.ops.drop_last(), y.out.push(y.ops.last()));
            lemma_moved_push(y.out, y.ops.last(), p);
            lemma_flush_moved(next, p);
        }
    }
}

/// Moving commutes with taking a token in.
proof fn lemma_place_moved(y: Yard, t: Token, p: int)
    ensures
        place(moved_yard(y, p), moved_token(t, p)) == match place(y, t) {
            Ok(next) => Ok::<Yard, Error>(moved_yard(next, p)),
            Err(e) => Err(e),
        },
{
    if t.is_num() {
        lemma_moved_push(y.out, t, p);
    } else if t.is_op() {
        lemma_settle_moved(y, t, p);
        lemma_moved_push(settle(y, t).ops, t, p);
    } else if t is LeftParen {
        lemma_moved_push(y.ops, t, p);
    } else {
        lemma_close_moved(y, p);
    }
}

/// Converting the line with the new space gives the postfix sequence of the
/// line without it, with the places moved.
proof fn lemma_convert_moved(line: Seq<char>, p: int, q: int, y: Yard)
    requires
        between_tokens(line, p),
        0 <= q <= line.len(),
        line.len() < usize::MAX,
    ensures
        q <= p ==> convert(spaced(line, p), q, moved_yard(y, p)).result == moved_code(
            convert(line, q, y).result,
            p,
        ),
        q >= p ==> convert(spaced(line, p), q + 1, moved_yard(y, p)).result == moved_code(
            convert(line, q, y).result,
            p,
        ),
    decreases line.len() - q,
{
    let wide = spaced(line, p);
    let s = scan(line, q);
    lemma_spaced_index(line, p);
    lemma_scan_bounds(line, q);
    lemma_flush_moved(y, p);
    if q <= p {
        lemma_scan_before(line, p, q);
    }
    if q >= p {
        lemma_scan_after(line, p, q);
    }
    match s.result {
        Ok(Some(t)) => {
            lemma_place_moved(y, t, p);
            match place(y, t) {
                Ok(next) => {
                    lemma_convert_moved(line, p, s.end, next);
                },
                Err(e) => {},
            }
        },
        _ => {},
    }
}

/// Moving commutes with applying an operator.
proof fn lemma_reduce_moved(op: Token, a: Value, b: Value, p: int)
    ensures
        reduce(moved_token(op, p), moved_value(a, p), moved_value(b, p)) == match reduce(
            op,
            a,
            b,
        ) {
            Ok(v) => Ok::<Value, Error>(moved_value(v, p)),
            Err(e) => Err(e),
        },
{
}

/// Moving commutes with reducing a postfix sequence.
proof fn lemma_run_moved(code: Seq<Token>, at: int, mem: Seq<Value>, p: int)
    ensures
        run(moved_tokens(code, p), at, moved_values(mem, p)) == moved_outcome(
            run(code, at, mem),
            p,
        ),
    decreases code.len() - at,
{
    if 0 <= at < code.len() {
        let t = code[at];
        if t.is_num() {
            let next = mem.push(value_of(t));
            assert(moved_values(next, p) =~= moved_values(mem, p).push(
                value_of(moved_token(t, p)),
            ));
            lemma_run_moved(code, at + 1, next, p);
        } else if t.is_op() {
            if mem.len() >= 2 {
                let a = mem[mem.len() - 2];
                let b = mem[mem.len() - 1];
                lemma_reduce_moved(t, a, b, p);
                match reduce(t, a, b) {
                    Ok(v) => {
                        let next = mem.take(mem.len() - 2).push(v);
                        assert(moved_values(next, p) =~= moved_values(mem, p).take(
                            mem.len() - 2,
                        ).push(moved_value(v, p)));
                        lemma_run_moved(code, at + 1, next, p);
                    },
                    Err(e) => {},
                }
            }
        } else {
            lemma_run_moved(code, at + 1, mem, p);
        }
    }
}

/// A space more between tokens changes nothing: the line evaluates to what
/// it evaluated to without the space, the literals after the space being
/// found one place further. An error, an empty expression and an integer
/// result are the same.
pub proof fn lemma_space_between_tokens(line: Seq<char>, p: int)
    requires
        between_tokens(line, p),
        line.len() < usize::MAX,
    ensures
        evaluation(spaced(line, p)) == moved_outcome(evaluation(line), p),
        !(evaluation(line) matches Ok(Outcome::Value(v)) && !(v is Int)) ==> evaluation(
            spaced(line, p),
        ) == evaluation(line),
{
    lemma_convert_moved(line, p, 0, empty_yard());
    assert(moved_yard(empty_yard(), p) == empty_yard()) by {
        assert(moved_tokens(Seq::<Token>::empty(), p) =~= Seq::<Token>::empty());
    }
    match convert(line, 0, empty_yard()).result {
        Ok(code) => {
            lemma_run_moved(code, 0, Seq::empty(), p);
            assert(moved_values(Seq::<Value>::empty(), p) =~= Seq::<Value>::empty());
        },
        Err(e) => {},
    }
}

} // verus!
