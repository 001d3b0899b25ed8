//! Values and the arithmetic on them: integers are worked out, saturating at
//! the bounds of `i32`; double-precision values are kept as terms.

use vstd::prelude::*;
use crate::error::Error;
use crate::token::{Span, Token};

verus! {

/// A value on the evaluator's stack.
///
/// An integer is held as itself. A double-precision value is held as what
/// defines it: a decimal literal, by the place of its text, or an operator
/// applied to two values of which at least one is double-precision. An
/// integer under such an operator stands for the same number in double
/// precision.
#[derive(Debug, PartialEq, Eq)]
pub enum Value {
    Int(i32),
    Literal(Span),
    Computed(Token, Box<Value>, Box<Value>),
}

impl Clone for Value {
    fn clone(&self) -> (copy: Self)
        ensures
            copy == *self,
        decreases self,
    {
        match self {
            Value::Int(x) => Value::Int(*x),
            Value::Literal(place) => Value::Literal(*place),
            Value::Computed(op, a, b) => {
                let left = (**a).clone();
                let right = (**b).clone();
                Value::Computed(*op, Box::new(left), Box::new(right))
            },
        }
    }
}

impl Value {
    /// Whether `result` is what three functions make of the value: `whole`
    /// of an integer, `literal` of the place of a literal, and `apply` of an
    /// operator and of what they make of its two operands.
    pub open spec fn folded<T, L: Fn(Span) -> T, W: Fn(i32) -> T, A: Fn(Token, T, T) -> T>(
        self,
        literal: L,
        whole: W,
        apply: A,
        result: T,
    ) -> bool
        decreases self,
    {
        match self {
            Value::Int(x) => call_ensures(whole, (x,), result),
            Value::Literal(place) => call_ensures(literal, (place,), result),
            Value::Computed(op, a, b) => exists|x: T, y: T|
                #![trigger call_ensures(apply, (op, x, y), result)]
                (*a).folded(literal, whole, apply, x) && (*b).folded(literal, whole, apply, y)
                    && call_ensures(apply, (op, x, y), result),
        }
    }

    /// Works the value out with the caller's own numbers: the left operand
    /// of an operator before the right one, and both before the operator.
    pub fn fold<T, L: Fn(Span) -> T, W: Fn(i32) -> T, A: Fn(Token, T, T) -> T>(
        &self,
        literal: &L,
        whole: &W,
        apply: &A,
    ) -> (result: T)
        requires
            forall|place: Span| call_requires(*literal, (place,)),
            forall|x: i32| call_requires(*whole, (x,)),
            forall|op: Token, x: T, y: T| call_requires(*apply, (op, x, y)),
        ensures
            self.folded(*literal, *whole, *apply, result),
        decreases self,
    {
        match self {
            Value::Int(x) => whole(*x),
            Value::Literal(place) => literal(*place),
            Value::Computed(op, a, b) => {
                let x = a.fold(literal, whole, apply);
                let y = b.fold(literal, whole, apply);
                apply(*op, x, y)
            },
        }
    }
}

/// The nearest `i32` to `x`.
pub open spec fn saturate(x: int) -> i32 {
    if x < i32::MIN {
        i32::MIN
    } else if x > i32::MAX {
        i32::MAX
    } else {
        x as i32
    }
}

/// `a` multiplied by itself `b` times; 1 when `b` is zero or negative.
pub open spec fn power(a: int, b: int) -> int
    decreases b,
{
    if b <= 0 {
        1
    } else {
        a * power(a, b - 1)
    }
}

pub open spec fn magnitude(x: int) -> int {
    if x < 0 {
        -x
    } else {
        x
    }
}

/// `a` divided by `b`, rounded toward zero.
pub open spec fn quotient(a: int, b: int) -> int {
    let q = magnitude(a) / magnitude(b);
    if (a < 0) == (b < 0) {
        q
    } else {
        -q
    }
}

/// What an operator makes of two integers, before the result is brought
/// into the range of `i32`; 0 for a token that is no operator.
pub open spec fn exact(op: Token, a: int, b: int) -> int {
    match op {
        Token::Add => a + b,
        Token::Sub => a - b,
        Token::Mul => a * b,
        Token::Div => quotient(a, b),
        Token::Pow => power(a, b),
        _ => 0,
    }
}

/// The result of `op` on `a` and `b`. Two integers give an integer, the
/// exact result saturated, or fail when an integer is divided by zero. With
/// a double-precision operand the result is double-precision, and is the
/// operation itself.
pub open spec fn reduce(op: Token, a: Value, b: Value) -> Result<Value, Error> {
    match (a, b) {
        (Value::Int(x), Value::Int(y)) => if op is Div && y == 0 {
            Err(Error::DivideByZero)
        } else {
            Ok(Value::Int(saturate(exact(op, x as int, y as int))))
        },
        _ => Ok(Value::Computed(op, Box::new(a), Box::new(b))),
    }
}

/// Two integers give an integer and anything else gives a double-precision
/// value; the one failure is an integer divided by the integer zero.
pub proof fn lemma_promotion(op: Token, a: Value, b: Value)
    ensures
        reduce(op, a, b) matches Ok(v) ==> (v is Int <==> a is Int && b is Int),
        reduce(op, a, b) is Err <==> op is Div && a is Int && b == Value::Int(0),
        reduce(op, a, b) matches Err(e) ==> e == Error::DivideByZero,
{
}

/// Powers of 0, 1 and -1 with a positive exponent.
pub proof fn lemma_power_unit_bases(b: int)
    requires
        b > 0,
    ensures
        power(0, b) == 0,
        power(1, b) == 1,
        power(-1, b) == if b % 2 == 0 { 1int } else { -1int },
    decreases b,
{
    if b > 1 {
        lemma_power_unit_bases(b - 1);
    } else {
        assert(power(0, 0) == 1 && power(1, 0) == 1 && power(-1, 0) == 1);
    }
}

/// With a base of at least 1 a power is at least 1, and no smaller than a
/// power with a smaller exponent.
pub proof fn lemma_power_grows(m: int, j: int, k: int)
    requires
        m >= 1,
        0 <= j <= k,
    ensures
        1 <= power(m, j) <= power(m, k),
    decreases k,
{
    if k > 0 {
        if j < k {
            lemma_power_grows(m, j, k - 1);
        } else {
            lemma_power_grows(m, j - 1, k - 1);
        }
        let p = power(m, k - 1);
        assert(m * p >= p) by (nonlinear_arith)
            requires
                m >= 1,
                p >= 1,
        ;
    }
}

/// A power of a negative base is the power of its magnitude, negated when
/// the exponent is odd.
pub proof fn lemma_power_sign(a: int, k: int)
    requires
        a < 0,
        k >= 0,
    ensures
        k % 2 == 0 ==> power(a, k) == power(-a, k),
        k % 2 == 1 ==> power(a, k) == -power(-a, k),
    decreases k,
{
    if k > 0 {
        lemma_power_sign(a, k - 1);
        let p = power(-a, k - 1);
        assert(a * p == -((-a) * p)) by (nonlinear_arith);
        assert(a * (-p) == (-a) * p) by (nonlinear_arith);
    }
}

/// Once a power of a base of magnitude 2 or more has left the range of
/// `i32`, every later power is outside it too, on the side that its sign
/// gives.
pub proof fn lemma_power_escapes(a: int, k: int, b: int)
    requires
        a >= 2 || a <= -2,
        1 <= k <= b,
        power(a, k) > i32::MAX || power(a, k) < i32::MIN,
    ensures
        saturate(power(a, b)) == if a > 0 || b % 2 == 0 { i32::MAX } else { i32::MIN },
{
    if a > 0 {
        lemma_power_grows(a, k, b);
    } else {
        lemma_power_sign(a, k);
        lemma_power_sign(a, b);
        lemma_power_grows(-a, k, b);
    }
}

/// Brings `x` into the range of `i32`.
fn clamp(x: i64) -> (r: i32)
    ensures
        r == saturate(x as int),
{
    if x < -0x8000_0000 {
        i32::MIN
    } else if x > 0x7fff_ffff {
        i32::MAX
    } else {
        x as i32
    }
}

fn magnitude_of(x: i32) -> (m: u64)
    ensures
        m == magnitude(x as int),
{
    if x < 0 {
        (-(x as i64)) as u64
    } else {
        x as u64
    }
}

/// Integer division that rounds toward zero and saturates.
fn divide(a: i32, b: i32) -> (r: i32)
    requires
        b != 0,
    ensures
        r == saturate(quotient(a as int, b as int)),
{
    let q: u64 = magnitude_of(a) / magnitude_of(b);
    assert(q <= 0x8000_0000) by (nonlinear_arith)
        requires
            q == magnitude(a as int) / magnitude(b as int),
            0 <= magnitude(a as int) <= 0x8000_0000,
            magnitude(b as int) >= 1,
    ;
    if (a < 0) == (b < 0) {
        clamp(q as i64)
    } else {
        clamp(-(q as i64))
    }
}

/// `a` to the power `b`, saturated; 1 for every `b` that is zero or
/// negative.
pub fn pow(a: i32, b: i32) -> (r: i32)
    ensures
        r == saturate(power(a as int, b as int)),
        b <= 0 ==> r == 1,
{
    if b <= 0 {
        return 1;
    }
    if a == 0 || a == 1 || a == -1 {
        proof {
            lemma_power_unit_bases(b as int);
        }
        return if a == -1 && (b as u32) % 2 == 0 { 1 } else { a };
    }
    let mut acc: i64 = 1;
    let mut i: i32 = 0;
    while i < b
        invariant
            0 <= i <= b,
            a >= 2 || a <= -2,
            acc == power(a as int, i as int),
            i32::MIN <= acc <= i32::MAX,
        decreases b - i,
    {
        assert(-0x4000_0000_0000_0000 <= (a as int) * (acc as int) <= 0x4000_0000_0000_0000)
            by (nonlinear_arith)
            requires
                -0x8000_0000 <= a <= 0x7fff_ffff,
                -0x8000_0000 <= acc <= 0x7fff_ffff,
        ;
        let next: i64 = (a as i64) * acc;
        assert(next == power(a as int, i + 1));
        if next > 0x7fff_ffff || next < -0x8000_0000 {
            proof {
                lemma_power_escapes(a as int, i + 1, b as int);
            }
            return if a > 0 || (b as u32) % 2 == 0 { i32::MAX } else { i32::MIN };
        }
        acc = next;
        i = i + 1;
    }
    acc as i32
}

/// Applies `operator` to `a` and `b`.
pub fn operation_result(operator: Token, a: Value, b: Value) -> (r: Result<Value, Error>)
    ensures
        r == reduce(operator, a, b),
{
    match (a, b) {
        (Value::Int(x), Value::Int(y)) => match operator {
            Token::Add => Ok(Value::Int(clamp(x as i64 + y as i64))),
            Token::Sub => Ok(Value::Int(clamp(x as i64 - y as i64))),
            Token::Mul => {
                assert(-0x4000_0000_0000_0000 <= (x as int) * (y as int) <= 0x4000_0000_0000_0000)
                    by (nonlinear_arith)
                    requires
                        -0x8000_0000 <= x <= 0x7fff_ffff,
                        -0x8000_0000 <= y <= 0x7fff_ffff,
                ;
                Ok(Value::Int(clamp((x as i64) * (y as i64))))
            },
            Token::Div => if y == 0 {
                Err(Error::DivideByZero)
            } else {
                Ok(Value::Int(divide(x, y)))
            },
            Token::Pow => Ok(Value::Int(pow(x, y))),
            _ => Ok(Value::Int(0)),
        },
        (a, b) => Ok(Value::Computed(operator, Box::new(a), Box::new(b))),
    }
}

} // verus!
