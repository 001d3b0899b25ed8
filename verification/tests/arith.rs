use calculator::{operation_result, pow, Error, Span, Token, Value};

fn ints(op: Token, a: i32, b: i32) -> Result<Value, Error> {
    operation_result(op, Value::Int(a), Value::Int(b))
}

#[test]
fn pow_multiplies_repeatedly() {
    assert_eq!(pow(2, 10), 1024);
    assert_eq!(pow(3, 4), 81);
    assert_eq!(pow(-3, 3), -27);
    assert_eq!(pow(-3, 4), 81);
    assert_eq!(pow(7, 1), 7);
    assert_eq!(pow(46340, 2), 2147395600);
}

#[test]
fn pow_with_exponent_zero_or_negative_is_one() {
    assert_eq!(pow(5, 0), 1);
    assert_eq!(pow(5, -1), 1);
    assert_eq!(pow(0, 0), 1);
    assert_eq!(pow(-9, -9), 1);
    assert_eq!(pow(5, i32::MIN), 1);
}

#[test]
fn pow_of_zero_one_and_minus_one() {
    assert_eq!(pow(0, 5), 0);
    assert_eq!(pow(0, i32::MAX), 0);
    assert_eq!(pow(1, i32::MAX), 1);
    assert_eq!(pow(-1, 2), 1);
    assert_eq!(pow(-1, 3), -1);
    assert_eq!(pow(-1, i32::MAX), -1);
    assert_eq!(pow(-1, i32::MAX - 1), 1);
}

#[test]
fn pow_saturates() {
    assert_eq!(pow(2, 30), 1073741824);
    assert_eq!(pow(2, 31), i32::MAX);
    assert_eq!(pow(2, 1000), i32::MAX);
    assert_eq!(pow(-2, 31), i32::MIN);
    assert_eq!(pow(-2, 32), i32::MAX);
    assert_eq!(pow(-2, 33), i32::MIN);
    assert_eq!(pow(46341, 2), i32::MAX);
    assert_eq!(pow(3, 20), i32::MAX);
    assert_eq!(pow(i32::MIN, 2), i32::MAX);
    assert_eq!(pow(i32::MIN, 3), i32::MIN);
    assert_eq!(pow(i32::MAX, i32::MAX), i32::MAX);
    assert_eq!(pow(-7, i32::MAX), i32::MIN);
}

#[test]
fn integers_add_subtract_and_multiply() {
    assert_eq!(ints(Token::Add, 2, 3), Ok(Value::Int(5)));
    assert_eq!(ints(Token::Sub, 2, 3), Ok(Value::Int(-1)));
    assert_eq!(ints(Token::Mul, -4, 6), Ok(Value::Int(-24)));
}

#[test]
fn integer_results_saturate() {
    assert_eq!(ints(Token::Add, i32::MAX, 1), Ok(Value::Int(i32::MAX)));
    assert_eq!(ints(Token::Add, i32::MIN, -1), Ok(Value::Int(i32::MIN)));
    assert_eq!(ints(Token::Sub, i32::MIN, 1), Ok(Value::Int(i32::MIN)));
    assert_eq!(ints(Token::Sub, 0, i32::MIN), Ok(Value::Int(i32::MAX)));
    assert_eq!(ints(Token::Mul, i32::MAX, 2), Ok(Value::Int(i32::MAX)));
    assert_eq!(ints(Token::Mul, i32::MAX, -2), Ok(Value::Int(i32::MIN)));
    assert_eq!(ints(Token::Mul, i32::MIN, i32::MIN), Ok(Value::Int(i32::MAX)));
    assert_eq!(ints(Token::Div, i32::MIN, -1), Ok(Value::Int(i32::MAX)));
}

#[test]
fn integer_division_rounds_toward_zero() {
    assert_eq!(ints(Token::Div, 3, 2), Ok(Value::Int(1)));
    assert_eq!(ints(Token::Div, 7, 2), Ok(Value::Int(3)));
    assert_eq!(ints(Token::Div, -7, 2), Ok(Value::Int(-3)));
    assert_eq!(ints(Token::Div, 7, -2), Ok(Value::Int(-3)));
    assert_eq!(ints(Token::Div, -7, -2), Ok(Value::Int(3)));
    assert_eq!(ints(Token::Div, 1, 3), Ok(Value::Int(0)));
    assert_eq!(ints(Token::Div, -1, 3), Ok(Value::Int(0)));
    assert_eq!(ints(Token::Div, 6, 3), Ok(Value::Int(2)));
    assert_eq!(ints(Token::Div, i32::MIN, 1), Ok(Value::Int(i32::MIN)));
    assert_eq!(ints(Token::Div, i32::MAX, i32::MIN), Ok(Value::Int(0)));
}

#[test]
fn integer_division_by_zero_is_an_error() {
    assert_eq!(ints(Token::Div, 1, 0), Err(Error::DivideByZero));
    assert_eq!(ints(Token::Div, 0, 0), Err(Error::DivideByZero));
    assert_eq!(ints(Token::Div, -5, 0), Err(Error::DivideByZero));
}

#[test]
fn integer_power_follows_pow() {
    assert_eq!(ints(Token::Pow, 2, 3), Ok(Value::Int(8)));
    assert_eq!(ints(Token::Pow, 5, 0), Ok(Value::Int(1)));
    assert_eq!(ints(Token::Pow, 5, -1), Ok(Value::Int(1)));
    assert_eq!(ints(Token::Pow, 10, 10), Ok(Value::Int(i32::MAX)));
}

#[test]
fn integer_arithmetic_agrees_with_double_precision_cast_back() {
    let values = [0, 1, -1, 2, -2, 3, 7, -7, 10, 46340, 46341, 65536, i32::MAX, i32::MIN];
    for a in values {
        for b in values {
            let (x, y) = (a as f64, b as f64);
            assert_eq!(ints(Token::Add, a, b), Ok(Value::Int((x + y) as i32)));
            assert_eq!(ints(Token::Sub, a, b), Ok(Value::Int((x - y) as i32)));
            assert_eq!(ints(Token::Mul, a, b), Ok(Value::Int((x * y) as i32)));
            if b != 0 {
                assert_eq!(ints(Token::Div, a, b), Ok(Value::Int((x / y) as i32)));
            }
            if b <= 64 {
                let mut p = 1_f64;
                let mut i = 0;
                while i < b {
                    p = x * p;
                    i += 1;
                }
                assert_eq!(ints(Token::Pow, a, b), Ok(Value::Int(p as i32)));
            }
        }
    }
}

#[test]
fn a_float_operand_makes_the_result_a_float() {
    let half = Value::Literal(Span { start: 0, end: 3 });
    assert_eq!(
        operation_result(Token::Add, Value::Literal(Span { start: 0, end: 3 }), Value::Int(2)),
        Ok(Value::Computed(Token::Add, Box::new(half), Box::new(Value::Int(2))))
    );
    assert_eq!(
        operation_result(Token::Mul, Value::Int(2), Value::Literal(Span { start: 4, end: 7 })),
        Ok(Value::Computed(
            Token::Mul,
            Box::new(Value::Int(2)),
            Box::new(Value::Literal(Span { start: 4, end: 7 }))
        ))
    );
}

#[test]
fn a_float_divided_by_integer_zero_is_no_error() {
    assert_eq!(
        operation_result(Token::Div, Value::Literal(Span { start: 0, end: 3 }), Value::Int(0)),
        Ok(Value::Computed(
            Token::Div,
            Box::new(Value::Literal(Span { start: 0, end: 3 })),
            Box::new(Value::Int(0))
        ))
    );
}

#[test]
fn a_float_result_stays_a_float() {
    let sum = Value::Computed(
        Token::Add,
        Box::new(Value::Literal(Span { start: 0, end: 3 })),
        Box::new(Value::Int(1)),
    );
    let again = Value::Computed(
        Token::Add,
        Box::new(Value::Literal(Span { start: 0, end: 3 })),
        Box::new(Value::Int(1)),
    );
    assert_eq!(
        operation_result(Token::Sub, sum, Value::Int(1)),
        Ok(Value::Computed(Token::Sub, Box::new(again), Box::new(Value::Int(1))))
    );
}

#[test]
fn a_token_that_is_no_operator_gives_zero_on_integers() {
    assert_eq!(ints(Token::LeftParen, 4, 5), Ok(Value::Int(0)));
    assert_eq!(ints(Token::Int(9), 4, 5), Ok(Value::Int(0)));
}

#[test]
fn a_value_clones_to_an_equal_value() {
    let term = Value::Computed(
        Token::Div,
        Box::new(Value::Computed(
            Token::Add,
            Box::new(Value::Literal(Span { start: 1, end: 4 })),
            Box::new(Value::Int(-3)),
        )),
        Box::new(Value::Int(2)),
    );
    assert_eq!(term.clone(), term);
    assert_eq!(Value::Int(7).clone(), Value::Int(7));
    assert_ne!(term.clone(), Value::Int(7));
}

#[test]
fn fold_works_a_value_out_from_its_parts() {
    let term = Value::Computed(
        Token::Sub,
        Box::new(Value::Computed(
            Token::Mul,
            Box::new(Value::Literal(Span { start: 0, end: 3 })),
            Box::new(Value::Int(4)),
        )),
        Box::new(Value::Int(5)),
    );
    let written = term.fold(
        &|place: Span| format!("lit{}-{}", place.start, place.end),
        &|x: i32| format!("{}", x),
        &|op: Token, a: String, b: String| format!("({} {} {})", a, op.describe(), b),
    );
    assert_eq!(written, "((lit0-3 Mul (*) 4) Sub (-) 5)");
    let halves = term.fold(
        &|_: Span| 3_i64,
        &|x: i32| 2 * x as i64,
        &|op: Token, a: i64, b: i64| match op {
            Token::Mul => a * b / 2,
            Token::Sub => a - b,
            _ => 0,
        },
    );
    assert_eq!(halves, 2);
    assert_eq!(Value::Int(9).fold(&|_: Span| 0, &|x: i32| x + 1, &|_: Token, _: i32, _: i32| 0), 10);
}
