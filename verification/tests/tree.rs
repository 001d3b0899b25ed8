use calculator::{decimal, evaluate, operation_result, Error, Expr, Outcome, Token, Value};

struct Dice(u64);

impl Dice {
    fn roll(&mut self, sides: u64) -> u64 {
        self.0 = self.0.wrapping_mul(6364136223846793005).wrapping_add(1442695040888963407);
        (self.0 >> 33) % sides
    }
}

fn rank(e: &Expr) -> u8 {
    match e {
        Expr::Apply(op, _, _) => op.prec().unwrap(),
        _ => 4,
    }
}

fn shaped(e: &Expr) -> bool {
    match e {
        Expr::Leaf(t) => t.is_num(),
        Expr::Group(inner) => shaped(inner),
        Expr::Apply(op, l, r) => {
            op.is_op()
                && shaped(l)
                && shaped(r)
                && rank(l) >= op.prec().unwrap()
                && rank(r) > op.prec().unwrap()
        }
    }
}

fn grow(dice: &mut Dice, depth: u32) -> Expr {
    if depth == 0 || dice.roll(4) == 0 {
        return Expr::Leaf(Token::Int(dice.roll(12) as i32));
    }
    let op = [Token::Add, Token::Sub, Token::Mul, Token::Div, Token::Pow][dice.roll(5) as usize];
    let mut l = grow(dice, depth - 1);
    let mut r = grow(dice, depth - 1);
    if rank(&l) < op.prec().unwrap() || dice.roll(5) == 0 {
        l = Expr::Group(Box::new(l));
    }
    if rank(&r) <= op.prec().unwrap() || dice.roll(5) == 0 {
        r = Expr::Group(Box::new(r));
    }
    Expr::Apply(op, Box::new(l), Box::new(r))
}

fn written(e: &Expr, dice: &mut Dice, text: &mut String) {
    let gap = ["", "", " ", "  "][dice.roll(4) as usize];
    text.push_str(gap);
    match e {
        Expr::Leaf(Token::Int(x)) => text.push_str(&decimal(*x)),
        Expr::Leaf(_) => unreachable!(),
        Expr::Group(inner) => {
            text.push('(');
            written(inner, dice, text);
            text.push(')');
        }
        Expr::Apply(op, l, r) => {
            written(l, dice, text);
            text.push(match op {
                Token::Add => '+',
                Token::Sub => '-',
                Token::Mul => '*',
                Token::Div => '/',
                _ => '^',
            });
            written(r, dice, text);
        }
    }
    text.push_str(gap);
}

fn value(e: &Expr) -> Result<Value, Error> {
    match e {
        Expr::Leaf(Token::Int(x)) => Ok(Value::Int(*x)),
        Expr::Leaf(_) => unreachable!(),
        Expr::Group(inner) => value(inner),
        Expr::Apply(op, l, r) => {
            let a = value(l)?;
            let b = value(r)?;
            operation_result(*op, a, b)
        }
    }
}

#[test]
fn a_written_expression_evaluates_to_the_value_of_its_tree() {
    let mut dice = Dice(2024);
    let mut failures = 0;
    for _ in 0..3000 {
        let e = grow(&mut dice, 4);
        assert!(shaped(&e));
        let mut line = String::new();
        written(&e, &mut dice, &mut line);
        let expected = match value(&e) {
            Ok(v) => Ok(Outcome::Value(v)),
            Err(x) => {
                failures += 1;
                Err(x)
            }
        };
        assert_eq!(evaluate(&line), expected, "{}", line);
    }
    assert!(failures > 0 && failures < 3000);
}

#[test]
fn a_tree_that_is_not_shaped_is_read_differently() {
    let sum = Expr::Apply(
        Token::Add,
        Box::new(Expr::Leaf(Token::Int(2))),
        Box::new(Expr::Leaf(Token::Int(3))),
    );
    let e = Expr::Apply(Token::Mul, Box::new(sum), Box::new(Expr::Leaf(Token::Int(4))));
    assert!(!shaped(&e));
    assert_eq!(value(&e), Ok(Value::Int(20)));
    assert_eq!(evaluate(&String::from("2+3*4")), Ok(Outcome::Value(Value::Int(14))));
}
