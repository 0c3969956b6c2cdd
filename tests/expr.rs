use sc::expr::{BinOp, EvalError, Expr, ParseErrorKind, Term, UnOp};

fn read(t: &str) -> Option<f64> {
    t.parse::<f64>().ok()
}

fn bin(op: BinOp, l: f64, r: f64) -> f64 {
    match op {
        BinOp::Add => l + r,
        BinOp::Sub => l - r,
        BinOp::Mul => l * r,
        BinOp::Div => l / r,
        BinOp::IDiv => (l / r).trunc(),
    }
}

fn un(op: UnOp, x: f64) -> f64 {
    match op {
        UnOp::Fact => {
            let mut acc = 1.0;
            let mut k = 2.0;
            while k <= x {
                acc *= k;
                k += 1.0;
            }
            acc
        }
        UnOp::Sin => x.sin(),
        UnOp::Cos => x.cos(),
        UnOp::Tan => x.tan(),
        UnOp::Sqrt => x.sqrt(),
        UnOp::Ln => x.ln(),
        UnOp::Log => x.log10(),
    }
}

fn eval_line(line: &str, stack: &mut Vec<f64>) -> Result<f64, EvalError> {
    Expr::parse(line, read).unwrap().evaluate(stack, bin, un)
}

#[test]
fn expr_parses() {
    let input = "1 2 +";
    let expected = vec![
        Term::BinOp(BinOp::Add),
        Term::Number(2.0),
        Term::Number(1.0),
    ];

    let expr = Expr::parse(input, read).unwrap();

    assert_eq!(expr.stack, expected);
}

#[test]
fn expr_evaluates() {
    let input = "1 2 + +";

    let result = Expr::parse(input, read).unwrap().evaluate(&mut vec![3.0], bin, un);

    assert_eq!(Ok(6.0), result);
}

#[test]
fn expr_push_evaluates() {
    let mut expr = Expr {
        stack: vec![
            Term::BinOp(BinOp::Add),
            Term::Number(2.0),
            Term::Number(1.0),
        ],
    };

    let expr_right = Expr {
        stack: vec![Term::BinOp(BinOp::Div), Term::Number(3.0)],
    };

    expr.push_expr(expr_right);

    let expected_stack = vec![
        Term::BinOp(BinOp::Div),
        Term::Number(3.0),
        Term::BinOp(BinOp::Add),
        Term::Number(2.0),
        Term::Number(1.0),
    ];

    assert_eq!(expr.stack, expected_stack);
}

#[test]
fn pushed_expr_evaluates() {
    let mut expr = Expr {
        stack: vec![
            Term::BinOp(BinOp::Add),
            Term::Number(2.0),
            Term::Number(1.0),
        ],
    };

    let expr_right = Expr {
        stack: vec![Term::BinOp(BinOp::Div), Term::Number(3.0)],
    };

    expr.push_expr(expr_right);

    let result = expr.evaluate(&mut vec![], bin, un);

    assert_eq!(Ok(1.0), result);
}

#[test]
fn sum_of_two_numbers() {
    let mut stack = Vec::new();
    assert_eq!(eval_line("1 2 +", &mut stack), Ok(3.0));
    assert!(stack.is_empty());
}

#[test]
fn empty_line_is_empty_expression() {
    let mut expr: Expr<f64> = Expr::parse("", read).unwrap();
    assert!(expr.stack.is_empty());
    let mut stack = vec![5.0];
    assert_eq!(expr.evaluate(&mut stack, bin, un), Err(EvalError::EmptyExpression));
    assert_eq!(stack, vec![5.0]);
}

#[test]
fn blank_line_is_empty_expression() {
    let expr: Expr<f64> = Expr::parse(" \t \n ", read).unwrap();
    assert!(expr.stack.is_empty());
}

#[test]
fn words_split_on_runs_of_whitespace() {
    let expr = Expr::parse("  1\t\t2 \n + ", read).unwrap();
    assert_eq!(
        expr.stack,
        vec![Term::BinOp(BinOp::Add), Term::Number(2.0), Term::Number(1.0)]
    );
}

#[test]
fn lone_operator_on_empty_stack_fails() {
    let mut stack = Vec::new();
    assert_eq!(eval_line("+", &mut stack), Err(EvalError::InsufficientOperands));
    assert!(stack.is_empty());
}

#[test]
fn lone_unary_operator_on_empty_stack_fails() {
    let mut stack = Vec::new();
    assert_eq!(eval_line("sqrt", &mut stack), Err(EvalError::InsufficientOperands));
}

#[test]
fn single_operand_passes_through() {
    let mut stack = vec![4.0];
    assert_eq!(eval_line("-", &mut stack), Ok(4.0));
    assert!(stack.is_empty());
}

#[test]
fn failed_evaluation_keeps_what_was_reduced() {
    let mut expr = Expr::parse("+ 1 2", read).unwrap();
    let mut stack = Vec::new();
    assert_eq!(expr.evaluate(&mut stack, bin, un), Err(EvalError::InsufficientOperands));
    assert!(stack.is_empty());
    assert_eq!(expr.stack, vec![Term::Number(2.0), Term::Number(1.0)]);

    let mut expr = Expr::parse("5 3 sqrt sqrt", read).unwrap();
    let mut stack = Vec::new();
    assert!(expr.evaluate(&mut stack, bin, un).is_ok());
    assert_eq!(stack, vec![5.0]);
}

#[test]
fn operands_keep_their_order() {
    let mut stack = Vec::new();
    assert_eq!(eval_line("7 2 +", &mut stack), Ok(9.0));
    assert_eq!(eval_line("7 2 -", &mut stack), Ok(5.0));
    assert_eq!(eval_line("7 2 *", &mut stack), Ok(14.0));
    assert_eq!(eval_line("7 2 /", &mut stack), Ok(3.5));
    assert_eq!(eval_line("7 2 //", &mut stack), Ok(3.0));
    assert!(stack.is_empty());
}

#[test]
fn residual_expression_gives_same_value() {
    let mut expr = Expr::parse("2 3 * 4 +", read).unwrap();
    let mut stack = Vec::new();
    assert_eq!(expr.evaluate(&mut stack, bin, un), Ok(10.0));
    assert_eq!(expr.stack, vec![Term::Number(10.0)]);
    let mut other = vec![1.0, 2.0];
    assert_eq!(expr.evaluate(&mut other, bin, un), Ok(10.0));
    assert_eq!(other, vec![1.0, 2.0]);
}

#[test]
fn unknown_word_is_invalid_term() {
    let e = Expr::parse("1 foo +", read).unwrap_err();
    assert_eq!(e.kind, ParseErrorKind::InvalidTerm(String::from("foo")));
    assert_eq!(e.message(), "invalid token found: foo");
}

#[test]
fn first_bad_word_is_reported() {
    let e = Expr::parse("bar 1 foo", read).unwrap_err();
    assert_eq!(e.kind, ParseErrorKind::InvalidTerm(String::from("bar")));
}

#[test]
fn reserved_symbol_is_invalid_operator() {
    let e = Expr::parse("2 3 ^", read).unwrap_err();
    assert_eq!(e.kind, ParseErrorKind::InvalidOperator(String::from("^")));
    assert_eq!(e.message(), "invalid operator found: ^");
    let e = Expr::parse("9 \u{221A}", read).unwrap_err();
    assert_eq!(e.kind, ParseErrorKind::InvalidOperator(String::from("\u{221A}")));
}

#[test]
fn division_by_zero_is_infinite() {
    let mut stack = Vec::new();
    let r = eval_line("1 0 /", &mut stack).unwrap();
    assert!(r.is_infinite() && r > 0.0);
}

#[test]
fn unary_operators_apply() {
    let mut stack = Vec::new();
    assert_eq!(eval_line("16 sqrt", &mut stack), Ok(4.0));
    assert_eq!(eval_line("4 !", &mut stack), Ok(24.0));
    assert_eq!(eval_line("100 log", &mut stack), Ok(2.0));
    assert_eq!(eval_line("0 sin", &mut stack), Ok(0.0));
    assert_eq!(eval_line("0 cos", &mut stack), Ok(1.0));
    assert_eq!(eval_line("0 tan", &mut stack), Ok(0.0));
    assert_eq!(eval_line("1 ln", &mut stack), Ok(0.0));
}

#[test]
fn operator_words_are_classified() {
    let expr: Expr<f64> = Expr::parse("- * / // ! sin cos tan sqrt ln log", read).unwrap();
    assert_eq!(
        expr.stack,
        vec![
            Term::UnOp(UnOp::Log),
            Term::UnOp(UnOp::Ln),
            Term::UnOp(UnOp::Sqrt),
            Term::UnOp(UnOp::Tan),
            Term::UnOp(UnOp::Cos),
            Term::UnOp(UnOp::Sin),
            Term::UnOp(UnOp::Fact),
            Term::BinOp(BinOp::IDiv),
            Term::BinOp(BinOp::Div),
            Term::BinOp(BinOp::Mul),
            Term::BinOp(BinOp::Sub),
        ]
    );
}

#[test]
fn stack_carries_over_between_lines() {
    let mut stack = Vec::new();
    let v = eval_line("1 2 +", &mut stack).unwrap();
    stack.push(v);
    let w = eval_line("4 *", &mut stack).unwrap();
    assert_eq!(w, 12.0);
}

#[test]
fn terms_from_operators() {
    assert_eq!(Term::<f64>::from(BinOp::Mul), Term::BinOp(BinOp::Mul));
    assert_eq!(Term::<f64>::from(UnOp::Sqrt), Term::UnOp(UnOp::Sqrt));
}

#[test]
fn default_expression_is_empty() {
    let e: Expr<f64> = Expr::default();
    assert!(e.stack.is_empty());
}

#[test]
fn eval_error_messages() {
    assert_eq!(EvalError::EmptyExpression.message(), "empty expression");
    assert_eq!(EvalError::InsufficientOperands.message(), "not enough items on stack");
    assert_eq!(EvalError::EmptyResult.message(), "empty stack");
}
