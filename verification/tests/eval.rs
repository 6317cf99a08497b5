use calc::eval::{evaluate, EvalError, Rational};
use calc::parser::parse;
use calc::tokenizer::tokenize_string;

fn eval_text(text: &str) -> Result<Rational, EvalError> {
    let tokens = tokenize_string(text).unwrap();
    let tree = parse(&tokens).unwrap();
    evaluate(&tree)
}

fn as_f64(r: Rational) -> f64 {
    r.num as f64 / r.den as f64
}

#[test]
fn multiplicative_before_additive() {
    let r = eval_text("1+6*9/10").unwrap();
    assert_eq!(r, Rational { num: 64, den: 10 });
    assert_eq!(as_f64(r), 6.4);
}

#[test]
fn brackets_override_precedence() {
    let r = eval_text("(1+2)*3").unwrap();
    assert_eq!(r, Rational { num: 9, den: 1 });
    assert_eq!(as_f64(r), 9.0);
}

#[test]
fn equal_precedence_evaluates_left_to_right() {
    let r = eval_text("10-3-2").unwrap();
    assert_eq!(r, Rational { num: 5, den: 1 });
    assert_eq!(as_f64(r), 5.0);
}

#[test]
fn long_minus_chain_associates_left() {
    let r = eval_text("1-2-3-4").unwrap();
    assert_eq!(r, Rational { num: -8, den: 1 });
}

#[test]
fn mixed_precedence_chain_associates_left() {
    let r = eval_text("1-2*3-4").unwrap();
    assert_eq!(r, Rational { num: -9, den: 1 });
}

#[test]
fn nested_division() {
    let r = eval_text("5-(6/9)").unwrap();
    assert_eq!(r, Rational { num: 39, den: 9 });
    assert_eq!(as_f64(r), 39.0 / 9.0);
}

#[test]
fn division_by_zero_is_reported() {
    assert_eq!(eval_text("1/0").unwrap_err(), EvalError::DivisionByZero);
    assert_eq!(eval_text("1/(2-2)").unwrap_err(), EvalError::DivisionByZero);
}

#[test]
fn overflow_is_reported() {
    assert_eq!(
        eval_text("4000000000*4000000000").unwrap_err(),
        EvalError::Overflow
    );
}

#[test]
fn nested_brackets_separated_by_an_operator() {
    let r = eval_text("((1)+2)").unwrap();
    assert_eq!(r, Rational { num: 3, den: 1 });
}

#[test]
fn single_number_evaluates_to_itself() {
    let r = eval_text("7").unwrap();
    assert_eq!(r, Rational { num: 7, den: 1 });
}
