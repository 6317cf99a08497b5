use calc::parser::{parse, Node, Operator};
use calc::tokenizer::tokenize_string;

#[test]
fn do_test() {
    let input = tokenize_string("1+6*9/10").unwrap();
    let n = parse(&input).unwrap();
    println!("{:?}", n);
}

#[test]
fn parse_trailing_operator() {
    let tokens = tokenize_string("1+").unwrap();
    assert_eq!(parse(&tokens).unwrap_err(), "Expected Number or Open Bracket");
}

#[test]
fn parse_unmatched_bracket() {
    let tokens = tokenize_string("(1+2").unwrap();
    assert_eq!(parse(&tokens).unwrap_err(), "Unmatched bracket");
}

#[test]
fn parse_unexpected_close_bracket() {
    let tokens = tokenize_string(")1+2").unwrap();
    assert_eq!(parse(&tokens).unwrap_err(), "Unexpected close bracket");
}

#[test]
fn parse_empty_input() {
    assert_eq!(parse(&[]).unwrap_err(), "Expected Number or Open Bracket");
}

#[test]
fn parse_empty_brackets() {
    let tokens = tokenize_string("()").unwrap();
    assert_eq!(parse(&tokens).unwrap_err(), "Expected Number or Open Bracket");
}

#[test]
fn parse_leading_operator() {
    let tokens = tokenize_string("*3").unwrap();
    assert_eq!(parse(&tokens).unwrap_err(), "Expected Number or Open Bracket");
}

#[test]
fn parse_number_before_bracket() {
    let tokens = tokenize_string("1(2)").unwrap();
    assert_eq!(parse(&tokens).unwrap_err(), "Expected Operator or Close Bracket");
}

#[test]
fn parse_bracket_after_bracket() {
    let tokens = tokenize_string("(1)(2)").unwrap();
    assert_eq!(parse(&tokens).unwrap_err(), "Expected Operator");
}

#[test]
fn parse_nested_brackets_closing_together() {
    let tokens = tokenize_string("((1))").unwrap();
    assert_eq!(parse(&tokens).unwrap_err(), "Expected Operator");
}

#[test]
fn parse_precedence_shapes_the_tree() {
    let tokens = tokenize_string("1+2*3").unwrap();
    let n = parse(&tokens).unwrap();
    match n {
        Node::Op(Operator::Plus, left, right) => {
            match *left {
                Node::Num(1) => {}
                other => panic!("expected Num(1) on the left, got {:?}", other),
            }
            match *right {
                Node::Op(Operator::Multiply, l2, r2) => {
                    match (*l2, *r2) {
                        (Node::Num(2), Node::Num(3)) => {}
                        other => panic!("expected 2*3, got {:?}", other),
                    }
                }
                other => panic!("expected a Multiply node on the right, got {:?}", other),
            }
        }
        other => panic!("expected a Plus node at the root, got {:?}", other),
    }
}

#[test]
fn parse_equal_precedence_associates_left() {
    let tokens = tokenize_string("10-3-2").unwrap();
    let n = parse(&tokens).unwrap();
    match n {
        Node::Op(Operator::Minus, left, right) => {
            match *right {
                Node::Num(2) => {}
                other => panic!("expected Num(2) on the right, got {:?}", other),
            }
            match *left {
                Node::Op(Operator::Minus, l2, r2) => {
                    match (*l2, *r2) {
                        (Node::Num(10), Node::Num(3)) => {}
                        other => panic!("expected 10-3, got {:?}", other),
                    }
                }
                other => panic!("expected a Minus node on the left, got {:?}", other),
            }
        }
        other => panic!("expected a Minus node at the root, got {:?}", other),
    }
}
