use calc::tokenizer::{render_tokens, tokenize_string, Token};

#[test]
fn parse() {
    assert_eq!(
        tokenize_string(" 1 +2   * 4 / 7").unwrap(),
        vec![
            Token::Number(1),
            Token::Plus,
            Token::Number(2),
            Token::Multiply,
            Token::Number(4),
            Token::Divide,
            Token::Number(7),
        ]
    );
    assert_eq!(
        tokenize_string("5   -   ( 6 /   9   )").unwrap(),
        vec![
            Token::Number(5),
            Token::Minus,
            Token::OpenBracket,
            Token::Number(6),
            Token::Divide,
            Token::Number(9),
            Token::CloseBracket,
        ]
    );
}

#[test]
fn tokenize_plain_expression() {
    assert_eq!(
        tokenize_string("1+2*4/7").unwrap(),
        vec![
            Token::Number(1),
            Token::Plus,
            Token::Number(2),
            Token::Multiply,
            Token::Number(4),
            Token::Divide,
            Token::Number(7),
        ]
    );
}

#[test]
fn tokenize_with_brackets_and_spaces() {
    assert_eq!(
        tokenize_string("5 - (6/9)").unwrap(),
        vec![
            Token::Number(5),
            Token::Minus,
            Token::OpenBracket,
            Token::Number(6),
            Token::Divide,
            Token::Number(9),
            Token::CloseBracket,
        ]
    );
}

#[test]
fn tokenize_invalid_character() {
    assert_eq!(tokenize_string("1@2").unwrap_err(), "Invalid input");
}

#[test]
fn tokenize_empty_input() {
    assert_eq!(tokenize_string("").unwrap(), vec![]);
    assert_eq!(tokenize_string("   ").unwrap(), vec![]);
}

#[test]
fn whitespace_inside_number_is_insignificant() {
    assert_eq!(tokenize_string("1 2").unwrap(), vec![Token::Number(12)]);
}

#[test]
fn tokenize_number_at_u32_limit() {
    assert_eq!(
        tokenize_string("4294967295").unwrap(),
        vec![Token::Number(4294967295)]
    );
    assert_eq!(tokenize_string("4294967296").unwrap_err(), "Numeric overflow");
}

#[test]
fn render_round_trip() {
    let tokens = tokenize_string("5   -   ( 6 /   9   )").unwrap();
    let text = render_tokens(&tokens);
    assert_eq!(text, "5-(6/9)");
    assert_eq!(tokenize_string(&text).unwrap(), tokens);
}
