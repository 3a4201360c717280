use expr_parser::lexer::{tokenize, Token};
use expr_parser::parser::{parse, Expr, ParseError};

fn num(n: i64) -> Box<Expr> {
    Box::new(Expr::Number(n))
}

fn bin(op: Token, left: Box<Expr>, right: Box<Expr>) -> Box<Expr> {
    Box::new(Expr::BinaryOp { op, left, right })
}

#[test]
fn test_empty_input() {
    let tokens: Vec<Token> = Vec::new();
    let result = parse(&tokens);

    assert!(result.is_err());
    assert_eq!(result, Err(ParseError::UnexpectedEndOfInput));
}

#[test]
fn parser_test_simple_expression() {
    let input = vec![Token::Number(2), Token::Plus, Token::Number(3)];
    let result = parse(&input).unwrap();

    assert_eq!(
        result,
        Expr::BinaryOp {
            op: Token::Plus,
            left: Box::new(Expr::Number(2)),
            right: Box::new(Expr::Number(3))
        }
    );
}

#[test]
fn test_parentheses() {
    let tokens = vec![
        Token::LeftParenthesis,
        Token::Number(2),
        Token::Plus,
        Token::Number(3),
        Token::RightParenthesis,
        Token::Asterisk,
        Token::Number(4),
    ];
    let ast = parse(&tokens).unwrap();

    assert_eq!(
        ast,
        Expr::BinaryOp {
            op: Token::Asterisk,
            left: Box::new(Expr::BinaryOp {
                op: Token::Plus,
                left: Box::new(Expr::Number(2)),
                right: Box::new(Expr::Number(3)),
            }),
            right: Box::new(Expr::Number(4)),
        }
    );
}

#[test]
fn test_nested_parentheses() {
    let tokens = vec![
        Token::Number(2),
        Token::Asterisk,
        Token::LeftParenthesis,
        Token::Number(3),
        Token::Plus,
        Token::LeftParenthesis,
        Token::Number(4),
        Token::Minus,
        Token::Number(1),
        Token::RightParenthesis,
        Token::RightParenthesis,
    ];
    let ast = parse(&tokens).unwrap();

    assert_eq!(
        ast,
        Expr::BinaryOp {
            op: Token::Asterisk,
            left: Box::new(Expr::Number(2)),
            right: Box::new(Expr::BinaryOp {
                op: Token::Plus,
                left: Box::new(Expr::Number(3)),
                right: Box::new(Expr::BinaryOp {
                    op: Token::Minus,
                    left: Box::new(Expr::Number(4)),
                    right: Box::new(Expr::Number(1)),
                }),
            }),
        }
    );
}

#[test]
fn test_invalid_input_unexpected_token() {
    let tokens = vec![
        Token::Number(2),
        Token::Plus,
        Token::RightParenthesis,
        Token::Number(3),
    ];
    let result = parse(&tokens);

    assert!(result.is_err());
    assert_eq!(
        result,
        Err(ParseError::UnexpectedToken(Token::RightParenthesis))
    );
}

#[test]
fn test_invalid_input_expression() {
    let tokens = vec![
        Token::Number(2),
        Token::Plus,
        Token::Number(3),
        Token::Number(4),
    ];
    let result = parse(&tokens);

    assert!(result.is_err());
    assert_eq!(result, Err(ParseError::InvalidExpression));
}

#[test]
fn single_number_parses_to_a_leaf() {
    assert_eq!(parse(&[Token::Number(42)]), Ok(Expr::Number(42)));
}

#[test]
fn subtraction_is_left_associative() {
    let tokens = tokenize(&String::from("10 - 4 - 3")).unwrap();
    assert_eq!(
        parse(&tokens),
        Ok(*bin(Token::Minus, bin(Token::Minus, num(10), num(4)), num(3)))
    );
}

#[test]
fn division_is_left_associative() {
    let tokens = tokenize(&String::from("8 / 4 / 2")).unwrap();
    assert_eq!(
        parse(&tokens),
        Ok(*bin(Token::Slash, bin(Token::Slash, num(8), num(4)), num(2)))
    );
}

#[test]
fn multiplication_binds_tighter_than_addition() {
    let tokens = tokenize(&String::from("1 + 2 * 3 - 4 / 5")).unwrap();
    assert_eq!(
        parse(&tokens),
        Ok(*bin(
            Token::Minus,
            bin(Token::Plus, num(1), bin(Token::Asterisk, num(2), num(3))),
            bin(Token::Slash, num(4), num(5))
        ))
    );
}

#[test]
fn missing_closing_parenthesis_at_end_is_end_of_input() {
    let tokens = vec![
        Token::LeftParenthesis,
        Token::Number(2),
        Token::Plus,
        Token::Number(3),
    ];
    assert_eq!(parse(&tokens), Err(ParseError::UnexpectedEndOfInput));
}

#[test]
fn lone_open_parenthesis_is_end_of_input() {
    assert_eq!(
        parse(&[Token::LeftParenthesis]),
        Err(ParseError::UnexpectedEndOfInput)
    );
}

#[test]
fn trailing_operator_is_end_of_input() {
    assert_eq!(
        parse(&[Token::Number(1), Token::Asterisk]),
        Err(ParseError::UnexpectedEndOfInput)
    );
}

#[test]
fn wrong_token_in_place_of_closing_parenthesis() {
    let tokens = vec![
        Token::LeftParenthesis,
        Token::Number(2),
        Token::LeftParenthesis,
    ];
    assert_eq!(
        parse(&tokens),
        Err(ParseError::UnexpectedToken(Token::LeftParenthesis))
    );
}

#[test]
fn operator_in_operand_position_is_unexpected() {
    assert_eq!(
        parse(&[Token::Minus, Token::Number(3)]),
        Err(ParseError::UnexpectedToken(Token::Minus))
    );
}

#[test]
fn extra_closing_parenthesis_is_invalid_expression() {
    assert_eq!(
        parse(&[Token::Number(1), Token::RightParenthesis]),
        Err(ParseError::InvalidExpression)
    );
}

#[test]
fn fully_parenthesized_rendering_parses_back() {
    let tree = bin(
        Token::Slash,
        bin(Token::Minus, num(7), bin(Token::Plus, num(1), num(2))),
        num(0),
    );
    let tokens = tokenize(&String::from("((7 - (1 + 2)) / 0)")).unwrap();
    assert_eq!(parse(&tokens), Ok(*tree.clone()));
    assert_eq!(*tree.clone(), *tree);
}
