use expr_parser::lexer::{tokenize, Token};

#[test]
fn lexer_test_simple_expression() {
    let input = String::from("2 + (3 * 4)");
    let result = tokenize(&input).unwrap();

    assert_eq!(
        result,
        vec![
            Token::Number(2),
            Token::Plus,
            Token::LeftParenthesis,
            Token::Number(3),
            Token::Asterisk,
            Token::Number(4),
            Token::RightParenthesis,
        ]
    );
}

#[test]
fn test_expression_with_long_digits() {
    let input = String::from("12 - 456 / 1234");
    let result = tokenize(&input).unwrap();

    assert_eq!(
        result,
        vec![
            Token::Number(12),
            Token::Minus,
            Token::Number(456),
            Token::Slash,
            Token::Number(1234),
        ]
    );
}

#[test]
fn test_invalid_character() {
    let input = String::from("2 & 4");
    let result = tokenize(&input);

    assert_eq!(result, Err("Invalid character: &".to_string()));
}

#[test]
fn empty_input_gives_no_tokens() {
    assert_eq!(tokenize(&String::new()), Ok(vec![]));
}

#[test]
fn whitespace_only_gives_no_tokens() {
    assert_eq!(tokenize(&String::from(" \t\n  ")), Ok(vec![]));
}

#[test]
fn adjacent_tokens_need_no_spaces() {
    assert_eq!(
        tokenize(&String::from("(7)-08/10")),
        Ok(vec![
            Token::LeftParenthesis,
            Token::Number(7),
            Token::RightParenthesis,
            Token::Minus,
            Token::Number(8),
            Token::Slash,
            Token::Number(10),
        ])
    );
}

#[test]
fn first_invalid_character_is_reported() {
    assert_eq!(
        tokenize(&String::from("1 + x $")),
        Err("Invalid character: x".to_string())
    );
}

#[test]
fn non_ascii_character_is_reported() {
    assert_eq!(
        tokenize(&String::from("3 × 4")),
        Err("Invalid character: ×".to_string())
    );
}

#[test]
fn largest_number_is_accepted() {
    assert_eq!(
        tokenize(&String::from("9223372036854775807")),
        Ok(vec![Token::Number(i64::MAX)])
    );
}

#[test]
fn number_past_i64_is_an_error() {
    assert_eq!(
        tokenize(&String::from("1 + 9223372036854775808 * 2")),
        Err("Number out of range: 9223372036854775808".to_string())
    );
}

#[test]
fn very_long_number_is_an_error() {
    assert_eq!(
        tokenize(&String::from("123456789012345678901234567890)")),
        Err("Number out of range: 123456789012345678901234567890".to_string())
    );
}
