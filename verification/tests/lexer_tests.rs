use pscomp::lexer::{tokenise, Keyword, Position, Symbol, Token, TokenKind};

#[test]
fn test_tokenise_empty_string() {
    let tokens: Vec<Token> = tokenise("").into_vec();
    assert_eq!(tokens, vec![]);
}

#[test]
fn test_tokenise_whitespace() {
    let tokens: Vec<Token> = tokenise(" ").into_vec();
    assert_eq!(tokens, vec![]);
}

#[test]
fn test_tokenise_integer_and_plus_and_minus() {
    let tokens: Vec<Token> = tokenise("1 + 2 - 3").into_vec();
    assert_eq!(
        tokens,
        vec![
            Token::new(TokenKind::NumberLiteral("1".to_owned()), Position::new(1, 1)),
            Token::new(TokenKind::Symbol(Symbol::Plus), Position::new(3, 1)),
            Token::new(TokenKind::NumberLiteral("2".to_owned()), Position::new(5, 1)),
            Token::new(TokenKind::Symbol(Symbol::Minus), Position::new(7, 1)),
            Token::new(TokenKind::NumberLiteral("3".to_owned()), Position::new(9, 1)),
        ]
    );
}

#[test]
fn test_tokenise_string() {
    let tokens: Vec<Token> = tokenise("\"dummy\"").into_vec();
    assert_eq!(
        tokens,
        vec![Token::new(
            TokenKind::String("dummy".to_string()),
            Position::new(1, 1)
        ),]
    );
}

#[test]
fn test_tokenise_string_2() {
    let tokens: Vec<Token> = tokenise("'dummy'").into_vec();
    assert_eq!(
        tokens,
        vec![Token::new(
            TokenKind::String("dummy".to_string()),
            Position::new(1, 1)
        ),]
    );
}

#[test]
fn test_tokenise_assign() {
    let tokens: Vec<Token> = tokenise("a = 1").into_vec();
    assert_eq!(
        tokens,
        vec![
            Token::new(TokenKind::Identifier("a".to_string()), Position::new(1, 1)),
            Token::new(TokenKind::Symbol(Symbol::Equal), Position::new(3, 1)),
            Token::new(TokenKind::NumberLiteral("1".to_owned()), Position::new(5, 1)),
        ]
    )
}

#[test]
fn test_tokenise_if() {
    let tokens: Vec<Token> = tokenise("if (1) { 2 } else { 3 }").into_vec();
    assert_eq!(
        tokens,
        vec![
            Token::new(TokenKind::Keyword(Keyword::If), Position::new(1, 1)),
            Token::new(
                TokenKind::Symbol(Symbol::ParenthesisLeft),
                Position::new(4, 1)
            ),
            Token::new(TokenKind::NumberLiteral("1".to_owned()), Position::new(5, 1)),
            Token::new(
                TokenKind::Symbol(Symbol::ParenthesisRight),
                Position::new(6, 1)
            ),
            Token::new(TokenKind::Symbol(Symbol::BraceLeft), Position::new(8, 1)),
            Token::new(TokenKind::NumberLiteral("2".to_owned()), Position::new(10, 1)),
            Token::new(TokenKind::Symbol(Symbol::BraceRight), Position::new(12, 1)),
            Token::new(TokenKind::Keyword(Keyword::Else), Position::new(14, 1)),
            Token::new(TokenKind::Symbol(Symbol::BraceLeft), Position::new(19, 1)),
            Token::new(TokenKind::NumberLiteral("3".to_owned()), Position::new(21, 1)),
            Token::new(TokenKind::Symbol(Symbol::BraceRight), Position::new(23, 1)),
        ]
    )
}

#[test]
fn test_tokenise_gt() {
    let tokens: Vec<Token> = tokenise("if (1 > 2) { 2 } else { 3 }").into_vec();
    assert_eq!(
        tokens,
        vec![
            Token::new(TokenKind::Keyword(Keyword::If), Position::new(1, 1)),
            Token::new(
                TokenKind::Symbol(Symbol::ParenthesisLeft),
                Position::new(4, 1)
            ),
            Token::new(TokenKind::NumberLiteral("1".to_owned()), Position::new(5, 1)),
            Token::new(TokenKind::Symbol(Symbol::GreaterThan), Position::new(7, 1)),
            Token::new(TokenKind::NumberLiteral("2".to_owned()), Position::new(9, 1)),
            Token::new(
                TokenKind::Symbol(Symbol::ParenthesisRight),
                Position::new(10, 1)
            ),
            Token::new(TokenKind::Symbol(Symbol::BraceLeft), Position::new(12, 1)),
            Token::new(TokenKind::NumberLiteral("2".to_owned()), Position::new(14, 1)),
            Token::new(TokenKind::Symbol(Symbol::BraceRight), Position::new(16, 1)),
            Token::new(TokenKind::Keyword(Keyword::Else), Position::new(18, 1)),
            Token::new(TokenKind::Symbol(Symbol::BraceLeft), Position::new(23, 1)),
            Token::new(TokenKind::NumberLiteral("3".to_owned()), Position::new(25, 1)),
            Token::new(TokenKind::Symbol(Symbol::BraceRight), Position::new(27, 1)),
        ]
    )
}

#[test]
fn test_tokenise_caret() {
    let tokens: Vec<Token> = tokenise("a ^= 10;").into_vec();
    assert_eq!(
        tokens,
        vec![
            Token::new(TokenKind::Identifier("a".to_string()), Position::new(1, 1)),
            Token::new(TokenKind::Symbol(Symbol::Caret), Position::new(3, 1)),
            Token::new(TokenKind::Symbol(Symbol::Equal), Position::new(4, 1)),
            Token::new(TokenKind::NumberLiteral("10".to_owned()), Position::new(6, 1)),
            Token::new(TokenKind::Symbol(Symbol::Semicolon), Position::new(8, 1)),
        ]
    )
}

#[test]
fn test_tokenise_vertical_bar() {
    let tokens: Vec<Token> = tokenise("a |= 10;").into_vec();
    assert_eq!(
        tokens,
        vec![
            Token::new(TokenKind::Identifier("a".to_string()), Position::new(1, 1)),
            Token::new(TokenKind::Symbol(Symbol::VerticalBar), Position::new(3, 1)),
            Token::new(TokenKind::Symbol(Symbol::Equal), Position::new(4, 1)),
            Token::new(TokenKind::NumberLiteral("10".to_owned()), Position::new(6, 1)),
            Token::new(TokenKind::Symbol(Symbol::Semicolon), Position::new(8, 1)),
        ]
    )
}

#[test]
fn test_tokenise_percent() {
    let tokens: Vec<Token> = tokenise("a %= 10;").into_vec();
    assert_eq!(
        tokens,
        vec![
            Token::new(TokenKind::Identifier("a".to_string()), Position::new(1, 1)),
            Token::new(TokenKind::Symbol(Symbol::Percent), Position::new(3, 1)),
            Token::new(TokenKind::Symbol(Symbol::Equal), Position::new(4, 1)),
            Token::new(TokenKind::NumberLiteral("10".to_owned()), Position::new(6, 1)),
            Token::new(TokenKind::Symbol(Symbol::Semicolon), Position::new(8, 1)),
        ]
    )
}

#[test]
fn test_tokenise_lt() {
    let tokens: Vec<Token> = tokenise("if (1 < 2) { 2 } else { 3 }").into_vec();
    assert_eq!(
        tokens,
        vec![
            Token::new(TokenKind::Keyword(Keyword::If), Position::new(1, 1)),
            Token::new(
                TokenKind::Symbol(Symbol::ParenthesisLeft),
                Position::new(4, 1)
            ),
            Token::new(TokenKind::NumberLiteral("1".to_owned()), Position::new(5, 1)),
            Token::new(TokenKind::Symbol(Symbol::LesserThan), Position::new(7, 1)),
            Token::new(TokenKind::NumberLiteral("2".to_owned()), Position::new(9, 1)),
            Token::new(
                TokenKind::Symbol(Symbol::ParenthesisRight),
                Position::new(10, 1)
            ),
            Token::new(TokenKind::Symbol(Symbol::BraceLeft), Position::new(12, 1)),
            Token::new(TokenKind::NumberLiteral("2".to_owned()), Position::new(14, 1)),
            Token::new(TokenKind::Symbol(Symbol::BraceRight), Position::new(16, 1)),
            Token::new(TokenKind::Keyword(Keyword::Else), Position::new(18, 1)),
            Token::new(TokenKind::Symbol(Symbol::BraceLeft), Position::new(23, 1)),
            Token::new(TokenKind::NumberLiteral("3".to_owned()), Position::new(25, 1)),
            Token::new(TokenKind::Symbol(Symbol::BraceRight), Position::new(27, 1)),
        ]
    )
}

#[test]
fn test_tokenise_while() {
    let tokens: Vec<Token> = tokenise("while (1) return 2;").into_vec();
    assert_eq!(
        tokens,
        vec![
            Token::new(TokenKind::Keyword(Keyword::While), Position::new(1, 1)),
            Token::new(
                TokenKind::Symbol(Symbol::ParenthesisLeft),
                Position::new(7, 1)
            ),
            Token::new(TokenKind::NumberLiteral("1".to_owned()), Position::new(8, 1)),
            Token::new(
                TokenKind::Symbol(Symbol::ParenthesisRight),
                Position::new(9, 1)
            ),
            Token::new(TokenKind::Keyword(Keyword::Return), Position::new(11, 1)),
            Token::new(TokenKind::NumberLiteral("2".to_owned()), Position::new(18, 1)),
            Token::new(TokenKind::Symbol(Symbol::Semicolon), Position::new(19, 1)),
        ]
    )
}

#[test]
fn test_tokenise_new_line() {
    let tokens: Vec<Token> = tokenise("1\n;").into_vec();
    assert_eq!(
        tokens,
        vec![
            Token::new(TokenKind::NumberLiteral("1".to_owned()), Position::new(1, 1)),
            Token::new(TokenKind::Symbol(Symbol::Semicolon), Position::new(1, 2)),
        ]
    );
}

#[test]
fn test_tokenise_float() {
    let tokens: Vec<Token> = tokenise("1.342\n;").into_vec();
    assert_eq!(
        tokens,
        vec![
            Token::new(TokenKind::NumberLiteral("1.342".to_owned()), Position::new(1, 1)),
            Token::new(TokenKind::Symbol(Symbol::Semicolon), Position::new(1, 2)),
        ]
    );
}

#[test]
fn test_tokenises_division() {
    let tokens: Vec<Token> =
        tokenise("//this is a comment\nwhile (2 / 2 == 1) return 2;").into_vec();
    assert_eq!(
        tokens,
        vec![
            Token::new(TokenKind::Keyword(Keyword::While), Position::new(1, 2)),
            Token::new(
                TokenKind::Symbol(Symbol::ParenthesisLeft),
                Position::new(7, 2)
            ),
            Token::new(TokenKind::NumberLiteral("2".to_owned()), Position::new(8, 2)),
            Token::new(TokenKind::Symbol(Symbol::Slash), Position::new(10, 2)),
            Token::new(TokenKind::NumberLiteral("2".to_owned()), Position::new(12, 2)),
            Token::new(TokenKind::Symbol(Symbol::Equal), Position::new(14, 2)),
            Token::new(TokenKind::Symbol(Symbol::Equal), Position::new(15, 2)),
            Token::new(TokenKind::NumberLiteral("1".to_owned()), Position::new(17, 2)),
            Token::new(
                TokenKind::Symbol(Symbol::ParenthesisRight),
                Position::new(18, 2)
            ),
            Token::new(TokenKind::Keyword(Keyword::Return), Position::new(20, 2)),
            Token::new(TokenKind::NumberLiteral("2".to_owned()), Position::new(27, 2)),
            Token::new(TokenKind::Symbol(Symbol::Semicolon), Position::new(28, 2)),
        ]
    );
}

#[test]
fn test_doesnt_tokenise_comments() {
    let tokens: Vec<Token> = tokenise("//this is a comment\nwhile (1) return 2;").into_vec();
    assert_eq!(
        tokens,
        vec![
            Token::new(TokenKind::Keyword(Keyword::While), Position::new(1, 2)),
            Token::new(
                TokenKind::Symbol(Symbol::ParenthesisLeft),
                Position::new(7, 2)
            ),
            Token::new(TokenKind::NumberLiteral("1".to_owned()), Position::new(8, 2)),
            Token::new(
                TokenKind::Symbol(Symbol::ParenthesisRight),
                Position::new(9, 2)
            ),
            Token::new(TokenKind::Keyword(Keyword::Return), Position::new(11, 2)),
            Token::new(TokenKind::NumberLiteral("2".to_owned()), Position::new(18, 2)),
            Token::new(TokenKind::Symbol(Symbol::Semicolon), Position::new(19, 2)),
        ]
    );
}

#[test]
fn test_doesnt_tokenise_multiline_comments() {
    let tokens: Vec<Token> = tokenise("/*this is a comment*/\nwhile (1) return 2;").into_vec();
    assert_eq!(
        tokens,
        vec![
            Token::new(TokenKind::Keyword(Keyword::While), Position::new(1, 2)),
            Token::new(
                TokenKind::Symbol(Symbol::ParenthesisLeft),
                Position::new(7, 2)
            ),
            Token::new(TokenKind::NumberLiteral("1".to_owned()), Position::new(8, 2)),
            Token::new(
                TokenKind::Symbol(Symbol::ParenthesisRight),
                Position::new(9, 2)
            ),
            Token::new(TokenKind::Keyword(Keyword::Return), Position::new(11, 2)),
            Token::new(TokenKind::NumberLiteral("2".to_owned()), Position::new(18, 2)),
            Token::new(TokenKind::Symbol(Symbol::Semicolon), Position::new(19, 2)),
        ]
    );
}

#[test]
fn test_doesnt_tokenise_multiline_comments_2() {
    let tokens: Vec<Token> =
        tokenise("/*this\nis\na\nmultiline\ncomment*/\nwhile (1) return 2;").into_vec();
    assert_eq!(
        tokens,
        vec![
            Token::new(TokenKind::Keyword(Keyword::While), Position::new(1, 6)),
            Token::new(
                TokenKind::Symbol(Symbol::ParenthesisLeft),
                Position::new(7, 6)
            ),
            Token::new(TokenKind::NumberLiteral("1".to_owned()), Position::new(8, 6)),
            Token::new(
                TokenKind::Symbol(Symbol::ParenthesisRight),
                Position::new(9, 6)
            ),
            Token::new(TokenKind::Keyword(Keyword::Return), Position::new(11, 6)),
            Token::new(TokenKind::NumberLiteral("2".to_owned()), Position::new(18, 6)),
            Token::new(TokenKind::Symbol(Symbol::Semicolon), Position::new(19, 6)),
        ]
    );
}

#[test]
fn test_doesnt_tokenise_multiline_comments_with_random_asterisks() {
    let tokens: Vec<Token> =
        tokenise("/*this\n *is\na\n*multiline*\ncomment*/\nwhile (1) return 2;").into_vec();
    assert_eq!(
        tokens,
        vec![
            Token::new(TokenKind::Keyword(Keyword::While), Position::new(1, 6)),
            Token::new(
                TokenKind::Symbol(Symbol::ParenthesisLeft),
                Position::new(7, 6)
            ),
            Token::new(TokenKind::NumberLiteral("1".to_owned()), Position::new(8, 6)),
            Token::new(
                TokenKind::Symbol(Symbol::ParenthesisRight),
                Position::new(9, 6)
            ),
            Token::new(TokenKind::Keyword(Keyword::Return), Position::new(11, 6)),
            Token::new(TokenKind::NumberLiteral("2".to_owned()), Position::new(18, 6)),
            Token::new(TokenKind::Symbol(Symbol::Semicolon), Position::new(19, 6)),
        ]
    );
}

#[test]
fn test_tokenise_for() {
    let tokens: Vec<Token> = tokenise("for (i = 10; i; i = i - 1) 2;").into_vec();
    assert_eq!(
        tokens,
        vec![
            Token::new(TokenKind::Keyword(Keyword::For), Position::new(1, 1)),
            Token::new(
                TokenKind::Symbol(Symbol::ParenthesisLeft),
                Position::new(5, 1)
            ),
            Token::new(TokenKind::Identifier("i".to_string()), Position::new(6, 1)),
            Token::new(TokenKind::Symbol(Symbol::Equal), Position::new(8, 1)),
            Token::new(TokenKind::NumberLiteral("10".to_owned()), Position::new(10, 1)),
            Token::new(TokenKind::Symbol(Symbol::Semicolon), Position::new(12, 1)),
            Token::new(TokenKind::Identifier("i".to_string()), Position::new(14, 1)),
            Token::new(TokenKind::Symbol(Symbol::Semicolon), Position::new(15, 1)),
            Token::new(TokenKind::Identifier("i".to_string()), Position::new(17, 1)),
            Token::new(TokenKind::Symbol(Symbol::Equal), Position::new(19, 1)),
            Token::new(TokenKind::Identifier("i".to_string()), Position::new(21, 1)),
            Token::new(TokenKind::Symbol(Symbol::Minus), Position::new(23, 1)),
            Token::new(TokenKind::NumberLiteral("1".to_owned()), Position::new(25, 1)),
            Token::new(
                TokenKind::Symbol(Symbol::ParenthesisRight),
                Position::new(26, 1)
            ),
            Token::new(TokenKind::NumberLiteral("2".to_owned()), Position::new(28, 1)),
            Token::new(TokenKind::Symbol(Symbol::Semicolon), Position::new(29, 1)),
        ]
    )
}

#[test]
fn test_tokenise_integer_declaration() {
    let tokens: Vec<Token> = tokenise("let a: u16 = 54354;").into_vec();
    assert_eq!(
        tokens,
        vec![
            Token::new(TokenKind::Keyword(Keyword::Let), Position::new(1, 1)),
            Token::new(TokenKind::Identifier("a".to_string()), Position::new(5, 1)),
            Token::new(TokenKind::Symbol(Symbol::Colon), Position::new(6, 1)),
            Token::new(TokenKind::Keyword(Keyword::U16), Position::new(8, 1)),
            Token::new(TokenKind::Symbol(Symbol::Equal), Position::new(12, 1)),
            Token::new(TokenKind::NumberLiteral("54354".to_owned()), Position::new(14, 1)),
            Token::new(TokenKind::Symbol(Symbol::Semicolon), Position::new(19, 1)),
        ]
    );
}

#[test]
fn test_tokenise_array() {
    let tokens: Vec<Token> = tokenise("a[0]").into_vec();
    assert_eq!(
        tokens,
        vec![
            Token::new(TokenKind::Identifier("a".to_string()), Position::new(1, 1)),
            Token::new(TokenKind::Symbol(Symbol::BracketLeft), Position::new(2, 1)),
            Token::new(TokenKind::NumberLiteral("0".to_owned()), Position::new(3, 1)),
            Token::new(TokenKind::Symbol(Symbol::BracketRight), Position::new(4, 1)),
        ]
    );
}

#[test]
fn test_division_without_comment() {
    let tokens: Vec<Token> = tokenise("2 / 2").into_vec();
    assert_eq!(
        tokens,
        vec![
            Token::new(TokenKind::NumberLiteral("2".to_owned()), Position::new(1, 1)),
            Token::new(TokenKind::Symbol(Symbol::Slash), Position::new(3, 1)),
            Token::new(TokenKind::NumberLiteral("2".to_owned()), Position::new(5, 1)),
        ]
    );
}

#[test]
fn test_line_comment_emits_no_slash() {
    let tokens: Vec<Token> = tokenise("//c\n2").into_vec();
    assert_eq!(
        tokens,
        vec![Token::new(
            TokenKind::NumberLiteral("2".to_owned()),
            Position::new(1, 2)
        ),]
    );
}

#[test]
fn test_slash_at_end_of_input_is_division() {
    let tokens: Vec<Token> = tokenise("2/").into_vec();
    assert_eq!(
        tokens,
        vec![
            Token::new(TokenKind::NumberLiteral("2".to_owned()), Position::new(1, 1)),
            Token::new(TokenKind::Symbol(Symbol::Slash), Position::new(2, 1)),
        ]
    );
}

#[test]
fn test_empty_block_comment() {
    let tokens: Vec<Token> = tokenise("/**/2").into_vec();
    assert_eq!(
        tokens,
        vec![Token::new(
            TokenKind::NumberLiteral("2".to_owned()),
            Position::new(5, 1)
        ),]
    );
}

#[test]
fn test_unterminated_string_runs_to_end() {
    let tokens: Vec<Token> = tokenise("'ab").into_vec();
    assert_eq!(
        tokens,
        vec![Token::new(
            TokenKind::String("ab".to_string()),
            Position::new(1, 1)
        ),]
    );
}

#[test]
fn test_unterminated_block_comment_yields_nothing() {
    let tokens: Vec<Token> = tokenise("/*ab").into_vec();
    assert_eq!(tokens, vec![]);
}

#[test]
fn test_unrecognized_character_ends_stream() {
    let tokens: Vec<Token> = tokenise("a,b").into_vec();
    assert_eq!(
        tokens,
        vec![Token::new(
            TokenKind::Identifier("a".to_string()),
            Position::new(1, 1)
        ),]
    );
}

#[test]
fn test_mixed_quotes_copied_literally() {
    let tokens: Vec<Token> = tokenise("\"it's\"").into_vec();
    assert_eq!(
        tokens,
        vec![Token::new(
            TokenKind::String("it's".to_string()),
            Position::new(1, 1)
        ),]
    );
}

#[test]
fn test_string_spanning_newline_advances_line() {
    let tokens: Vec<Token> = tokenise("'a\nb';").into_vec();
    assert_eq!(
        tokens,
        vec![
            Token::new(TokenKind::String("a\nb".to_string()), Position::new(1, 1)),
            Token::new(TokenKind::Symbol(Symbol::Semicolon), Position::new(3, 2)),
        ]
    );
}

#[test]
fn test_number_literal_holds_at_most_one_dot() {
    let tokens: Vec<Token> = tokenise("1..").into_vec();
    assert_eq!(
        tokens,
        vec![Token::new(
            TokenKind::NumberLiteral("1.".to_owned()),
            Position::new(1, 1)
        ),]
    );
}

#[test]
fn test_second_dot_ends_number_literal() {
    let tokens: Vec<Token> = tokenise("1.2.3").into_vec();
    assert_eq!(
        tokens,
        vec![Token::new(
            TokenKind::NumberLiteral("1.2".to_owned()),
            Position::new(1, 1)
        ),]
    );
}
