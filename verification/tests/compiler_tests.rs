use pscomp::compiler::{Compiler, CompilerErr, CompilerState, ValueType};
use pscomp::lexer::{tokenise, Keyword, Position, Symbol, Token, TokenKind};

fn kw(k: Keyword) -> Token {
    Token::new(TokenKind::Keyword(k), Position::new(1, 1))
}

fn sym(s: Symbol) -> Token {
    Token::new(TokenKind::Symbol(s), Position::new(1, 1))
}

fn ident(name: &str) -> Token {
    Token::new(TokenKind::Identifier(name.to_string()), Position::new(1, 1))
}

fn num(text: &str) -> Token {
    Token::new(TokenKind::NumberLiteral(text.to_string()), Position::new(1, 1))
}

#[test]
fn test_push_token_main_with_malleable_and_typed_params() {
    // function main(malleable a, b: u16) {
    let mut c = Compiler::new();
    assert_eq!(c.push_token(kw(Keyword::Function)), Ok(()));
    assert_eq!(c.push_token(ident("main")), Ok(()));
    assert_eq!(c.push_token(sym(Symbol::ParenthesisLeft)), Ok(()));
    assert_eq!(c.push_token(kw(Keyword::Malleable)), Ok(()));
    assert_eq!(c.bitmap(), &vec![0b0000_0001u8]);
    assert_eq!(c.malleable_count(), 1);
    assert_eq!(c.push_token(ident("a")), Ok(()));
    assert_eq!(c.push_token(sym(Symbol::Comma)), Ok(()));
    assert_eq!(c.push_token(ident("b")), Ok(()));
    assert_eq!(c.push_token(sym(Symbol::Colon)), Ok(()));
    assert_eq!(c.push_token(kw(Keyword::U16)), Ok(()));
    assert_eq!(c.push_token(sym(Symbol::ParenthesisRight)), Ok(()));
    assert_eq!(c.push_token(sym(Symbol::BraceLeft)), Ok(()));
    // frame 0 records the names and types; the malleable flag lives in
    // the bitmap, not in the type
    let frames = c.frames();
    assert_eq!(frames.len(), 1);
    assert_eq!(frames[0].index, 0);
    assert_eq!(frames[0].parameters.len(), 2);
    assert_eq!(frames[0].parameters[0].name, "a");
    assert_eq!(frames[0].parameters[0].vtype, ValueType::Any);
    assert_eq!(frames[0].parameters[1].name, "b");
    assert_eq!(frames[0].parameters[1].vtype, ValueType::U16);
    assert_eq!(c.bitmap(), &vec![0b0000_0001u8]);
    assert_eq!(c.state(), CompilerState::AwaitingDeclaration);
}

#[test]
fn test_nine_malleable_params_grow_bitmap_across_byte_boundary() {
    let mut c = Compiler::new();
    assert_eq!(c.push_token(kw(Keyword::Function)), Ok(()));
    assert_eq!(c.push_token(ident("main")), Ok(()));
    assert_eq!(c.push_token(sym(Symbol::ParenthesisLeft)), Ok(()));
    for i in 0..9 {
        if i > 0 {
            assert_eq!(c.push_token(sym(Symbol::Comma)), Ok(()));
        }
        assert_eq!(c.push_token(kw(Keyword::Malleable)), Ok(()));
        assert_eq!(c.push_token(ident("p")), Ok(()));
        if i == 7 {
            assert_eq!(c.bitmap(), &vec![0b1111_1111u8]);
        }
    }
    assert_eq!(c.malleable_count(), 9);
    // bit 8 lands in a second byte; byte 0 is preserved
    assert_eq!(c.bitmap(), &vec![0b1111_1111u8, 0b0000_0001u8]);
}

#[test]
fn test_duplicate_main_declaration_rejected() {
    let mut c = Compiler::new();
    assert_eq!(c.push_token(kw(Keyword::Function)), Ok(()));
    assert_eq!(c.push_token(ident("main")), Ok(()));
    assert_eq!(c.push_token(sym(Symbol::ParenthesisLeft)), Ok(()));
    assert_eq!(c.push_token(ident("a")), Ok(()));
    assert_eq!(c.push_token(sym(Symbol::ParenthesisRight)), Ok(()));
    assert_eq!(c.push_token(sym(Symbol::BraceLeft)), Ok(()));
    assert_eq!(c.push_token(kw(Keyword::Function)), Ok(()));
    let second_main = Token::new(
        TokenKind::Identifier("main".to_string()),
        Position::new(10, 3),
    );
    assert_eq!(
        c.push_token(second_main),
        Err(CompilerErr::DuplicateMainDeclaration(Position::new(10, 3)))
    );
    // the first declaration's frame is untouched
    let frames = c.frames();
    assert_eq!(frames.len(), 1);
    assert_eq!(frames[0].index, 0);
    assert_eq!(frames[0].parameters.len(), 1);
    assert_eq!(frames[0].parameters[0].name, "a");
    assert_eq!(c.state(), CompilerState::AwaitingFunctionIdentifier);
}

#[test]
fn test_error_leaves_state_unchanged_and_retry_succeeds() {
    let mut c = Compiler::new();
    assert_eq!(c.push_token(kw(Keyword::Function)), Ok(()));
    let bad = Token::new(
        TokenKind::NumberLiteral("7".to_string()),
        Position::new(4, 2),
    );
    assert_eq!(
        c.push_token(bad),
        Err(CompilerErr::ExpectedIdentifier(Position::new(4, 2)))
    );
    assert_eq!(c.state(), CompilerState::AwaitingFunctionIdentifier);
    // resubmitting a valid identifier succeeds as if nothing happened
    assert_eq!(c.push_token(ident("helper")), Ok(()));
    assert_eq!(c.state(), CompilerState::AwaitingLeftParen);
}

#[test]
fn test_compile_before_main_fails() {
    let c = Compiler::new();
    assert_eq!(c.compile(), Err(CompilerErr::MissingMainDeclaration));
}

#[test]
fn test_compile_hex_before_main_fails() {
    let c = Compiler::new();
    assert_eq!(c.compile_hex(), Err(CompilerErr::MissingMainDeclaration));
}

#[test]
fn test_expected_function_declaration() {
    let mut c = Compiler::new();
    let bad = Token::new(
        TokenKind::NumberLiteral("1".to_string()),
        Position::new(1, 1),
    );
    assert_eq!(
        c.push_token(bad),
        Err(CompilerErr::ExpectedFunctionDeclaration(Position::new(1, 1)))
    );
}

#[test]
fn test_expected_left_parenthesis() {
    let mut c = Compiler::new();
    assert_eq!(c.push_token(kw(Keyword::Function)), Ok(()));
    assert_eq!(c.push_token(ident("f")), Ok(()));
    assert_eq!(
        c.push_token(num("1")),
        Err(CompilerErr::ExpectedLeftParenthesis(Position::new(1, 1)))
    );
}

#[test]
fn test_malleable_outside_main_rejected() {
    let mut c = Compiler::new();
    assert_eq!(c.push_token(kw(Keyword::Function)), Ok(()));
    assert_eq!(c.push_token(ident("helper")), Ok(()));
    assert_eq!(c.push_token(sym(Symbol::ParenthesisLeft)), Ok(()));
    assert_eq!(
        c.push_token(kw(Keyword::Malleable)),
        Err(CompilerErr::ExpectedIdentifier(Position::new(1, 1)))
    );
    assert_eq!(c.malleable_count(), 0);
    assert_eq!(c.bitmap().len(), 0);
}

#[test]
fn test_expected_colon_comma_or_right_paren() {
    let mut c = Compiler::new();
    assert_eq!(c.push_token(kw(Keyword::Function)), Ok(()));
    assert_eq!(c.push_token(ident("main")), Ok(()));
    assert_eq!(c.push_token(sym(Symbol::ParenthesisLeft)), Ok(()));
    assert_eq!(c.push_token(ident("a")), Ok(()));
    assert_eq!(
        c.push_token(num("1")),
        Err(CompilerErr::ExpectedColonCommaOrRightParen(Position::new(1, 1)))
    );
}

#[test]
fn test_expected_type_keyword() {
    let mut c = Compiler::new();
    assert_eq!(c.push_token(kw(Keyword::Function)), Ok(()));
    assert_eq!(c.push_token(ident("main")), Ok(()));
    assert_eq!(c.push_token(sym(Symbol::ParenthesisLeft)), Ok(()));
    assert_eq!(c.push_token(ident("a")), Ok(()));
    assert_eq!(c.push_token(sym(Symbol::Colon)), Ok(()));
    // `let` is a keyword, but no type keyword
    assert_eq!(
        c.push_token(kw(Keyword::Let)),
        Err(CompilerErr::ExpectedTypeKeyword(Position::new(1, 1)))
    );
    assert_eq!(
        c.push_token(ident("u16")),
        Err(CompilerErr::ExpectedTypeKeyword(Position::new(1, 1)))
    );
}

#[test]
fn test_expected_comma_or_right_paren() {
    let mut c = Compiler::new();
    assert_eq!(c.push_token(kw(Keyword::Function)), Ok(()));
    assert_eq!(c.push_token(ident("main")), Ok(()));
    assert_eq!(c.push_token(sym(Symbol::ParenthesisLeft)), Ok(()));
    assert_eq!(c.push_token(ident("a")), Ok(()));
    assert_eq!(c.push_token(sym(Symbol::Colon)), Ok(()));
    assert_eq!(c.push_token(kw(Keyword::U8)), Ok(()));
    assert_eq!(
        c.push_token(sym(Symbol::Colon)),
        Err(CompilerErr::ExpectedCommaOrRightParen(Position::new(1, 1)))
    );
}

#[test]
fn test_expected_left_brace() {
    let mut c = Compiler::new();
    assert_eq!(c.push_token(kw(Keyword::Function)), Ok(()));
    assert_eq!(c.push_token(ident("main")), Ok(()));
    assert_eq!(c.push_token(sym(Symbol::ParenthesisLeft)), Ok(()));
    assert_eq!(c.push_token(sym(Symbol::ParenthesisRight)), Ok(()));
    assert_eq!(
        c.push_token(num("1")),
        Err(CompilerErr::ExpectedLeftBrace(Position::new(1, 1)))
    );
}

#[test]
fn test_compile_main_declaration_section() {
    // function main(malleable a, b: u16) {
    let mut c = Compiler::new();
    for t in [
        kw(Keyword::Function),
        ident("main"),
        sym(Symbol::ParenthesisLeft),
        kw(Keyword::Malleable),
        ident("a"),
        sym(Symbol::Comma),
        ident("b"),
        sym(Symbol::Colon),
        kw(Keyword::U16),
        sym(Symbol::ParenthesisRight),
        sym(Symbol::BraceLeft),
    ] {
        assert_eq!(c.push_token(t), Ok(()));
    }
    // parameter count, tag of `a` (default), tag of u16, bitmap byte
    assert_eq!(c.compile(), Ok(vec![0x02, 0x00, 0x02, 0x01]));
    assert_eq!(c.compile_hex(), Ok("02000201".to_string()));
}

#[test]
fn test_compile_orders_main_before_other_functions() {
    // function helper(x: decimal) { function main(a: u8) {
    let mut c = Compiler::new();
    for t in [
        kw(Keyword::Function),
        ident("helper"),
        sym(Symbol::ParenthesisLeft),
        ident("x"),
        sym(Symbol::Colon),
        kw(Keyword::Decimal),
        sym(Symbol::ParenthesisRight),
        sym(Symbol::BraceLeft),
        kw(Keyword::Function),
        ident("main"),
        sym(Symbol::ParenthesisLeft),
        ident("a"),
        sym(Symbol::Colon),
        kw(Keyword::U8),
        sym(Symbol::ParenthesisRight),
        sym(Symbol::BraceLeft),
    ] {
        assert_eq!(c.push_token(t), Ok(()));
    }
    let frames = c.frames();
    assert_eq!(frames.len(), 2);
    assert_eq!(frames[0].index, 1);
    assert_eq!(frames[1].index, 0);
    // main first: count 1, tag u8; then helper: index 1, count 1, tag decimal
    assert_eq!(c.compile(), Ok(vec![0x01, 0x01, 0x01, 0x01, 0x0f]));
    assert_eq!(c.compile_hex(), Ok("010101010f".to_string()));
}

#[test]
fn test_tokenise_feeds_parser_end_to_end() {
    let mut c = Compiler::new();
    let mut tokens = tokenise("function main(malleable amount: u64) {");
    while let Some(t) = tokens.next() {
        assert_eq!(c.push_token(t), Ok(()));
    }
    assert!(c.found_main());
    assert_eq!(c.malleable_count(), 1);
    // count 1, tag u64, bitmap 01
    assert_eq!(c.compile_hex(), Ok("010401".to_string()));
}
