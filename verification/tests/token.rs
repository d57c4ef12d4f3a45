use mnky::ast::{BooleanLiteral, Expression, IdentifierLiteral, IntegerLiteral, Program};
use mnky::token::{lookup_ident, Token, TokenType};

#[test]
fn test_lookup_ident() {
    let id = lookup_ident(&String::from("xxx"));
    assert_eq!(id, TokenType::Ident);

    let id = lookup_ident(&String::from("fn"));
    assert_eq!(id, TokenType::Function);
}

#[test]
fn lookup_is_exact_and_case_sensitive() {
    assert_eq!(lookup_ident(&String::from("let")), TokenType::Let);
    assert_eq!(lookup_ident(&String::from("return")), TokenType::Return);
    assert_eq!(lookup_ident(&String::from("if")), TokenType::If);
    assert_eq!(lookup_ident(&String::from("else")), TokenType::Else);
    assert_eq!(lookup_ident(&String::from("true")), TokenType::True);
    assert_eq!(lookup_ident(&String::from("false")), TokenType::False);
    assert_eq!(lookup_ident(&String::from("Let")), TokenType::Ident);
    assert_eq!(lookup_ident(&String::from("lets")), TokenType::Ident);
    assert_eq!(lookup_ident(&String::from("")), TokenType::Ident);
}

#[test]
fn program_new_is_empty() {
    assert_eq!(Program::new().statements.len(), 0);
}

fn int_token(text: &str) -> Token {
    Token { type_: TokenType::Int, literal: String::from(text), row: 0, col: 1 }
}

#[test]
fn integer_literal_reads_decimal_value() {
    match IntegerLiteral::new(int_token("042")) {
        Expression::Integer(il) => {
            assert_eq!(il.value, 42);
            assert_eq!(il.token.literal, "042");
        },
        other => panic!("expected integer literal, got {:?}", other),
    }
    match IntegerLiteral::new(int_token("0")) {
        Expression::Integer(il) => assert_eq!(il.value, 0),
        other => panic!("expected integer literal, got {:?}", other),
    }
}

#[test]
fn boolean_literal_value_follows_kind() {
    let t = Token { type_: TokenType::True, literal: String::from("true"), row: 0, col: 1 };
    match BooleanLiteral::new(t) {
        Expression::Boolean(bl) => assert!(bl.value),
        other => panic!("expected boolean literal, got {:?}", other),
    }
    let f = Token { type_: TokenType::False, literal: String::from("false"), row: 0, col: 1 };
    match BooleanLiteral::new(f) {
        Expression::Boolean(bl) => assert!(!bl.value),
        other => panic!("expected boolean literal, got {:?}", other),
    }
}

#[test]
fn identifier_literal_keeps_text() {
    let t = Token { type_: TokenType::Ident, literal: String::from("foo"), row: 2, col: 7 };
    match IdentifierLiteral::new(t) {
        Expression::Identifier(il) => {
            assert_eq!(il.value, "foo");
            assert_eq!(il.token.row, 2);
            assert_eq!(il.token.col, 7);
        },
        other => panic!("expected identifier literal, got {:?}", other),
    }
}
