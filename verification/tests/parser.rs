use mnky::ast::{Expression, Statement};
use mnky::lexer::Lexer;
use mnky::parser::parse;
use mnky::token::TokenType;

#[test]
fn test_parser() {
    let input = String::from("true;");
    let lex = Lexer::new(&input);
    let p = parse(lex);
    println!("{:?}", p);
}

fn parse_str(input: &str) -> Vec<Statement> {
    let input = String::from(input);
    parse(Lexer::new(&input)).statements
}

#[test]
fn parses_integer_literal() {
    let stmts = parse_str("5;");
    assert_eq!(stmts.len(), 1);
    match &stmts[0] {
        Statement::Expression(es) => match &es.expression {
            Expression::Integer(il) => {
                assert_eq!(il.value, 5);
                assert_eq!(il.token.type_, TokenType::Int);
                assert_eq!(il.token.literal, "5");
            },
            other => panic!("expected integer literal, got {:?}", other),
        },
        other => panic!("expected expression statement, got {:?}", other),
    }
}

#[test]
fn parses_boolean_literal() {
    let stmts = parse_str("true;");
    assert_eq!(stmts.len(), 1);
    match &stmts[0] {
        Statement::Expression(es) => match &es.expression {
            Expression::Boolean(bl) => {
                assert!(bl.value);
                assert_eq!(bl.token.type_, TokenType::True);
            },
            other => panic!("expected boolean literal, got {:?}", other),
        },
        other => panic!("expected expression statement, got {:?}", other),
    }
}

#[test]
fn parses_identifier_literal() {
    let stmts = parse_str("foo;");
    assert_eq!(stmts.len(), 1);
    match &stmts[0] {
        Statement::Expression(es) => match &es.expression {
            Expression::Identifier(il) => {
                assert_eq!(il.value, "foo");
                assert_eq!(il.token.literal, "foo");
            },
            other => panic!("expected identifier literal, got {:?}", other),
        },
        other => panic!("expected expression statement, got {:?}", other),
    }
}

#[test]
fn skips_tokens_it_does_not_parse() {
    let stmts = parse_str("+ 5;");
    assert_eq!(stmts.len(), 1);
    match &stmts[0] {
        Statement::Expression(es) => match &es.expression {
            Expression::Integer(il) => assert_eq!(il.value, 5),
            other => panic!("expected integer literal, got {:?}", other),
        },
        other => panic!("expected expression statement, got {:?}", other),
    }
}

#[test]
fn parses_multiple_statements() {
    let stmts = parse_str("5; 7; x;");
    assert_eq!(stmts.len(), 3);
}

#[test]
fn parses_large_integer() {
    let stmts = parse_str("9007199254740993;");
    assert_eq!(stmts.len(), 1);
    match &stmts[0] {
        Statement::Expression(es) => match &es.expression {
            Expression::Integer(il) => assert_eq!(il.value, 9007199254740993),
            other => panic!("expected integer literal, got {:?}", other),
        },
        other => panic!("expected expression statement, got {:?}", other),
    }
}

#[test]
fn parses_empty_input_to_empty_program() {
    assert_eq!(parse_str("").len(), 0);
    assert_eq!(parse_str("   \n\t ").len(), 0);
}
