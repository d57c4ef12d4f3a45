use mnky::lexer::Lexer;
use mnky::token::{Token, TokenType};
use mnky::token::TokenType as T;

fn tokens_of(input: &str) -> Vec<Token> {
    let input = String::from(input);
    let mut lexer = Lexer::new(&input);
    let mut out: Vec<Token> = Vec::new();
    while let Some(tok) = lexer.next() {
        out.push(tok);
    }
    out
}

fn kinds_and_literals(input: &str) -> Vec<(TokenType, String)> {
    tokens_of(input)
        .into_iter()
        .map(|t| (t.type_, t.literal))
        .collect()
}

#[test]
fn let_statement_scenario() {
    assert_eq!(
        kinds_and_literals("let five = 5;"),
        vec![
            (T::Let, String::from("let")),
            (T::Ident, String::from("five")),
            (T::Assign, String::from("=")),
            (T::Int, String::from("5")),
            (T::Semicolon, String::from(";")),
        ]
    );
}

#[test]
fn equality_scenario() {
    assert_eq!(
        kinds_and_literals("10 == 10;"),
        vec![
            (T::Int, String::from("10")),
            (T::Eq, String::from("==")),
            (T::Int, String::from("10")),
            (T::Semicolon, String::from(";")),
        ]
    );
}

#[test]
fn greedy_operators() {
    assert_eq!(
        kinds_and_literals("=="),
        vec![(T::Eq, String::from("=="))]
    );
    assert_eq!(
        kinds_and_literals("!="),
        vec![(T::NotEq, String::from("!="))]
    );
    assert_eq!(
        kinds_and_literals("= ="),
        vec![(T::Assign, String::from("=")), (T::Assign, String::from("="))]
    );
    assert_eq!(
        kinds_and_literals("! ="),
        vec![(T::Bang, String::from("!")), (T::Assign, String::from("="))]
    );
}

#[test]
fn unterminated_string_halts() {
    let input = String::from("\"fooo\n\n");
    let mut lexer = Lexer::new(&input);
    let tok = lexer.next().expect("one token");
    assert_eq!(tok.type_, TokenType::Illegal);
    assert_eq!(tok.literal, "\"fooo\n\n");
    assert!(lexer.next().is_none());
    assert!(lexer.next().is_none());
}

#[test]
fn string_round_trip() {
    let cases = ["\"\"", "\"foobar\"", "\"foo bar\"", "\"foo \\\"bar\"", "\"a\nb\""];
    for case in cases {
        let toks = kinds_and_literals(case);
        assert_eq!(toks, vec![(TokenType::Str, String::from(case))]);
    }
}

#[test]
fn keyword_table_partition() {
    let cases = [
        ("fn", T::Function),
        ("let", T::Let),
        ("return", T::Return),
        ("if", T::If),
        ("else", T::Else),
        ("true", T::True),
        ("false", T::False),
        ("fns", T::Ident),
        ("lets", T::Ident),
        ("truex", T::Ident),
        ("Fn", T::Ident),
        ("le", T::Ident),
        ("x_1", T::Ident),
    ];
    for (word, kind) in cases {
        let toks = kinds_and_literals(word);
        assert_eq!(toks, vec![(kind, String::from(word))]);
    }
}

#[test]
fn punctuation_direct() {
    let toks = kinds_and_literals("; ( ) , + { } - / * < > [ ] :");
    let kinds: Vec<TokenType> = toks.iter().map(|p| p.0).collect();
    assert_eq!(
        kinds,
        vec![
            T::Semicolon,
            T::LParen,
            T::RParen,
            T::Comma,
            T::Plus,
            T::LBrace,
            T::RBrace,
            T::Minus,
            T::Slash,
            T::Asterisk,
            T::LT,
            T::GT,
            T::LBracket,
            T::RBracket,
            T::Colon,
        ]
    );
    for (i, ch) in ";(),+{}-/*<>[]:".chars().enumerate() {
        assert_eq!(toks[i].1, ch.to_string());
    }
}

#[test]
fn whitespace_changes_positions_only() {
    let tight = kinds_and_literals("let x = 1;");
    let loose = kinds_and_literals("  let\tx\n =  1 ;\n");
    assert_eq!(tight, loose);
}

#[test]
fn illegal_character_then_recovery() {
    assert_eq!(
        kinds_and_literals("@;"),
        vec![(T::Illegal, String::from("@")), (T::Semicolon, String::from(";"))]
    );
}

#[test]
fn rows_and_columns() {
    let toks = tokens_of("ab c\nde");
    assert_eq!(toks.len(), 3);
    assert_eq!((toks[0].row, toks[0].col), (0, 1));
    assert_eq!((toks[1].row, toks[1].col), (0, 4));
    assert_eq!((toks[2].row, toks[2].col), (1, 1));
}

#[test]
fn token_new_is_blank_illegal() {
    let tok = Token::new();
    assert_eq!(tok.type_, TokenType::Illegal);
    assert_eq!(tok.literal, "");
    assert_eq!(tok.row, 0);
    assert_eq!(tok.col, 0);
}
