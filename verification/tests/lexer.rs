use mnky::lexer::Lexer;
use mnky::token::TokenType;
use mnky::token::TokenType as T;

fn lex(input: &str, tokens: Vec<(TokenType, &str)>) {
    let input = String::from(input);
    let mut lexer = Lexer::new(&input);
    let mut actual_types: Vec<TokenType> = Vec::new();
    let mut actual_literals: Vec<String> = Vec::new();
    while let Some(tok) = lexer.next() {
        actual_types.push(tok.type_);
        actual_literals.push(tok.literal);
    }
    let mut expected_types: Vec<TokenType> = Vec::new();
    let mut expected_literals: Vec<String> = Vec::new();
    for (type_, literal) in tokens {
        expected_types.push(type_);
        expected_literals.push(String::from(literal));
    }
    assert_eq!(actual_types, expected_types);
    assert_eq!(actual_literals, expected_literals);
}

#[test]
fn lexer() {
    lex(
        "
let five = 5;
let ten = 10;
let add = fn(x, y) {
  x + y;
};
let result = add(five, ten);
!-/*5;
5 < 10 > 5;
if (5 < 10) {
	return true;
} else {
    return false;
}
10 == 10;
10 != 9;
\"foobar\"
\"foo bar\"
\"foo \\\"bar\"
[1, 2];
{\"foo\": \"bar\"}
",
        vec![
            (T::Let, "let"),
            (T::Ident, "five"),
            (T::Assign, "="),
            (T::Int, "5"),
            (T::Semicolon, ";"),
            (T::Let, "let"),
            (T::Ident, "ten"),
            (T::Assign, "="),
            (T::Int, "10"),
            (T::Semicolon, ";"),
            (T::Let, "let"),
            (T::Ident, "add"),
            (T::Assign, "="),
            (T::Function, "fn"),
            (T::LParen, "("),
            (T::Ident, "x"),
            (T::Comma, ","),
            (T::Ident, "y"),
            (T::RParen, ")"),
            (T::LBrace, "{"),
            (T::Ident, "x"),
            (T::Plus, "+"),
            (T::Ident, "y"),
            (T::Semicolon, ";"),
            (T::RBrace, "}"),
            (T::Semicolon, ";"),
            (T::Let, "let"),
            (T::Ident, "result"),
            (T::Assign, "="),
            (T::Ident, "add"),
            (T::LParen, "("),
            (T::Ident, "five"),
            (T::Comma, ","),
            (T::Ident, "ten"),
            (T::RParen, ")"),
            (T::Semicolon, ";"),
            (T::Bang, "!"),
            (T::Minus, "-"),
            (T::Slash, "/"),
            (T::Asterisk, "*"),
            (T::Int, "5"),
            (T::Semicolon, ";"),
            (T::Int, "5"),
            (T::LT, "<"),
            (T::Int, "10"),
            (T::GT, ">"),
            (T::Int, "5"),
            (T::Semicolon, ";"),
            (T::If, "if"),
            (T::LParen, "("),
            (T::Int, "5"),
            (T::LT, "<"),
            (T::Int, "10"),
            (T::RParen, ")"),
            (T::LBrace, "{"),
            (T::Return, "return"),
            (T::True, "true"),
            (T::Semicolon, ";"),
            (T::RBrace, "}"),
            (T::Else, "else"),
            (T::LBrace, "{"),
            (T::Return, "return"),
            (T::False, "false"),
            (T::Semicolon, ";"),
            (T::RBrace, "}"),
            (T::Int, "10"),
            (T::Eq, "=="),
            (T::Int, "10"),
            (T::Semicolon, ";"),
            (T::Int, "10"),
            (T::NotEq, "!="),
            (T::Int, "9"),
            (T::Semicolon, ";"),
            (T::Str, "\"foobar\""),
            (T::Str, "\"foo bar\""),
            (T::Str, "\"foo \\\"bar\""),
            (T::LBracket, "["),
            (T::Int, "1"),
            (T::Comma, ","),
            (T::Int, "2"),
            (T::RBracket, "]"),
            (T::Semicolon, ";"),
            (T::LBrace, "{"),
            (T::Str, "\"foo\""),
            (T::Colon, ":"),
            (T::Str, "\"bar\""),
            (T::RBrace, "}"),
        ],
    );
}

#[test]
fn nonterminated_string() {
    lex("\n\"fooo\n\n", vec![(TokenType::Illegal, "\"fooo\n\n")]);
}

#[test]
fn expression_statement() {
    lex("5;", vec![(TokenType::Int, "5"), (TokenType::Semicolon, ";")]);
}
