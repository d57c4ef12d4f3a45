//! Tokens: the classified lexical units produced by the tokenizer, and the
//! fixed keyword table that separates reserved words from identifiers.

use vstd::prelude::*;

verus! {

/// The closed set of lexical categories.
///
/// `Illegal` is the error sentinel: it marks a character that no rule
/// matches, or a string literal left unterminated at end of input. There is
/// no end-of-input kind; exhaustion is signalled by the pull operation
/// returning no token at all.
#[derive(Debug, PartialEq, Eq, Copy, Clone, Structural)]
pub enum TokenType {
    Illegal,
    Ident,
    Int,
    Str,
    Assign,
    Plus,
    Minus,
    Bang,
    Asterisk,
    Slash,
    LT,
    GT,
    Eq,
    NotEq,
    Comma,
    Semicolon,
    Colon,
    LParen,
    RParen,
    LBrace,
    RBrace,
    LBracket,
    RBracket,
    Function,
    Let,
    True,
    False,
    If,
    Else,
    Return,
}

/// The mathematical value of a token: its kind, the exact run of source
/// characters it consumed, and the row and column of its first character.
#[verifier::ext_equal]
pub struct TokenView {
    pub type_: TokenType,
    pub literal: Seq<char>,
    pub row: nat,
    pub col: nat,
}

/// One classified lexical unit.
///
/// `literal` is the exact substring of source text consumed to produce the
/// token, never a normalized or truncated form. `row` counts consumed
/// newlines starting at 0; `col` is the 1-based column of the token's first
/// character, counted in characters.
#[derive(Debug, PartialEq)]
pub struct Token {
    pub type_: TokenType,
    pub literal: String,
    pub row: usize,
    pub col: usize,
}

impl View for Token {
    type V = TokenView;

    open spec fn view(&self) -> TokenView {
        TokenView {
            type_: self.type_,
            literal: self.literal@,
            row: self.row as nat,
            col: self.col as nat,
        }
    }
}

impl Token {
    /// A blank token: kind `Illegal`, empty text, position (0, 0).
    pub fn new() -> (t: Token)
        ensures
            t.type_ == TokenType::Illegal,
            t.literal@ == Seq::<char>::empty(),
            t.row == 0,
            t.col == 0,
    {
        Token { row: 0, col: 0, type_: TokenType::Illegal, literal: String::new() }
    }
}

/// The keyword table as a function: the seven reserved words map to their
/// keyword kinds, every other text to `Ident`. Exact, case-sensitive match.
pub open spec fn spec_lookup(s: Seq<char>) -> TokenType {
    if s == "fn"@ {
        TokenType::Function
    } else if s == "let"@ {
        TokenType::Let
    } else if s == "return"@ {
        TokenType::Return
    } else if s == "if"@ {
        TokenType::If
    } else if s == "else"@ {
        TokenType::Else
    } else if s == "true"@ {
        TokenType::True
    } else if s == "false"@ {
        TokenType::False
    } else {
        TokenType::Ident
    }
}

/// Classifies identifier text: a reserved word yields its keyword kind,
/// anything else yields `Ident`.
pub fn lookup_ident(ident: &String) -> (t: TokenType)
    ensures
        t == spec_lookup(ident@),
{
    if *ident == "fn".to_owned() {
        TokenType::Function
    } else if *ident == "let".to_owned() {
        TokenType::Let
    } else if *ident == "return".to_owned() {
        TokenType::Return
    } else if *ident == "if".to_owned() {
        TokenType::If
    } else if *ident == "else".to_owned() {
        TokenType::Else
    } else if *ident == "true".to_owned() {
        TokenType::True
    } else if *ident == "false".to_owned() {
        TokenType::False
    } else {
        TokenType::Ident
    }
}

} // verus!
