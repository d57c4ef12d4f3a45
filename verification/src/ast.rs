//! Abstract syntax for the bare literal expressions the parser handles,
//! with a verified decimal reader for integer literals.

use vstd::prelude::*;

use crate::lexer::spec_is_digit;
use crate::token::{Token, TokenType, TokenView};
use vstd::string::StrSliceExecFns;

verus! {

/// The mathematical value of an expression: which literal it is, the token
/// it came from, and the parsed value.
pub enum ExprView {
    Integer { token: TokenView, value: int },
    Boolean { token: TokenView, value: bool },
    Identifier { token: TokenView, value: Seq<char> },
}

/// A statement: either a braced block or a bare expression statement.
#[derive(Debug)]
pub enum Statement {
    Block(BlockStatement),
    Expression(ExpressionStatement),
}

/// An expression: one of the three literal forms.
#[derive(Debug)]
pub enum Expression {
    Integer(IntegerLiteral),
    Boolean(BooleanLiteral),
    Identifier(IdentifierLiteral),
}

/// A whole parsed program: its statements in order.
#[derive(Debug)]
pub struct Program {
    pub statements: Vec<Statement>,
}

/// A braced sequence of statements, with the token that opened it.
#[derive(Debug)]
pub struct BlockStatement {
    pub token: Token,
    pub statements: Vec<Statement>,
}

/// A statement that consists of a single expression.
#[derive(Debug)]
pub struct ExpressionStatement {
    pub expression: Expression,
}

/// An integer literal: its token and the decimal value of its text.
#[derive(Debug)]
pub struct IntegerLiteral {
    pub token: Token,
    pub value: isize,
}

/// A boolean literal: its token and whether that token was `true`.
#[derive(Debug)]
pub struct BooleanLiteral {
    pub token: Token,
    pub value: bool,
}

/// An identifier: its token and the identifier text.
#[derive(Debug)]
pub struct IdentifierLiteral {
    pub token: Token,
    pub value: String,
}

impl View for Expression {
    type V = ExprView;

    open spec fn view(&self) -> ExprView {
        match self {
            Expression::Integer(il) => ExprView::Integer {
                token: il.token@,
                value: il.value as int,
            },
            Expression::Boolean(bl) => ExprView::Boolean { token: bl.token@, value: bl.value },
            Expression::Identifier(idl) => ExprView::Identifier {
                token: idl.token@,
                value: idl.value@,
            },
        }
    }
}

/// The numeric value of one decimal digit.
pub open spec fn digit_val(c: char) -> nat
    recommends
        spec_is_digit(c),
{
    ((c as int) - 0x30) as nat
}

/// The value of a decimal digit string, most significant digit first.
pub open spec fn dec_val(s: Seq<char>) -> nat
    decreases s.len(),
{
    if s.len() == 0 {
        0
    } else {
        (dec_val(s.drop_last()) * 10 + digit_val(s.last())) as nat
    }
}

/// Every prefix of a digit string is worth no more than the whole string.
pub proof fn lemma_dec_val_prefix_le(s: Seq<char>, i: int)
    requires
        0 <= i <= s.len(),
        forall|j: int| 0 <= j < s.len() ==> spec_is_digit(#[trigger] s[j]),
    ensures
        dec_val(s.take(i)) <= dec_val(s),
    decreases s.len() - i,
{
    if i == s.len() {
        assert(s.take(i) =~= s);
    } else {
        assert(s.take(i + 1).drop_last() =~= s.take(i));
        assert(s.take(i + 1).last() == s[i]);
        assert(dec_val(s.take(i)) <= dec_val(s.take(i)) * 10 + digit_val(s[i]));
        lemma_dec_val_prefix_le(s, i + 1);
    }
}

/// Reads a string of decimal digits as a non-negative `isize`.
fn parse_decimal(s: &String) -> (v: isize)
    requires
        forall|j: int| 0 <= j < s@.len() ==> spec_is_digit(#[trigger] s@[j]),
        dec_val(s@) <= isize::MAX as int,
    ensures
        v == dec_val(s@),
{
    let n = s.as_str().unicode_len();
    let mut v: isize = 0;
    let mut i: usize = 0;
    proof {
        assert(s@.take(0) =~= Seq::<char>::empty());
    }
    while i < n
        invariant
            n == s@.len(),
            i <= n,
            forall|j: int| 0 <= j < s@.len() ==> spec_is_digit(#[trigger] s@[j]),
            dec_val(s@) <= isize::MAX as int,
            0 <= v,
            v == dec_val(s@.take(i as int)),
        decreases n - i,
    {
        let c = s.as_str().get_char(i);
        proof {
            assert(s@.take(i + 1).drop_last() =~= s@.take(i as int));
            assert(s@.take(i + 1).last() == s@[i as int]);
            lemma_dec_val_prefix_le(s@, i + 1);
        }
        let d = (c as u32) - 0x30;
        v = v * 10 + (d as isize);
        i = i + 1;
    }
    proof {
        assert(s@.take(n as int) =~= s@);
    }
    v
}

impl Program {
    /// An empty program.
    pub fn new() -> (p: Program)
        ensures
            p.statements@ == Seq::<Statement>::empty(),
    {
        let p = Program { statements: Vec::new() };
        proof {
            assert(p.statements@ =~= Seq::<Statement>::empty());
        }
        p
    }
}

impl IntegerLiteral {
    /// Wraps an integer token, reading its digit text as the value.
    pub fn new(token: Token) -> (e: Expression)
        requires
            token.literal@.len() > 0,
            forall|j: int| 0 <= j < token.literal@.len() ==> spec_is_digit(#[trigger] token.literal@[j]),
            dec_val(token.literal@) <= isize::MAX as int,
        ensures
            match e {
                Expression::Integer(il) => il.token == token && il.value == dec_val(
                    token.literal@,
                ),
                _ => false,
            },
    {
        Expression::Integer(IntegerLiteral { value: parse_decimal(&token.literal), token })
    }
}

impl BooleanLiteral {
    /// Wraps a keyword token as a boolean literal: the value is whether the
    /// token is the `true` keyword.
    pub fn new(token: Token) -> (e: Expression)
        ensures
            match e {
                Expression::Boolean(bl) => bl.token == token && bl.value == (token.type_
                    == TokenType::True),
                _ => false,
            },
    {
        Expression::Boolean(
            BooleanLiteral {
                value: if token.type_ == TokenType::True {
                    true
                } else {
                    false
                },
                token,
            },
        )
    }
}

impl IdentifierLiteral {
    /// Wraps an identifier token, keeping its text as the value.
    pub fn new(token: Token) -> (e: Expression)
        ensures
            match e {
                Expression::Identifier(il) => il.token == token && il.value@ == token.literal@,
                _ => false,
            },
    {
        Expression::Identifier(IdentifierLiteral { value: token.literal.clone(), token })
    }
}

} // verus!
