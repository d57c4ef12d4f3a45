//! A minimal parser over the token stream: bare literal expressions only
//! (integers, booleans, identifiers), each forming one expression
//! statement. Its behaviour is pinned by the mathematical [`spec_parse`].

use vstd::prelude::*;

use crate::ast::{
    dec_val, BooleanLiteral, ExprView, Expression, ExpressionStatement, IdentifierLiteral,
    IntegerLiteral, Program, Statement,
};
use crate::laws::{lemma_tokens_wf, token_wf};
use crate::lexer::Lexer;
use crate::token::{Token, TokenType, TokenView};

verus! {

/// The token kinds the expression parser accepts.
pub open spec fn parseable(ty: TokenType) -> bool {
    ty == TokenType::Int || ty == TokenType::True || ty == TokenType::Ident
}

/// The expression a single accepted token parses to.
pub open spec fn spec_expr_of(t: TokenView) -> ExprView {
    if t.type_ == TokenType::Int {
        ExprView::Integer { token: t, value: dec_val(t.literal) as int }
    } else if t.type_ == TokenType::True {
        ExprView::Boolean { token: t, value: true }
    } else {
        ExprView::Identifier { token: t, value: t.literal }
    }
}

/// What parsing a token stream produces, one expression per statement.
///
/// An accepted head token yields its expression; the token after it, of
/// whatever kind, is then consumed as the statement's terminator when one
/// remains. A rejected head token is consumed and yields nothing.
pub open spec fn spec_parse(ts: Seq<TokenView>) -> Seq<ExprView>
    decreases ts.len(),
{
    if ts.len() == 0 {
        Seq::empty()
    } else if parseable(ts[0].type_) {
        if ts.len() == 1 {
            seq![spec_expr_of(ts[0])]
        } else {
            seq![spec_expr_of(ts[0])] + spec_parse(ts.skip(2))
        }
    } else {
        spec_parse(ts.skip(1))
    }
}

/// The statement is an expression statement holding exactly `e`.
pub open spec fn stmt_matches(s: Statement, e: ExprView) -> bool {
    match s {
        Statement::Expression(es) => es.expression@ == e,
        _ => false,
    }
}

/// The statements are expression statements holding exactly `es`, in order.
pub open spec fn stmts_match(v: Seq<Statement>, es: Seq<ExprView>) -> bool {
    &&& v.len() == es.len()
    &&& forall|i: int| 0 <= i < v.len() ==> stmt_matches(#[trigger] v[i], es[i])
}

/// Every token of the stream is well-formed in the sense of [`token_wf`].
pub open spec fn stream_wf(ts: Seq<TokenView>) -> bool {
    forall|i: int| 0 <= i < ts.len() ==> token_wf(#[trigger] ts[i])
}

/// The value of every integer token of the stream fits in an `isize`.
pub open spec fn ints_fit(ts: Seq<TokenView>) -> bool {
    forall|i: int|
        0 <= i < ts.len() ==> ((#[trigger] ts[i]).type_ == TokenType::Int ==> dec_val(
            ts[i].literal,
        ) <= isize::MAX as int)
}

struct Parser<'a> {
    lex: Lexer<'a>,
    peeked: Option<Token>,
}

impl<'a> Parser<'a> {
    /// The scanner is sound and the one-token lookahead is filled whenever
    /// a token remains.
    spec fn wf(&self) -> bool {
        &&& self.lex.wf()
        &&& (self.peeked is None ==> self.lex.upcoming().len() == 0)
    }

    /// The tokens not yet consumed: the lookahead, then the scanner's rest.
    spec fn toks(&self) -> Seq<TokenView> {
        match self.peeked {
            Some(t) => seq![t@] + self.lex.upcoming(),
            None => Seq::empty(),
        }
    }

    /// Consumes and returns the next token, refilling the lookahead.
    fn advance(&mut self) -> (r: Option<Token>)
        requires
            old(self).wf(),
        ensures
            final(self).wf(),
            match r {
                Some(tok) => {
                    &&& old(self).toks().len() > 0
                    &&& tok@ == old(self).toks()[0]
                    &&& final(self).toks() == old(self).toks().skip(1)
                },
                None => {
                    &&& old(self).toks().len() == 0
                    &&& final(self).toks().len() == 0
                },
            },
            stream_wf(old(self).toks()) ==> stream_wf(final(self).toks()),
            ints_fit(old(self).toks()) ==> ints_fit(final(self).toks()),
    {
        let mut r = self.lex.next();
        core::mem::swap(&mut self.peeked, &mut r);
        proof {
            if r is Some {
                assert(final(self).toks() =~= old(self).toks().skip(1));
            }
            if stream_wf(old(self).toks()) {
                assert forall|i: int|
                    0 <= i < final(self).toks().len() implies token_wf(
                    #[trigger] final(self).toks()[i],
                ) by {
                    assert(final(self).toks()[i] == old(self).toks()[i + 1]);
                }
            }
            if ints_fit(old(self).toks()) {
                assert forall|i: int|
                    0 <= i < final(self).toks().len() && (#[trigger] final(self).toks()[i]).type_
                        == TokenType::Int implies dec_val(final(self).toks()[i].literal)
                    <= isize::MAX as int by {
                    assert(final(self).toks()[i] == old(self).toks()[i + 1]);
                }
            }
        }
        r
    }

    /// The next token, if any, without consuming it.
    fn peek_token(&self) -> (r: Option<&Token>)
        requires
            self.wf(),
        ensures
            match r {
                Some(t) => self.toks().len() > 0 && t@ == self.toks()[0],
                None => self.toks().len() == 0,
            },
    {
        self.peeked.as_ref()
    }

    /// Reports whether any token remains; the expected kind `t` is not
    /// consulted.
    fn peek_token_is(&self, t: TokenType) -> (r: bool)
        requires
            self.wf(),
        ensures
            r == (self.toks().len() > 0),
    {
        let _ = t;
        match self.peek_token() {
            Some(_) => true,
            None => false,
        }
    }

    /// Consumes the next token when one remains; reports whether it did.
    #[allow(dead_code)]
    fn expect_peek(&mut self, t: TokenType) -> (r: bool)
        requires
            old(self).wf(),
        ensures
            final(self).wf(),
            r == (old(self).toks().len() > 0),
            r ==> final(self).toks() == old(self).toks().skip(1),
            !r ==> final(self).toks() == old(self).toks(),
    {
        if self.peek_token_is(t) {
            self.advance();
            true
        } else {
            proof {
                assert(final(self).toks() =~= old(self).toks());
            }
            false
        }
    }

    /// Parses one expression from the head token: an accepted kind yields
    /// its literal expression, any other kind yields nothing. The head
    /// token is consumed either way.
    fn parse_expression(&mut self) -> (r: Option<Expression>)
        requires
            old(self).wf(),
            old(self).toks().len() > 0,
            stream_wf(old(self).toks()),
            ints_fit(old(self).toks()),
        ensures
            final(self).wf(),
            stream_wf(final(self).toks()),
            ints_fit(final(self).toks()),
            final(self).toks() == old(self).toks().skip(1),
            ({
                let h = old(self).toks()[0];
                if parseable(h.type_) {
                    r is Some && r.unwrap()@ == spec_expr_of(h)
                } else {
                    r is None
                }
            }),
    {
        let token = self.advance().unwrap();
        let exp = match token.type_ {
            TokenType::Int => IntegerLiteral::new(token),
            TokenType::True => BooleanLiteral::new(token),
            TokenType::Ident => IdentifierLiteral::new(token),
            _ => {
                return None;
            },
        };
        Some(exp)
    }

    /// Parses one expression statement: the expression, then one further
    /// token as its terminator when any remains.
    fn parse_expression_statement(&mut self) -> (r: Option<Statement>)
        requires
            old(self).wf(),
            old(self).toks().len() > 0,
            stream_wf(old(self).toks()),
            ints_fit(old(self).toks()),
        ensures
            final(self).wf(),
            stream_wf(final(self).toks()),
            ints_fit(final(self).toks()),
            ({
                let ts = old(self).toks();
                if parseable(ts[0].type_) {
                    &&& r is Some
                    &&& stmt_matches(r.unwrap(), spec_expr_of(ts[0]))
                    &&& final(self).toks() == if ts.len() == 1 {
                        Seq::<TokenView>::empty()
                    } else {
                        ts.skip(2)
                    }
                } else {
                    &&& r is None
                    &&& final(self).toks() == ts.skip(1)
                }
            }),
    {
        let exp = match self.parse_expression() {
            Some(expression) => Statement::Expression(ExpressionStatement { expression }),
            None => {
                return None;
            },
        };
        if self.peek_token_is(TokenType::Semicolon) {
            self.advance();
            proof {
                assert(final(self).toks() =~= old(self).toks().skip(2));
            }
        } else {
            proof {
                assert(old(self).toks().skip(1) =~= Seq::<TokenView>::empty());
            }
        }
        Some(exp)
    }

    /// Parses one statement; every statement form is an expression
    /// statement.
    fn parse_statement(&mut self) -> (r: Option<Statement>)
        requires
            old(self).wf(),
            old(self).toks().len() > 0,
            stream_wf(old(self).toks()),
            ints_fit(old(self).toks()),
        ensures
            final(self).wf(),
            stream_wf(final(self).toks()),
            ints_fit(final(self).toks()),
            ({
                let ts = old(self).toks();
                if parseable(ts[0].type_) {
                    &&& r is Some
                    &&& stmt_matches(r.unwrap(), spec_expr_of(ts[0]))
                    &&& final(self).toks() == if ts.len() == 1 {
                        Seq::<TokenView>::empty()
                    } else {
                        ts.skip(2)
                    }
                } else {
                    &&& r is None
                    &&& final(self).toks() == ts.skip(1)
                }
            }),
    {
        self.parse_expression_statement()
    }

    /// Drives the whole stream, collecting the statements it yields.
    fn parse(self) -> (p: Program)
        requires
            self.wf(),
            stream_wf(self.toks()),
            ints_fit(self.toks()),
        ensures
            stmts_match(p.statements@, spec_parse(self.toks())),
    {
        let ghost all = self.toks();
        let ghost mut done: Seq<ExprView> = Seq::empty();
        let mut this = self;
        let mut p = Program::new();
        proof {
            assert(done + spec_parse(all) =~= spec_parse(all));
        }
        while this.peeked.is_some()
            invariant
                this.wf(),
                stream_wf(this.toks()),
                ints_fit(this.toks()),
                stmts_match(p.statements@, done),
                spec_parse(all) == done + spec_parse(this.toks()),
            decreases this.toks().len(),
        {
            let ghost ts = this.toks();
            assert(ts.len() > 0);
            let stmt_opt = this.parse_statement();
            match stmt_opt {
                Some(stmt) => {
                    proof {
                        if ts.len() > 1 {
                            assert(done + (seq![spec_expr_of(ts[0])] + spec_parse(ts.skip(2)))
                                =~= done.push(spec_expr_of(ts[0])) + spec_parse(ts.skip(2)));
                        } else {
                            assert(spec_parse(this.toks()) =~= Seq::<ExprView>::empty());
                            assert(done + seq![spec_expr_of(ts[0])] =~= done.push(
                                spec_expr_of(ts[0]),
                            ) + spec_parse(this.toks()));
                        }
                    }
                    p.statements.push(stmt);
                    proof {
                        done = done.push(spec_expr_of(ts[0]));
                        assert forall|i: int| 0 <= i < p.statements@.len() implies stmt_matches(
                            #[trigger] p.statements@[i],
                            done[i],
                        ) by {
                            if i < p.statements@.len() - 1 {
                                assert(p.statements@[i] == p.statements@.drop_last()[i]);
                            }
                        }
                    }
                },
                None => {},
            }
        }
        proof {
            assert(this.toks().len() == 0);
            assert(spec_parse(this.toks()) =~= Seq::<ExprView>::empty());
            assert(done =~= spec_parse(all));
        }
        p
    }
}

/// Parses everything the given scanner has yet to produce.
///
/// The program's statements are exactly `spec_parse` of the scanner's
/// upcoming tokens. Integer tokens must have values that fit in an
/// `isize`; use [`ints_fit`] to state that of the stream.
pub fn parse<'a>(lex: Lexer<'a>) -> (p: Program)
    requires
        lex.wf(),
        ints_fit(lex.upcoming()),
    ensures
        stmts_match(p.statements@, spec_parse(lex.upcoming())),
{
    let ghost toks0 = lex.upcoming();
    let mut lex = lex;
    proof {
        lemma_tokens_wf(lex.remaining(), lex.row as nat, lex.col as nat);
    }
    let first = lex.next();
    let parser = Parser { lex, peeked: first };
    proof {
        match parser.peeked {
            Some(_) => {
                assert(parser.toks() =~= toks0);
            },
            None => {
                assert(parser.toks() =~= toks0);
            },
        }
        assert forall|i: int| 0 <= i < parser.toks().len() implies token_wf(
            #[trigger] parser.toks()[i],
        ) by {
            assert(parser.toks()[i] == toks0[i]);
        }
    }
    parser.parse()
}

} // verus!
