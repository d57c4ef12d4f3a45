//! General properties of the tokenizer, stated over the mathematical
//! tokenization function and proved once and for all.

use vstd::prelude::*;

use crate::lexer::{
    adv_pos, digit_run, head_token, ident_run, lemma_adv_pos_one, lemma_digit_run_chars,
    lemma_digit_run_concat, lemma_digit_run_le, lemma_head_token_len, lemma_ident_run_chars,
    lemma_ident_run_concat, lemma_ident_run_le, lemma_scan_string_extend,
    lemma_scan_string_le, lemma_scan_string_prefix, lemma_ws_run_chars, lemma_ws_run_concat,
    lemma_ws_run_le, punct_type, scan_string, spec_is_digit, spec_is_ident_char, spec_is_letter,
    spec_is_punct, spec_is_whitespace, spec_tokens, spec_tokens_at, ws_run,
};
use crate::token::{TokenType, TokenView};

verus! {

// ---------------------------------------------------------------------------
// Direct single-character punctuation
// ---------------------------------------------------------------------------
/// The non-white-space characters of `s`, in order.
pub open spec fn non_ws(s: Seq<char>) -> Seq<char>
    decreases s.len(),
{
    if s.len() == 0 {
        Seq::empty()
    } else if spec_is_whitespace(s[0]) {
        non_ws(s.drop_first())
    } else {
        seq![s[0]] + non_ws(s.drop_first())
    }
}

/// Discarding a leading white-space run keeps the non-white-space
/// characters.
proof fn lemma_non_ws_skip_ws(s: Seq<char>)
    ensures
        non_ws(s) == non_ws(s.skip(ws_run(s) as int)),
    decreases s.len(),
{
    lemma_ws_run_le(s);
    if s.len() > 0 && spec_is_whitespace(s[0]) {
        let d = s.drop_first();
        lemma_ws_run_le(d);
        assert(s.skip(ws_run(s) as int) =~= d.skip(ws_run(d) as int));
        lemma_non_ws_skip_ws(d);
    } else {
        assert(s.skip(0) =~= s);
    }
}

proof fn lemma_punct_direct_at(s: Seq<char>, row: nat, col: nat)
    requires
        forall|i: int|
            0 <= i < s.len() ==> spec_is_whitespace(#[trigger] s[i]) || spec_is_punct(s[i]),
    ensures
        spec_tokens_at(s, row, col).len() == non_ws(s).len(),
        forall|j: int|
            0 <= j < spec_tokens_at(s, row, col).len() ==> {
                &&& (#[trigger] spec_tokens_at(s, row, col)[j]).type_ == punct_type(non_ws(s)[j])
                &&& spec_tokens_at(s, row, col)[j].literal == seq![non_ws(s)[j]]
            },
    decreases s.len(),
{
    lemma_ws_run_le(s);
    lemma_ws_run_chars(s);
    lemma_non_ws_skip_ws(s);
    let k = ws_run(s) as int;
    let t = s.skip(k);
    let ts = spec_tokens_at(s, row, col);
    if t.len() == 0 {
        assert(non_ws(t) =~= Seq::<char>::empty());
    } else {
        let c = t[0];
        assert(c == s[k]);
        assert(!spec_is_whitespace(c));
        assert(spec_is_punct(c));
        assert(head_token(t) == (punct_type(c), 1nat));
        let rest = t.skip(1);
        assert(t.drop_first() =~= rest);
        assert(non_ws(t) == seq![c] + non_ws(rest));
        assert(t.take(1) =~= seq![c]);
        let rc = adv_pos(row, col, s.take(k));
        let rc2 = adv_pos(rc.0, rc.1, t.take(1));
        assert forall|i: int|
            0 <= i < rest.len() implies spec_is_whitespace(#[trigger] rest[i]) || spec_is_punct(
            rest[i],
        ) by {
            assert(rest[i] == s[k + 1 + i]);
        }
        lemma_punct_direct_at(rest, rc2.0, rc2.1);
        let ts2 = spec_tokens_at(rest, rc2.0, rc2.1);
        assert(ts == seq![
            TokenView { type_: punct_type(c), literal: t.take(1), row: rc.0, col: rc.1 },
        ] + ts2);
        assert forall|j: int| 0 <= j < ts.len() implies {
            &&& (#[trigger] ts[j]).type_ == punct_type(non_ws(s)[j])
            &&& ts[j].literal == seq![non_ws(s)[j]]
        } by {
            if j > 0 {
                assert(ts[j] == ts2[j - 1]);
                assert(non_ws(s)[j] == non_ws(rest)[j - 1]);
            }
        }
    }
}

/// An input made only of white space and direct single-character
/// punctuation tokenizes to exactly the direct character-to-kind mapping
/// of its non-white-space characters, each literal being that single
/// character.
pub proof fn lemma_punctuation_direct(s: Seq<char>)
    requires
        forall|i: int|
            0 <= i < s.len() ==> spec_is_whitespace(#[trigger] s[i]) || spec_is_punct(s[i]),
    ensures
        spec_tokens(s).len() == non_ws(s).len(),
        forall|j: int|
            0 <= j < spec_tokens(s).len() ==> {
                &&& (#[trigger] spec_tokens(s)[j]).type_ == punct_type(non_ws(s)[j])
                &&& spec_tokens(s)[j].literal == seq![non_ws(s)[j]]
            },
{
    lemma_punct_direct_at(s, 0, 1);
}

// ---------------------------------------------------------------------------
// Keyword / identifier partition
// ---------------------------------------------------------------------------
/// A maximal run of letters, digits and underscores that starts with a
/// letter becomes one token whose literal is exactly that run; its kind is
/// the matching keyword kind if and only if the run equals one of the
/// seven reserved words, and `Ident` otherwise.
pub proof fn lemma_keyword_ident_partition(s: Seq<char>)
    requires
        s.len() > 0,
        spec_is_letter(s[0]),
    ensures
        ({
            let n = 1 + ident_run(s.drop_first());
            let lit = s.take(n as int);
            let ts = spec_tokens(s);
            &&& ts.len() > 0
            &&& ts[0].literal == lit
            &&& (ts[0].type_ == TokenType::Function <==> lit == "fn"@)
            &&& (ts[0].type_ == TokenType::Let <==> lit == "let"@)
            &&& (ts[0].type_ == TokenType::Return <==> lit == "return"@)
            &&& (ts[0].type_ == TokenType::If <==> lit == "if"@)
            &&& (ts[0].type_ == TokenType::Else <==> lit == "else"@)
            &&& (ts[0].type_ == TokenType::True <==> lit == "true"@)
            &&& (ts[0].type_ == TokenType::False <==> lit == "false"@)
            &&& (ts[0].type_ == TokenType::Ident <==> (lit != "fn"@ && lit != "let"@ && lit
                != "return"@ && lit != "if"@ && lit != "else"@ && lit != "true"@ && lit
                != "false"@))
        }),
{
    reveal_strlit("fn");
    reveal_strlit("let");
    reveal_strlit("return");
    reveal_strlit("if");
    reveal_strlit("else");
    reveal_strlit("true");
    reveal_strlit("false");
    assert(ws_run(s) == 0);
    assert(s.skip(0) =~= s);
    assert(!spec_is_punct(s[0]));
    lemma_head_token_len(s);
}

// ---------------------------------------------------------------------------
// Greedy two-character operators
// ---------------------------------------------------------------------------
/// An input starting with `==` always starts with a single `Eq` token
/// whose literal is both characters, never two `Assign` tokens.
pub proof fn lemma_greedy_eq(s: Seq<char>)
    requires
        s.len() >= 2,
        s[0] == '=',
        s[1] == '=',
    ensures
        spec_tokens(s).len() > 0,
        spec_tokens(s)[0].type_ == TokenType::Eq,
        spec_tokens(s)[0].literal == s.take(2),
{
    assert(ws_run(s) == 0);
    assert(s.skip(0) =~= s);
    assert(!spec_is_punct(s[0]));
    assert(head_token(s) == (TokenType::Eq, 2nat));
}

/// An input starting with `!=` always starts with a single `NotEq` token
/// whose literal is both characters, never `Bang` followed by `Assign`.
pub proof fn lemma_greedy_not_eq(s: Seq<char>)
    requires
        s.len() >= 2,
        s[0] == '!',
        s[1] == '=',
    ensures
        spec_tokens(s).len() > 0,
        spec_tokens(s)[0].type_ == TokenType::NotEq,
        spec_tokens(s)[0].literal == s.take(2),
{
    assert(ws_run(s) == 0);
    assert(s.skip(0) =~= s);
    assert(!spec_is_punct(s[0]));
    assert(head_token(s) == (TokenType::NotEq, 2nat));
}

// ---------------------------------------------------------------------------
// String round trip
// ---------------------------------------------------------------------------
/// String scanning consumes escaped-quote-free content up to and including
/// the closing quote. `prev` carries the character consumed just before
/// `content`, with the hypotheses the scanner's escape rule needs.
proof fn lemma_scan_content(content: Seq<char>, prev: Option<char>)
    requires
        forall|i: int|
            1 <= i < content.len() && (#[trigger] content[i]) == '"' ==> content[i - 1] == '\\',
        content.len() > 0 ==> content[content.len() - 1] != '\\',
        content.len() == 0 ==> prev != Some('\\'),
        content.len() > 0 && content[0] == '"' ==> prev == Some('\\'),
    ensures
        scan_string(content + seq!['"'], prev) == Some((content.len() + 1) as nat),
    decreases content.len(),
{
    let u = content + seq!['"'];
    if content.len() == 0 {
        assert(u =~= seq!['"']);
    } else {
        let c = content[0];
        assert(u[0] == c);
        let content2 = content.drop_first();
        assert(u.drop_first() =~= content2 + seq!['"']);
        assert forall|i: int|
            1 <= i < content2.len() && (#[trigger] content2[i]) == '"' implies content2[i - 1]
            == '\\' by {
            assert(content2[i] == content[i + 1]);
            assert(content2[i - 1] == content[i]);
        }
        if content2.len() > 0 && content2[0] == '"' {
            assert(content[1] == '"');
            assert(c == '\\');
        }
        if content2.len() == 0 {
            assert(c == content[content.len() - 1]);
        }
        lemma_scan_content(content2, Some(c));
    }
}

/// Tokenizing a quote, content free of unescaped quotes and not ending in
/// a backslash, and a closing quote yields exactly one `Str` token whose
/// literal is the whole input, both quotes included.
pub proof fn lemma_string_round_trip(content: Seq<char>)
    requires
        forall|i: int|
            0 <= i < content.len() && (#[trigger] content[i]) == '"' ==> i > 0 && content[i - 1]
                == '\\',
        content.len() > 0 ==> content[content.len() - 1] != '\\',
    ensures
        ({
            let s = seq!['"'] + content + seq!['"'];
            &&& spec_tokens(s).len() == 1
            &&& spec_tokens(s)[0].type_ == TokenType::Str
            &&& spec_tokens(s)[0].literal == s
        }),
{
    let s = seq!['"'] + content + seq!['"'];
    assert(s[0] == '"');
    assert(ws_run(s) == 0);
    let t = s.skip(ws_run(s) as int);
    assert(t =~= s);
    assert(!spec_is_punct('"'));
    lemma_scan_content(content, None);
    assert(t.drop_first() =~= content + seq!['"']);
    let ht = head_token(t);
    assert(ht == (TokenType::Str, (content.len() + 2) as nat));
    let lit = t.take(ht.1 as int);
    assert(lit =~= s);
    let rc = adv_pos(0, 1, s.take(ws_run(s) as int));
    let rc2 = adv_pos(rc.0, rc.1, lit);
    assert(t.skip(ht.1 as int).len() == 0);
    assert(spec_tokens_at(t.skip(ht.1 as int), rc2.0, rc2.1) =~= Seq::<TokenView>::empty());
    assert(spec_tokens(s) == seq![
        TokenView { type_: TokenType::Str, literal: lit, row: rc.0, col: rc.1 },
    ] + spec_tokens_at(t.skip(ht.1 as int), rc2.0, rc2.1));
}

// ---------------------------------------------------------------------------
// Whitespace insensitivity
// ---------------------------------------------------------------------------
/// Every character of `w` is white space.
pub open spec fn all_ws(w: Seq<char>) -> bool {
    forall|i: int| 0 <= i < w.len() ==> spec_is_whitespace(#[trigger] w[i])
}

/// `lit` scans as one complete token of kind `ty` on its own: it is
/// non-empty, does not begin with white space, the head token of `lit`
/// consumes all of it with kind `ty`, and a string literal is a terminated
/// one. Every token the tokenizer emits has this shape, except the
/// `Illegal` token of an unterminated string.
pub open spec fn lone_token(ty: TokenType, lit: Seq<char>) -> bool {
    &&& lit.len() > 0
    &&& !spec_is_whitespace(lit[0])
    &&& head_token(lit) == (ty, lit.len() as nat)
    &&& (lit[0] == '"' ==> scan_string(lit.drop_first(), None) is Some)
}

/// White space never begins a token: it is not an identifier character,
/// not a digit, and none of the operator or quote characters.
proof fn lemma_ws_starts_no_token(c: char)
    requires
        spec_is_whitespace(c),
    ensures
        !spec_is_ident_char(c),
        !spec_is_digit(c),
        c != '=',
        c != '"',
        c != '!',
{
}

/// A complete token followed by white space (or nothing) still scans to
/// exactly itself: the continuation changes neither its kind nor its
/// length.
pub proof fn lemma_lone_token_extends(ty: TokenType, lit: Seq<char>, rest: Seq<char>)
    requires
        lone_token(ty, lit),
        rest.len() > 0 ==> spec_is_whitespace(rest[0]),
    ensures
        head_token(lit + rest) == (ty, lit.len() as nat),
{
    let u = lit + rest;
    let c = lit[0];
    assert(u[0] == c);
    if rest.len() == 0 {
        assert(u =~= lit);
    } else {
        let w0 = rest[0];
        lemma_ws_starts_no_token(w0);
        assert(u.drop_first() =~= lit.drop_first() + rest);
        if spec_is_punct(c) {
        } else if c == '!' || c == '=' {
            if lit.len() >= 2 {
                assert(lit[1] == '=');
                assert(u[1] == lit[1]);
            } else {
                assert(u[1] == w0);
            }
        } else if c == '"' {
            let n = scan_string(lit.drop_first(), None).unwrap();
            lemma_scan_string_le(lit.drop_first(), None);
            lemma_scan_string_extend(lit.drop_first(), None, rest, n);
        } else if spec_is_letter(c) {
            lemma_ident_run_chars(lit.drop_first());
            lemma_ident_run_concat(lit.drop_first(), rest);
            assert(lit.take(lit.len() as int) =~= lit);
            assert(u.take(lit.len() as int) =~= lit);
        } else if spec_is_digit(c) {
            lemma_digit_run_chars(lit.drop_first());
            lemma_digit_run_concat(lit.drop_first(), rest);
        } else {
        }
    }
}

/// The shape of every emitted token: a non-empty literal that does not
/// start with white space; all digits when the kind is `Int`; and, unless
/// it is the `Illegal` token of an unterminated string, a complete lone
/// token in the sense of [`lone_token`].
pub open spec fn token_wf(t: TokenView) -> bool {
    &&& t.literal.len() > 0
    &&& !spec_is_whitespace(t.literal[0])
    &&& (t.type_ == TokenType::Int ==> forall|i: int|
        0 <= i < t.literal.len() ==> spec_is_digit(#[trigger] t.literal[i]))
    &&& (!(t.type_ == TokenType::Illegal && t.literal[0] == '"') ==> lone_token(
        t.type_,
        t.literal,
    ))
}

/// The head token cut out of any non-white-space-headed input is
/// well-formed.
proof fn lemma_head_token_wf(t: Seq<char>, row: nat, col: nat)
    requires
        t.len() > 0,
        !spec_is_whitespace(t[0]),
    ensures
        token_wf(
            TokenView {
                type_: head_token(t).0,
                literal: t.take(head_token(t).1 as int),
                row,
                col,
            },
        ),
{
    lemma_head_token_len(t);
    let c = t[0];
    let ht = head_token(t);
    let n = ht.1 as int;
    let lit = t.take(n);
    assert(lit[0] == c);
    if spec_is_punct(c) {
        assert(lit =~= seq![c]);
    } else if c == '!' || c == '=' {
        if t.len() >= 2 && t[1] == '=' {
            assert(lit.len() == 2 && lit[1] == '=');
        } else {
            assert(lit =~= seq![c]);
            assert(lit.len() == 1);
        }
    } else if c == '"' {
        match scan_string(t.drop_first(), None) {
            Some(m) => {
                lemma_scan_string_le(t.drop_first(), None);
                lemma_scan_string_prefix(t.drop_first(), None, m);
                assert(lit.drop_first() =~= t.drop_first().take(m as int));
            },
            None => {
                assert(lit =~= t);
            },
        }
    } else if spec_is_letter(c) {
        let m = ident_run(t.drop_first()) as int;
        lemma_ident_run_le(t.drop_first());
        lemma_ident_run_chars(t.drop_first());
        assert(lit.drop_first() =~= t.drop_first().take(m));
        assert forall|i: int|
            0 <= i < lit.drop_first().len() implies spec_is_ident_char(
            #[trigger] lit.drop_first()[i],
        ) by {
            assert(lit.drop_first()[i] == t.drop_first()[i]);
        }
        lemma_ident_run_concat(lit.drop_first(), Seq::empty());
        assert(lit.drop_first() + Seq::<char>::empty() =~= lit.drop_first());
        assert(lit.take(lit.len() as int) =~= lit);
        assert(t.take(n) == lit);
    } else if spec_is_digit(c) {
        let m = digit_run(t.drop_first()) as int;
        lemma_digit_run_le(t.drop_first());
        lemma_digit_run_chars(t.drop_first());
        assert(lit.drop_first() =~= t.drop_first().take(m));
        assert forall|i: int|
            0 <= i < lit.drop_first().len() implies spec_is_digit(
            #[trigger] lit.drop_first()[i],
        ) by {
            assert(lit.drop_first()[i] == t.drop_first()[i]);
        }
        lemma_digit_run_concat(lit.drop_first(), Seq::empty());
        assert(lit.drop_first() + Seq::<char>::empty() =~= lit.drop_first());
        assert forall|i: int| 0 <= i < lit.len() implies spec_is_digit(#[trigger] lit[i]) by {
            if i > 0 {
                assert(lit[i] == lit.drop_first()[i - 1]);
            }
        }
    } else {
        assert(lit =~= seq![c]);
    }
}

/// Every token that tokenization emits is well-formed.
pub proof fn lemma_tokens_wf(s: Seq<char>, row: nat, col: nat)
    ensures
        forall|j: int|
            0 <= j < spec_tokens_at(s, row, col).len() ==> token_wf(
                #[trigger] spec_tokens_at(s, row, col)[j],
            ),
    decreases s.len(),
{
    lemma_ws_run_le(s);
    lemma_ws_run_chars(s);
    let k = ws_run(s) as int;
    let t = s.skip(k);
    let ts = spec_tokens_at(s, row, col);
    if t.len() > 0 {
        lemma_head_token_len(t);
        let rc = adv_pos(row, col, s.take(k));
        lemma_head_token_wf(t, rc.0, rc.1);
        let ht = head_token(t);
        let n = ht.1 as int;
        let tok = TokenView { type_: ht.0, literal: t.take(n), row: rc.0, col: rc.1 };
        let rc2 = adv_pos(rc.0, rc.1, t.take(n));
        lemma_tokens_wf(t.skip(n), rc2.0, rc2.1);
        let ts2 = spec_tokens_at(t.skip(n), rc2.0, rc2.1);
        assert(ts == seq![tok] + ts2);
        assert forall|j: int| 0 <= j < ts.len() implies token_wf(#[trigger] ts[j]) by {
            if j > 0 {
                assert(ts[j] == ts2[j - 1]);
            }
        }
    }
}

/// The kind and literal of each token, with the positions forgotten.
pub open spec fn token_core(ts: Seq<TokenView>) -> Seq<(TokenType, Seq<char>)> {
    ts.map_values(|t: TokenView| (t.type_, t.literal))
}

/// `toks[0].1 + seps[0] + toks[1].1 + seps[1] + ...`: the literals of
/// `toks` laid out with the separator runs of `seps` between and after
/// them.
pub open spec fn interleave(toks: Seq<(TokenType, Seq<char>)>, seps: Seq<Seq<char>>) -> Seq<char>
    recommends
        seps.len() == toks.len(),
    decreases toks.len(),
{
    if toks.len() == 0 {
        Seq::empty()
    } else {
        toks[0].1 + seps[0] + interleave(toks.drop_first(), seps.drop_first())
    }
}

#[verifier::rlimit(100)]
#[verifier::spinoff_prover]
proof fn lemma_ws_insensitive_at(
    toks: Seq<(TokenType, Seq<char>)>,
    seps: Seq<Seq<char>>,
    lead: Seq<char>,
    row: nat,
    col: nat,
)
    requires
        seps.len() == toks.len(),
        all_ws(lead),
        forall|i: int| 0 <= i < toks.len() ==> lone_token((#[trigger] toks[i]).0, toks[i].1),
        forall|i: int| 0 <= i < toks.len() ==> all_ws(#[trigger] seps[i]),
        forall|i: int| 0 <= i < toks.len() - 1 ==> (#[trigger] seps[i]).len() > 0,
    ensures
        token_core(spec_tokens_at(lead + interleave(toks, seps), row, col)) == toks,
    decreases toks.len(),
{
    let s = lead + interleave(toks, seps);
    if toks.len() == 0 {
        assert(s =~= lead);
        lemma_ws_run_concat(lead, Seq::empty());
        assert(lead + Seq::<char>::empty() =~= lead);
        assert(ws_run(s) == s.len());
        assert(s.skip(s.len() as int).len() == 0);
        assert(token_core(spec_tokens_at(s, row, col)) =~~= toks);
    } else {
        let ty0 = toks[0].0;
        let lit0 = toks[0].1;
        let tail = seps[0] + interleave(toks.drop_first(), seps.drop_first());
        let x = lit0 + tail;
        assert(s =~= lead + x);
        assert(x[0] == lit0[0]);
        lemma_ws_run_concat(lead, x);
        assert(ws_run(s) == lead.len());
        let t = s.skip(lead.len() as int);
        assert(t =~= x);
        if tail.len() > 0 {
            if seps[0].len() > 0 {
                assert(tail[0] == seps[0][0]);
            } else {
                assert(toks.len() >= 2);
                assert(false);
            }
        }
        lemma_lone_token_extends(ty0, lit0, tail);
        let ht = head_token(t);
        assert(ht == (ty0, lit0.len() as nat));
        let n = ht.1 as int;
        assert(t.take(n) =~= lit0);
        let rc = adv_pos(row, col, s.take(ws_run(s) as int));
        let tok = TokenView { type_: ty0, literal: t.take(n), row: rc.0, col: rc.1 };
        let rc2 = adv_pos(rc.0, rc.1, t.take(n));
        assert(t.skip(n) =~= tail);
        assert forall|i: int|
            0 <= i < toks.drop_first().len() implies lone_token(
            (#[trigger] toks.drop_first()[i]).0,
            toks.drop_first()[i].1,
        ) by {
            assert(toks.drop_first()[i] == toks[i + 1]);
        }
        assert forall|i: int|
            0 <= i < toks.drop_first().len() implies all_ws(#[trigger] seps.drop_first()[i]) by {
            assert(seps.drop_first()[i] == seps[i + 1]);
        }
        assert forall|i: int|
            0 <= i < toks.drop_first().len() - 1 implies (#[trigger] seps.drop_first()[i]).len()
            > 0 by {
            assert(seps.drop_first()[i] == seps[i + 1]);
        }
        lemma_ws_insensitive_at(toks.drop_first(), seps.drop_first(), seps[0], rc2.0, rc2.1);
        let ts2 = spec_tokens_at(tail, rc2.0, rc2.1);
        let ts = spec_tokens_at(s, row, col);
        assert(ts == seq![tok] + ts2);
        let core = token_core(ts);
        assert(core.len() == toks.len());
        assert forall|j: int| 0 <= j < toks.len() implies core[j] == toks[j] by {
            if j == 0 {
                assert(ts[0] == tok);
                assert(core[0] == (tok.type_, tok.literal));
                assert(tok.literal == lit0);
                assert((ty0, lit0) =~= toks[0]);
            } else {
                assert(ts[j] == ts2[j - 1]);
                assert(core[j] == token_core(ts2)[j - 1]);
                assert(token_core(ts2)[j - 1] == toks.drop_first()[j - 1]);
                assert(toks.drop_first()[j - 1] == toks[j]);
            }
        }
        assert(core =~~= toks);
    }
}

/// White space between tokens is insensitive: laying out any list of
/// complete lone tokens with arbitrary white-space runs before, between
/// and after them (the runs between two tokens being non-empty) tokenizes
/// to exactly that list of kinds and literals. Only the recorded positions
/// depend on the white space.
pub proof fn lemma_whitespace_insensitive(
    toks: Seq<(TokenType, Seq<char>)>,
    seps: Seq<Seq<char>>,
    lead: Seq<char>,
)
    requires
        seps.len() == toks.len(),
        all_ws(lead),
        forall|i: int| 0 <= i < toks.len() ==> lone_token((#[trigger] toks[i]).0, toks[i].1),
        forall|i: int| 0 <= i < toks.len() ==> all_ws(#[trigger] seps[i]),
        forall|i: int| 0 <= i < toks.len() - 1 ==> (#[trigger] seps[i]).len() > 0,
    ensures
        token_core(spec_tokens(lead + interleave(toks, seps))) == toks,
{
    lemma_ws_insensitive_at(toks, seps, lead, 0, 1);
}

/// Whitespace insensitivity applied to a real input: take any input whose
/// tokens are all complete (none is the `Illegal` token of an unterminated
/// string), and lay those same tokens out again with arbitrary white-space
/// runs before, between and after them, the runs between two tokens being
/// non-empty. The relaid input tokenizes to exactly the same kinds and
/// literals; only the recorded positions can differ.
pub proof fn lemma_whitespace_relayout(s: Seq<char>, seps: Seq<Seq<char>>, lead: Seq<char>)
    requires
        forall|j: int|
            0 <= j < spec_tokens(s).len() ==> !((#[trigger] spec_tokens(s)[j]).type_
                == TokenType::Illegal && spec_tokens(s)[j].literal[0] == '"'),
        seps.len() == spec_tokens(s).len(),
        all_ws(lead),
        forall|i: int| 0 <= i < seps.len() ==> all_ws(#[trigger] seps[i]),
        forall|i: int| 0 <= i < seps.len() - 1 ==> (#[trigger] seps[i]).len() > 0,
    ensures
        token_core(spec_tokens(lead + interleave(token_core(spec_tokens(s)), seps)))
            == token_core(spec_tokens(s)),
{
    lemma_tokens_wf(s, 0, 1);
    let toks = token_core(spec_tokens(s));
    assert forall|i: int| 0 <= i < toks.len() implies lone_token(
        (#[trigger] toks[i]).0,
        toks[i].1,
    ) by {
        assert(toks[i] == (spec_tokens(s)[i].type_, spec_tokens(s)[i].literal));
        assert(token_wf(spec_tokens(s)[i]));
    }
    lemma_whitespace_insensitive(toks, seps, lead);
}

// ---------------------------------------------------------------------------
// Positions, and the two lexical-failure conditions
// ---------------------------------------------------------------------------
/// The starting position never influences which tokens come out: scanning
/// the same input from two positions yields the same kinds and literals,
/// and only the recorded positions differ.
pub proof fn lemma_position_independence(s: Seq<char>, r1: nat, c1: nat, r2: nat, c2: nat)
    ensures
        token_core(spec_tokens_at(s, r1, c1)) == token_core(spec_tokens_at(s, r2, c2)),
    decreases s.len(),
{
    lemma_ws_run_le(s);
    let k = ws_run(s) as int;
    let t = s.skip(k);
    let ts1 = spec_tokens_at(s, r1, c1);
    let ts2 = spec_tokens_at(s, r2, c2);
    if t.len() == 0 {
        assert(token_core(ts1) =~~= token_core(ts2));
    } else {
        lemma_head_token_len(t);
        let ht = head_token(t);
        let n = ht.1 as int;
        let p1 = adv_pos(r1, c1, s.take(k));
        let p2 = adv_pos(r2, c2, s.take(k));
        let q1 = adv_pos(p1.0, p1.1, t.take(n));
        let q2 = adv_pos(p2.0, p2.1, t.take(n));
        lemma_position_independence(t.skip(n), q1.0, q1.1, q2.0, q2.1);
        let rest1 = spec_tokens_at(t.skip(n), q1.0, q1.1);
        let rest2 = spec_tokens_at(t.skip(n), q2.0, q2.1);
        assert(ts1 == seq![
            TokenView { type_: ht.0, literal: t.take(n), row: p1.0, col: p1.1 },
        ] + rest1);
        assert(ts2 == seq![
            TokenView { type_: ht.0, literal: t.take(n), row: p2.0, col: p2.1 },
        ] + rest2);
        assert(token_core(rest1).len() == token_core(rest2).len());
        assert(rest1.len() == rest2.len());
        assert(ts2.len() == ts1.len());
        assert forall|j: int|
            0 <= j < token_core(ts1).len() implies token_core(ts1)[j] == token_core(ts2)[j] by {
            if j > 0 {
                assert(ts1[j] == rest1[j - 1]);
                assert(ts2[j] == rest2[j - 1]);
                assert(token_core(rest1)[j - 1] == token_core(rest2)[j - 1]);
            }
        }
        assert(token_core(ts1) =~~= token_core(ts2));
    }
}

/// The second lexical-failure condition: an input that enters a string at
/// its head and ends before an unescaped closing quote yields exactly one
/// `Illegal` token whose literal is everything, and no token after it.
pub proof fn lemma_unterminated_string(s: Seq<char>)
    requires
        s.len() > 0,
        s[0] == '"',
        scan_string(s.drop_first(), None) is None,
    ensures
        spec_tokens(s).len() == 1,
        spec_tokens(s)[0].type_ == TokenType::Illegal,
        spec_tokens(s)[0].literal == s,
{
    assert(ws_run(s) == 0);
    let t = s.skip(ws_run(s) as int);
    assert(t =~= s);
    assert(!spec_is_punct('"'));
    assert(t.drop_first() =~= s.drop_first());
    let ht = head_token(t);
    assert(ht == (TokenType::Illegal, s.len()));
    let lit = t.take(ht.1 as int);
    assert(lit =~= s);
    let rc = adv_pos(0, 1, s.take(ws_run(s) as int));
    let rc2 = adv_pos(rc.0, rc.1, lit);
    assert(t.skip(ht.1 as int).len() == 0);
    assert(spec_tokens_at(t.skip(ht.1 as int), rc2.0, rc2.1) =~= Seq::<TokenView>::empty());
    assert(spec_tokens(s) == seq![
        TokenView { type_: TokenType::Illegal, literal: lit, row: rc.0, col: rc.1 },
    ] + spec_tokens_at(t.skip(ht.1 as int), rc2.0, rc2.1));
}

/// The first lexical-failure condition: a character no classification rule
/// matches yields a single-character `Illegal` token, and scanning resumes
/// normally afterwards, the rest of the input tokenizing as it would on
/// its own, up to positions.
pub proof fn lemma_illegal_char_recovery(s: Seq<char>)
    requires
        s.len() > 0,
        !spec_is_whitespace(s[0]),
        !spec_is_punct(s[0]),
        s[0] != '!',
        s[0] != '=',
        s[0] != '"',
        !spec_is_letter(s[0]),
        !spec_is_digit(s[0]),
    ensures
        spec_tokens(s).len() >= 1,
        spec_tokens(s)[0].type_ == TokenType::Illegal,
        spec_tokens(s)[0].literal == seq![s[0]],
        token_core(spec_tokens(s).drop_first()) == token_core(spec_tokens(s.skip(1))),
{
    assert(ws_run(s) == 0);
    let t = s.skip(ws_run(s) as int);
    assert(t =~= s);
    let ht = head_token(t);
    assert(ht == (TokenType::Illegal, 1nat));
    let lit = t.take(ht.1 as int);
    assert(lit =~= seq![s[0]]);
    let rc = adv_pos(0, 1, s.take(ws_run(s) as int));
    let rc2 = adv_pos(rc.0, rc.1, lit);
    let rest = spec_tokens_at(t.skip(ht.1 as int), rc2.0, rc2.1);
    assert(spec_tokens(s) == seq![
        TokenView { type_: TokenType::Illegal, literal: lit, row: rc.0, col: rc.1 },
    ] + rest);
    assert(spec_tokens(s).drop_first() =~= rest);
    assert(t.skip(1) =~= s.skip(1));
    lemma_position_independence(s.skip(1), rc2.0, rc2.1, 0, 1);
}

} // verus!
