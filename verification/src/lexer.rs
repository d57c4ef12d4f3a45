//! The tokenizer: a single-pass, pull-based scanner over an in-memory
//! character sequence.
//!
//! The mathematical model comes first: [`spec_tokens`] maps a character
//! sequence to the exact sequence of tokens the scanner emits, including
//! each token's kind, its literal text and its source position. The
//! executable [`Lexer`] is then proved to produce precisely that sequence,
//! one token per pull.

use vstd::prelude::*;

use crate::token::{lookup_ident, spec_lookup, Token, TokenType, TokenView};
use vstd::string::StrSliceExecFns;

verus! {

// ---------------------------------------------------------------------------
// Character classes
// ---------------------------------------------------------------------------
/// The Unicode white-space code points, the characters the scanner discards
/// between tokens.
pub open spec fn spec_is_whitespace(c: char) -> bool {
    let u = c as u32;
    u == 0x09 || u == 0x0A || u == 0x0B || u == 0x0C || u == 0x0D || u == 0x20 || u == 0x85
        || u == 0xA0 || u == 0x1680 || (0x2000 <= u && u <= 0x200A) || u == 0x2028 || u == 0x2029
        || u == 0x202F || u == 0x205F || u == 0x3000
}

/// Executable form of [`spec_is_whitespace`].
#[verifier::when_used_as_spec(spec_is_whitespace)]
pub fn is_whitespace(c: char) -> (b: bool)
    ensures
        b == spec_is_whitespace(c),
{
    let u = c as u32;
    u == 0x09 || u == 0x0A || u == 0x0B || u == 0x0C || u == 0x0D || u == 0x20 || u == 0x85
        || u == 0xA0 || u == 0x1680 || (0x2000 <= u && u <= 0x200A) || u == 0x2028 || u == 0x2029
        || u == 0x202F || u == 0x205F || u == 0x3000
}

/// An ASCII letter, the only head character of identifiers and keywords.
pub open spec fn spec_is_letter(c: char) -> bool {
    let u = c as u32;
    (0x41 <= u && u <= 0x5A) || (0x61 <= u && u <= 0x7A)
}

/// Executable form of [`spec_is_letter`].
#[verifier::when_used_as_spec(spec_is_letter)]
pub fn is_letter(c: char) -> (b: bool)
    ensures
        b == spec_is_letter(c),
{
    let u = c as u32;
    (0x41 <= u && u <= 0x5A) || (0x61 <= u && u <= 0x7A)
}

/// A decimal digit, the only character of integer literals.
pub open spec fn spec_is_digit(c: char) -> bool {
    let u = c as u32;
    0x30 <= u && u <= 0x39
}

/// Executable form of [`spec_is_digit`].
#[verifier::when_used_as_spec(spec_is_digit)]
pub fn is_digit(c: char) -> (b: bool)
    ensures
        b == spec_is_digit(c),
{
    let u = c as u32;
    0x30 <= u && u <= 0x39
}

/// A character that may continue an identifier: letter, digit or underscore.
pub open spec fn spec_is_ident_char(c: char) -> bool {
    spec_is_letter(c) || spec_is_digit(c) || c == '_'
}

/// Executable form of [`spec_is_ident_char`].
#[verifier::when_used_as_spec(spec_is_ident_char)]
pub fn is_ident_char(c: char) -> (b: bool)
    ensures
        b == spec_is_ident_char(c),
{
    is_letter(c) || is_digit(c) || c == '_'
}

/// The fifteen characters that form a token on their own, with no lookahead.
pub open spec fn spec_is_punct(c: char) -> bool {
    c == ';' || c == '(' || c == ')' || c == ',' || c == '+' || c == '{' || c == '}' || c == '-'
        || c == '/' || c == '*' || c == '<' || c == '>' || c == '[' || c == ']' || c == ':'
}

/// The kind assigned to each single-character token.
pub open spec fn punct_type(c: char) -> TokenType {
    if c == ';' {
        TokenType::Semicolon
    } else if c == '(' {
        TokenType::LParen
    } else if c == ')' {
        TokenType::RParen
    } else if c == ',' {
        TokenType::Comma
    } else if c == '+' {
        TokenType::Plus
    } else if c == '{' {
        TokenType::LBrace
    } else if c == '}' {
        TokenType::RBrace
    } else if c == '-' {
        TokenType::Minus
    } else if c == '/' {
        TokenType::Slash
    } else if c == '*' {
        TokenType::Asterisk
    } else if c == '<' {
        TokenType::LT
    } else if c == '>' {
        TokenType::GT
    } else if c == '[' {
        TokenType::LBracket
    } else if c == ']' {
        TokenType::RBracket
    } else if c == ':' {
        TokenType::Colon
    } else {
        TokenType::Illegal
    }
}

// ---------------------------------------------------------------------------
// Maximal runs and string scanning
// ---------------------------------------------------------------------------
/// Length of the maximal white-space prefix of `s`.
pub open spec fn ws_run(s: Seq<char>) -> nat
    decreases s.len(),
{
    if s.len() > 0 && spec_is_whitespace(s[0]) {
        (1 + ws_run(s.drop_first())) as nat
    } else {
        0
    }
}

/// Length of the maximal identifier-character prefix of `s`.
pub open spec fn ident_run(s: Seq<char>) -> nat
    decreases s.len(),
{
    if s.len() > 0 && spec_is_ident_char(s[0]) {
        (1 + ident_run(s.drop_first())) as nat
    } else {
        0
    }
}

/// Length of the maximal decimal-digit prefix of `s`.
pub open spec fn digit_run(s: Seq<char>) -> nat
    decreases s.len(),
{
    if s.len() > 0 && spec_is_digit(s[0]) {
        (1 + digit_run(s.drop_first())) as nat
    } else {
        0
    }
}

/// String scanning, entered after the opening quote has been consumed.
///
/// `s` is the input that remains; `prev` is the character consumed just
/// before it, if any. A quote whose predecessor is a backslash counts as
/// content; the first other quote closes the string. The result is the
/// number of characters consumed, closing quote included, or `None` when
/// the input ends before an unescaped closing quote.
pub open spec fn scan_string(s: Seq<char>, prev: Option<char>) -> Option<nat>
    decreases s.len(),
{
    if s.len() == 0 {
        None
    } else if s[0] == '"' && prev != Some('\\') {
        Some(1nat)
    } else {
        match scan_string(s.drop_first(), Some(s[0])) {
            Some(n) => Some((n + 1) as nat),
            None => None,
        }
    }
}

// ---------------------------------------------------------------------------
// Position tracking
// ---------------------------------------------------------------------------
/// The (row, column) position reached from `(row, col)` after consuming the
/// characters of `p`: each newline moves to column 1 of the next row, every
/// other character advances the column by one.
pub open spec fn adv_pos(row: nat, col: nat, p: Seq<char>) -> (nat, nat)
    decreases p.len(),
{
    if p.len() == 0 {
        (row, col)
    } else {
        let rc = adv_pos(row, col, p.drop_last());
        if p.last() == '\n' {
            ((rc.0 + 1) as nat, 1nat)
        } else {
            (rc.0, (rc.1 + 1) as nat)
        }
    }
}

// ---------------------------------------------------------------------------
// The tokenization function
// ---------------------------------------------------------------------------
/// The kind and length of the first token of `t`, for non-empty `t` that
/// starts with a non-white-space character.
///
/// Classification goes by the head character: direct single-character
/// punctuation first; then `!` and `=` with one character of lookahead;
/// then string scanning after `"`; then maximal-munch identifier and
/// integer runs; any other character is a single-character `Illegal` token.
/// An unterminated string consumes everything and is `Illegal`.
pub open spec fn head_token(t: Seq<char>) -> (TokenType, nat)
    recommends
        t.len() > 0,
{
    let c = t[0];
    if spec_is_punct(c) {
        (punct_type(c), 1nat)
    } else if c == '!' {
        if t.len() >= 2 && t[1] == '=' {
            (TokenType::NotEq, 2nat)
        } else {
            (TokenType::Bang, 1nat)
        }
    } else if c == '=' {
        if t.len() >= 2 && t[1] == '=' {
            (TokenType::Eq, 2nat)
        } else {
            (TokenType::Assign, 1nat)
        }
    } else if c == '"' {
        match scan_string(t.drop_first(), None) {
            Some(n) => (TokenType::Str, (n + 1) as nat),
            None => (TokenType::Illegal, t.len()),
        }
    } else if spec_is_letter(c) {
        let n = (1 + ident_run(t.drop_first())) as nat;
        (spec_lookup(t.take(n as int)), n)
    } else if spec_is_digit(c) {
        (TokenType::Int, (1 + digit_run(t.drop_first())) as nat)
    } else {
        (TokenType::Illegal, 1nat)
    }
}

/// The full token sequence of `s`, scanning from position `(row, col)`:
/// skip the maximal white-space run, then emit the head token and continue
/// after it. Every token records the position of its first character.
pub open spec fn spec_tokens_at(s: Seq<char>, row: nat, col: nat) -> Seq<TokenView>
    decreases s.len(),
    via spec_tokens_at_decreases
{
    let k = ws_run(s);
    let t = s.skip(k as int);
    let rc = adv_pos(row, col, s.take(k as int));
    if t.len() == 0 {
        Seq::empty()
    } else {
        let ht = head_token(t);
        let lit = t.take(ht.1 as int);
        let tok = TokenView { type_: ht.0, literal: lit, row: rc.0, col: rc.1 };
        let rc2 = adv_pos(rc.0, rc.1, lit);
        seq![tok] + spec_tokens_at(t.skip(ht.1 as int), rc2.0, rc2.1)
    }
}

#[via_fn]
proof fn spec_tokens_at_decreases(s: Seq<char>, row: nat, col: nat) {
    lemma_ws_run_le(s);
    let t = s.skip(ws_run(s) as int);
    if t.len() > 0 {
        lemma_head_token_len(t);
    }
}

/// The token sequence of a whole input, which starts at row 0, column 1.
pub open spec fn spec_tokens(s: Seq<char>) -> Seq<TokenView> {
    spec_tokens_at(s, 0, 1)
}

// ---------------------------------------------------------------------------
// Basic lemmas about runs, scanning and positions
// ---------------------------------------------------------------------------
/// A white-space run never exceeds the sequence it is a prefix of.
pub proof fn lemma_ws_run_le(s: Seq<char>)
    ensures
        ws_run(s) <= s.len(),
    decreases s.len(),
{
    if s.len() > 0 && spec_is_whitespace(s[0]) {
        lemma_ws_run_le(s.drop_first());
    }
}

/// An identifier run never exceeds the sequence it is a prefix of.
pub proof fn lemma_ident_run_le(s: Seq<char>)
    ensures
        ident_run(s) <= s.len(),
    decreases s.len(),
{
    if s.len() > 0 && spec_is_ident_char(s[0]) {
        lemma_ident_run_le(s.drop_first());
    }
}

/// A digit run never exceeds the sequence it is a prefix of.
pub proof fn lemma_digit_run_le(s: Seq<char>)
    ensures
        digit_run(s) <= s.len(),
    decreases s.len(),
{
    if s.len() > 0 && spec_is_digit(s[0]) {
        lemma_digit_run_le(s.drop_first());
    }
}

/// A successful string scan consumes at least one character and no more
/// than the input that remained.
pub proof fn lemma_scan_string_le(s: Seq<char>, prev: Option<char>)
    ensures
        scan_string(s, prev) matches Some(n) ==> 1 <= n <= s.len(),
    decreases s.len(),
{
    if s.len() > 0 {
        lemma_scan_string_le(s.drop_first(), Some(s[0]));
    }
}

/// The head token of a non-empty input consumes between one character and
/// the whole input.
pub proof fn lemma_head_token_len(t: Seq<char>)
    requires
        t.len() > 0,
    ensures
        1 <= head_token(t).1 <= t.len(),
{
    let c = t[0];
    if c == '"' && !spec_is_punct(c) {
        lemma_scan_string_le(t.drop_first(), None);
    }
    if spec_is_letter(c) {
        lemma_ident_run_le(t.drop_first());
    }
    if spec_is_digit(c) {
        lemma_digit_run_le(t.drop_first());
    }
}

/// Positions compose: advancing over `p + q` is advancing over `p`, then
/// over `q`.
pub proof fn lemma_adv_pos_concat(row: nat, col: nat, p: Seq<char>, q: Seq<char>)
    ensures
        adv_pos(row, col, p + q) == adv_pos(adv_pos(row, col, p).0, adv_pos(row, col, p).1, q),
    decreases q.len(),
{
    if q.len() == 0 {
        assert(p + q =~= p);
    } else {
        assert((p + q).drop_last() =~= p + q.drop_last());
        lemma_adv_pos_concat(row, col, p, q.drop_last());
    }
}

/// The characters inside a white-space run are white space, and the first
/// character past it, if any, is not.
pub proof fn lemma_ws_run_chars(s: Seq<char>)
    ensures
        forall|i: int| 0 <= i < ws_run(s) ==> spec_is_whitespace(#[trigger] s[i]),
        ws_run(s) < s.len() ==> !spec_is_whitespace(s[ws_run(s) as int]),
    decreases s.len(),
{
    lemma_ws_run_le(s);
    if s.len() > 0 && spec_is_whitespace(s[0]) {
        lemma_ws_run_le(s.drop_first());
        lemma_ws_run_chars(s.drop_first());
        assert forall|i: int| 0 <= i < ws_run(s) implies spec_is_whitespace(#[trigger] s[i]) by {
            if i > 0 {
                assert(s.drop_first()[i - 1] == s[i]);
            }
        }
    }
}

/// The characters inside an identifier run are identifier characters, and
/// the first character past it, if any, is not.
pub proof fn lemma_ident_run_chars(s: Seq<char>)
    ensures
        forall|i: int| 0 <= i < ident_run(s) ==> spec_is_ident_char(#[trigger] s[i]),
        ident_run(s) < s.len() ==> !spec_is_ident_char(s[ident_run(s) as int]),
    decreases s.len(),
{
    lemma_ident_run_le(s);
    if s.len() > 0 && spec_is_ident_char(s[0]) {
        lemma_ident_run_le(s.drop_first());
        lemma_ident_run_chars(s.drop_first());
        assert forall|i: int| 0 <= i < ident_run(s) implies spec_is_ident_char(
            #[trigger] s[i],
        ) by {
            if i > 0 {
                assert(s.drop_first()[i - 1] == s[i]);
            }
        }
    }
}

/// The characters inside a digit run are digits, and the first character
/// past it, if any, is not.
pub proof fn lemma_digit_run_chars(s: Seq<char>)
    ensures
        forall|i: int| 0 <= i < digit_run(s) ==> spec_is_digit(#[trigger] s[i]),
        digit_run(s) < s.len() ==> !spec_is_digit(s[digit_run(s) as int]),
    decreases s.len(),
{
    lemma_digit_run_le(s);
    if s.len() > 0 && spec_is_digit(s[0]) {
        lemma_digit_run_le(s.drop_first());
        lemma_digit_run_chars(s.drop_first());
        assert forall|i: int| 0 <= i < digit_run(s) implies spec_is_digit(#[trigger] s[i]) by {
            if i > 0 {
                assert(s.drop_first()[i - 1] == s[i]);
            }
        }
    }
}

/// A white-space run stops exactly at the end of an all-white-space prefix
/// whose continuation does not start with white space.
pub proof fn lemma_ws_run_concat(w: Seq<char>, x: Seq<char>)
    requires
        forall|i: int| 0 <= i < w.len() ==> spec_is_whitespace(#[trigger] w[i]),
        x.len() > 0 ==> !spec_is_whitespace(x[0]),
    ensures
        ws_run(w + x) == w.len(),
    decreases w.len(),
{
    if w.len() == 0 {
        assert(w + x =~= x);
    } else {
        assert((w + x).drop_first() =~= w.drop_first() + x);
        lemma_ws_run_concat(w.drop_first(), x);
    }
}

/// An identifier run stops exactly at the end of an all-identifier prefix
/// whose continuation does not start with an identifier character.
pub proof fn lemma_ident_run_concat(a: Seq<char>, b: Seq<char>)
    requires
        forall|i: int| 0 <= i < a.len() ==> spec_is_ident_char(#[trigger] a[i]),
        b.len() > 0 ==> !spec_is_ident_char(b[0]),
    ensures
        ident_run(a + b) == a.len(),
    decreases a.len(),
{
    if a.len() == 0 {
        assert(a + b =~= b);
    } else {
        assert((a + b).drop_first() =~= a.drop_first() + b);
        lemma_ident_run_concat(a.drop_first(), b);
    }
}

/// A digit run stops exactly at the end of an all-digit prefix whose
/// continuation does not start with a digit.
pub proof fn lemma_digit_run_concat(a: Seq<char>, b: Seq<char>)
    requires
        forall|i: int| 0 <= i < a.len() ==> spec_is_digit(#[trigger] a[i]),
        b.len() > 0 ==> !spec_is_digit(b[0]),
    ensures
        digit_run(a + b) == a.len(),
    decreases a.len(),
{
    if a.len() == 0 {
        assert(a + b =~= b);
    } else {
        assert((a + b).drop_first() =~= a.drop_first() + b);
        lemma_digit_run_concat(a.drop_first(), b);
    }
}

/// A successful string scan is already determined by the part it consumed.
pub proof fn lemma_scan_string_prefix(s: Seq<char>, prev: Option<char>, n: nat)
    requires
        scan_string(s, prev) == Some(n),
    ensures
        scan_string(s.take(n as int), prev) == Some(n),
    decreases s.len(),
{
    lemma_scan_string_le(s, prev);
    if s[0] == '"' && prev != Some('\\') {
        assert(s.take(1) =~= seq![s[0]]);
    } else {
        lemma_scan_string_prefix(s.drop_first(), Some(s[0]), (n - 1) as nat);
        assert(s.take(n as int).drop_first() =~= s.drop_first().take(n - 1));
        assert(s.take(n as int)[0] == s[0]);
    }
}

/// A successful string scan is unaffected by anything appended after the
/// input it was scanned from.
pub proof fn lemma_scan_string_extend(s: Seq<char>, prev: Option<char>, r: Seq<char>, n: nat)
    requires
        scan_string(s, prev) == Some(n),
    ensures
        scan_string(s + r, prev) == Some(n),
    decreases s.len(),
{
    lemma_scan_string_le(s, prev);
    assert((s + r)[0] == s[0]);
    if s[0] == '"' && prev != Some('\\') {
    } else {
        lemma_scan_string_extend(s.drop_first(), Some(s[0]), r, (n - 1) as nat);
        assert((s + r).drop_first() =~= s.drop_first() + r);
    }
}

/// Advancing over a single character.
pub proof fn lemma_adv_pos_one(row: nat, col: nat, ch: char)
    ensures
        adv_pos(row, col, seq![ch]) == if ch == '\n' {
            (((row + 1) as nat, 1nat))
        } else {
            ((row, (col + 1) as nat))
        },
{
    let p = seq![ch];
    assert(p.drop_last() =~= Seq::<char>::empty());
    assert(adv_pos(row, col, p.drop_last()) == (row, col));
    assert(p.last() == ch);
}

/// Advancing over `p.push(ch)` is advancing over `p`, then over `ch`.
pub proof fn lemma_adv_pos_push(row: nat, col: nat, p: Seq<char>, ch: char)
    ensures
        adv_pos(row, col, p.push(ch)) == ({
            let rc = adv_pos(row, col, p);
            if ch == '\n' {
                (((rc.0 + 1) as nat, 1nat))
            } else {
                ((rc.0, (rc.1 + 1) as nat))
            }
        }),
{
    assert(p.push(ch).drop_last() =~= p);
    assert(p.push(ch).last() == ch);
}

// ---------------------------------------------------------------------------
// The executable scanner
// ---------------------------------------------------------------------------
/// The tokenizer: a cursor over the characters of a borrowed text buffer,
/// with one token's worth of accumulated characters between `start` and
/// `pos`.
///
/// Construction takes the whole source; each call of [`Lexer::next`] pulls
/// exactly one token. The fields are the scanner's cursor state; they are
/// exposed so that the specification functions below can speak about them,
/// and every operation requires and preserves [`Lexer::wf`].
pub struct Lexer<'a> {
    /// The full source text.
    pub text: &'a String,
    /// Number of characters in `text`.
    pub len: usize,
    /// Index of the next character to consume.
    pub pos: usize,
    /// Index of the first character of the token being built.
    pub start: usize,
    /// Row of the cursor, starting at 0; advanced by each consumed newline.
    pub row: usize,
    /// Column of the cursor, starting at 1; reset by each consumed newline.
    pub col: usize,
}

impl<'a> Lexer<'a> {
    /// The cursor is inside the text and the position counters are sound.
    pub open spec fn wf(&self) -> bool {
        &&& self.len == self.text@.len()
        &&& self.text@.len() < usize::MAX
        &&& self.start <= self.pos <= self.len
        &&& 1 <= self.col
        &&& self.col <= self.pos + 1
        &&& self.row <= self.pos
    }

    /// The characters not yet consumed.
    pub open spec fn remaining(&self) -> Seq<char> {
        self.text@.skip(self.pos as int)
    }

    /// The characters accumulated for the token being built.
    pub open spec fn cur(&self) -> Seq<char> {
        self.text@.subrange(self.start as int, self.pos as int)
    }

    /// The tokens this scanner has yet to emit.
    pub open spec fn upcoming(&self) -> Seq<TokenView> {
        spec_tokens_at(self.remaining(), self.row as nat, self.col as nat)
    }

    /// A fresh scanner over `input`, positioned at row 0, column 1.
    pub fn new(input: &'a String) -> (l: Lexer<'a>)
        requires
            input@.len() < usize::MAX,
        ensures
            l.wf(),
            l.text@ == input@,
            l.remaining() == input@,
            l.row == 0,
            l.col == 1,
            l.upcoming() == spec_tokens(input@),
    {
        let len = input.as_str().unicode_len();
        let l = Lexer { text: input, len, pos: 0, start: 0, row: 0, col: 1 };
        proof {
            assert(l.remaining() =~= input@);
        }
        l
    }

    /// The next character, if any, without consuming it.
    fn peek(&self) -> (r: Option<char>)
        requires
            self.wf(),
        ensures
            r == if self.pos < self.len {
                Some(self.text@[self.pos as int])
            } else {
                None::<char>
            },
    {
        if self.pos < self.len {
            Some(self.text.as_str().get_char(self.pos))
        } else {
            None
        }
    }

    /// Consumes one character, adding it to the current accumulation and
    /// advancing the row and column counters.
    fn next_char(&mut self) -> (r: Option<char>)
        requires
            old(self).wf(),
        ensures
            final(self).wf(),
            final(self).text@ == old(self).text@,
            final(self).len == old(self).len,
            final(self).start == old(self).start,
            old(self).pos < old(self).len ==> {
                let c = old(self).text@[old(self).pos as int];
                &&& r == Some(c)
                &&& final(self).pos == old(self).pos + 1
                &&& (c == '\n' ==> final(self).row == old(self).row + 1 && final(self).col == 1)
                &&& (c != '\n' ==> final(self).row == old(self).row && final(self).col == old(
                    self,
                ).col + 1)
            },
            old(self).pos >= old(self).len ==> {
                &&& r == None::<char>
                &&& final(self).pos == old(self).pos
                &&& final(self).row == old(self).row
                &&& final(self).col == old(self).col
            },
    {
        if self.pos < self.len {
            let c = self.text.as_str().get_char(self.pos);
            self.pos = self.pos + 1;
            if c == '\n' {
                self.col = 1;
                self.row = self.row + 1;
            } else {
                self.col = self.col + 1;
            }
            Some(c)
        } else {
            None
        }
    }

    /// The accumulated characters of the token being built, as a `String`.
    fn current_literal(&self) -> (s: String)
        requires
            self.wf(),
        ensures
            s@ == self.cur(),
    {
        self.text.as_str().substring_char(self.start, self.pos).to_owned()
    }

    /// Discards the maximal white-space run at the cursor and resets the
    /// accumulation to start at the new position.
    fn eat_whitespace(&mut self)
        requires
            old(self).wf(),
        ensures
            final(self).wf(),
            final(self).text@ == old(self).text@,
            final(self).len == old(self).len,
            final(self).pos == old(self).pos + ws_run(old(self).remaining()),
            final(self).start == final(self).pos,
            (final(self).row as nat, final(self).col as nat) == adv_pos(
                old(self).row as nat,
                old(self).col as nat,
                old(self).remaining().take(ws_run(old(self).remaining()) as int),
            ),
    {
        loop
            invariant
                self.wf(),
                self.text@ == old(self).text@,
                self.len == old(self).len,
                self.start == old(self).start,
                old(self).pos <= self.pos,
                ws_run(old(self).remaining()) == (self.pos - old(self).pos) + ws_run(
                    self.remaining(),
                ),
                (self.row as nat, self.col as nat) == adv_pos(
                    old(self).row as nat,
                    old(self).col as nat,
                    old(self).remaining().take(self.pos - old(self).pos),
                ),
            ensures
                self.remaining().len() == 0 || !spec_is_whitespace(self.remaining()[0]),
            decreases self.len - self.pos,
        {
            let c_opt = self.peek();
            let go = match c_opt {
                Some(c) => is_whitespace(c),
                None => false,
            };
            if !go {
                break ;
            }
            proof {
                assert(self.remaining().len() > 0);
                assert(self.remaining()[0] == self.text@[self.pos as int]);
                assert(self.remaining().drop_first() =~= self.text@.skip(self.pos + 1));
            }
            let ghost pre = *self;
            self.next_char();
            proof {
                let j = pre.pos - old(self).pos;
                let rem0 = old(self).remaining();
                assert(rem0.take(j + 1) =~= rem0.take(j).push(rem0[j]));
                assert(rem0[j] == old(self).text@[pre.pos as int]);
                lemma_adv_pos_push(old(self).row as nat, old(self).col as nat, rem0.take(j), rem0[j]);
            }
        }
        proof {
            assert(ws_run(self.remaining()) == 0);
        }
        self.start = self.pos;
    }

    /// After a consumed `=`: a second `=` makes `Eq`, anything else
    /// (consuming nothing) makes `Assign`.
    fn read_equals(&mut self) -> (t: TokenType)
        requires
            old(self).wf(),
        ensures
            final(self).wf(),
            final(self).text@ == old(self).text@,
            final(self).len == old(self).len,
            final(self).start == old(self).start,
            ({
                let rem = old(self).remaining();
                if rem.len() > 0 && rem[0] == '=' {
                    &&& t == TokenType::Eq
                    &&& final(self).pos == old(self).pos + 1
                    &&& (final(self).row as nat, final(self).col as nat) == adv_pos(
                        old(self).row as nat,
                        old(self).col as nat,
                        rem.take(1),
                    )
                } else {
                    &&& t == TokenType::Assign
                    &&& final(self).pos == old(self).pos
                    &&& final(self).row == old(self).row
                    &&& final(self).col == old(self).col
                }
            }),
    {
        let c_opt = self.peek();
        let matched = match c_opt {
            Some(c) => c == '=',
            None => false,
        };
        if matched {
            self.next_char();
            proof {
                let rem = old(self).remaining();
                assert(rem.take(1) =~= seq![rem[0]]);
                lemma_adv_pos_one(old(self).row as nat, old(self).col as nat, rem[0]);
            }
            TokenType::Eq
        } else {
            TokenType::Assign
        }
    }

    /// After a consumed `!`: a following `=` makes `NotEq`, anything else
    /// (consuming nothing) makes `Bang`.
    fn read_bang(&mut self) -> (t: TokenType)
        requires
            old(self).wf(),
        ensures
            final(self).wf(),
            final(self).text@ == old(self).text@,
            final(self).len == old(self).len,
            final(self).start == old(self).start,
            ({
                let rem = old(self).remaining();
                if rem.len() > 0 && rem[0] == '=' {
                    &&& t == TokenType::NotEq
                    &&& final(self).pos == old(self).pos + 1
                    &&& (final(self).row as nat, final(self).col as nat) == adv_pos(
                        old(self).row as nat,
                        old(self).col as nat,
                        rem.take(1),
                    )
                } else {
                    &&& t == TokenType::Bang
                    &&& final(self).pos == old(self).pos
                    &&& final(self).row == old(self).row
                    &&& final(self).col == old(self).col
                }
            }),
    {
        let c_opt = self.peek();
        let matched = match c_opt {
            Some(c) => c == '=',
            None => false,
        };
        if matched {
            self.next_char();
            proof {
                let rem = old(self).remaining();
                assert(rem.take(1) =~= seq![rem[0]]);
                lemma_adv_pos_one(old(self).row as nat, old(self).col as nat, rem[0]);
            }
            TokenType::NotEq
        } else {
            TokenType::Bang
        }
    }

    /// After a consumed letter: consumes the maximal identifier run and
    /// classifies the accumulated text through the keyword table.
    fn read_identifier(&mut self) -> (t: TokenType)
        requires
            old(self).wf(),
        ensures
            final(self).wf(),
            final(self).text@ == old(self).text@,
            final(self).len == old(self).len,
            final(self).start == old(self).start,
            final(self).pos == old(self).pos + ident_run(old(self).remaining()),
            (final(self).row as nat, final(self).col as nat) == adv_pos(
                old(self).row as nat,
                old(self).col as nat,
                old(self).remaining().take(ident_run(old(self).remaining()) as int),
            ),
            t == spec_lookup(final(self).cur()),
    {
        loop
            invariant
                self.wf(),
                self.text@ == old(self).text@,
                self.len == old(self).len,
                self.start == old(self).start,
                old(self).pos <= self.pos,
                ident_run(old(self).remaining()) == (self.pos - old(self).pos) + ident_run(
                    self.remaining(),
                ),
                (self.row as nat, self.col as nat) == adv_pos(
                    old(self).row as nat,
                    old(self).col as nat,
                    old(self).remaining().take(self.pos - old(self).pos),
                ),
            ensures
                self.remaining().len() == 0 || !spec_is_ident_char(self.remaining()[0]),
            decreases self.len - self.pos,
        {
            let c_opt = self.peek();
            let go = match c_opt {
                Some(c) => is_ident_char(c),
                None => false,
            };
            if !go {
                break ;
            }
            proof {
                assert(self.remaining().drop_first() =~= self.text@.skip(self.pos + 1));
            }
            let ghost pre = *self;
            self.next_char();
            proof {
                let j = pre.pos - old(self).pos;
                let rem0 = old(self).remaining();
                assert(rem0.take(j + 1) =~= rem0.take(j).push(rem0[j]));
                assert(rem0[j] == old(self).text@[pre.pos as int]);
                lemma_adv_pos_push(old(self).row as nat, old(self).col as nat, rem0.take(j), rem0[j]);
            }
        }
        proof {
            assert(ident_run(self.remaining()) == 0);
        }
        let literal = self.current_literal();
        lookup_ident(&literal)
    }

    /// After a consumed digit: consumes the maximal decimal-digit run.
    fn read_int(&mut self) -> (t: TokenType)
        requires
            old(self).wf(),
        ensures
            final(self).wf(),
            final(self).text@ == old(self).text@,
            final(self).len == old(self).len,
            final(self).start == old(self).start,
            final(self).pos == old(self).pos + digit_run(old(self).remaining()),
            (final(self).row as nat, final(self).col as nat) == adv_pos(
                old(self).row as nat,
                old(self).col as nat,
                old(self).remaining().take(digit_run(old(self).remaining()) as int),
            ),
            t == TokenType::Int,
    {
        loop
            invariant
                self.wf(),
                self.text@ == old(self).text@,
                self.len == old(self).len,
                self.start == old(self).start,
                old(self).pos <= self.pos,
                digit_run(old(self).remaining()) == (self.pos - old(self).pos) + digit_run(
                    self.remaining(),
                ),
                (self.row as nat, self.col as nat) == adv_pos(
                    old(self).row as nat,
                    old(self).col as nat,
                    old(self).remaining().take(self.pos - old(self).pos),
                ),
            ensures
                self.remaining().len() == 0 || !spec_is_digit(self.remaining()[0]),
            decreases self.len - self.pos,
        {
            let c_opt = self.peek();
            let go = match c_opt {
                Some(c) => is_digit(c),
                None => false,
            };
            if !go {
                break ;
            }
            proof {
                assert(self.remaining().drop_first() =~= self.text@.skip(self.pos + 1));
            }
            let ghost pre = *self;
            self.next_char();
            proof {
                let j = pre.pos - old(self).pos;
                let rem0 = old(self).remaining();
                assert(rem0.take(j + 1) =~= rem0.take(j).push(rem0[j]));
                assert(rem0[j] == old(self).text@[pre.pos as int]);
                lemma_adv_pos_push(old(self).row as nat, old(self).col as nat, rem0.take(j), rem0[j]);
            }
        }
        proof {
            assert(digit_run(self.remaining()) == 0);
        }
        TokenType::Int
    }

    /// After a consumed opening quote: consumes through the first unescaped
    /// closing quote for `Str`, or everything that remains for `Illegal`
    /// when the input ends first.
    fn read_string(&mut self) -> (t: TokenType)
        requires
            old(self).wf(),
        ensures
            final(self).wf(),
            final(self).text@ == old(self).text@,
            final(self).len == old(self).len,
            final(self).start == old(self).start,
            ({
                let rem = old(self).remaining();
                match scan_string(rem, None) {
                    Some(n) => {
                        &&& t == TokenType::Str
                        &&& final(self).pos == old(self).pos + n
                        &&& (final(self).row as nat, final(self).col as nat) == adv_pos(
                            old(self).row as nat,
                            old(self).col as nat,
                            rem.take(n as int),
                        )
                    },
                    None => {
                        &&& t == TokenType::Illegal
                        &&& final(self).pos == final(self).len
                        &&& (final(self).row as nat, final(self).col as nat) == adv_pos(
                            old(self).row as nat,
                            old(self).col as nat,
                            rem,
                        )
                    },
                }
            }),
    {
        let mut prev: Option<char> = None;
        loop
            invariant
                self.wf(),
                self.text@ == old(self).text@,
                self.len == old(self).len,
                self.start == old(self).start,
                old(self).pos <= self.pos,
                prev == if self.pos == old(self).pos {
                    None::<char>
                } else {
                    Some(old(self).text@[self.pos - 1])
                },
                scan_string(old(self).remaining(), None) == (match scan_string(
                    self.remaining(),
                    prev,
                ) {
                    Some(m) => Some(((self.pos - old(self).pos) + m) as nat),
                    None => None::<nat>,
                }),
                (self.row as nat, self.col as nat) == adv_pos(
                    old(self).row as nat,
                    old(self).col as nat,
                    old(self).remaining().take(self.pos - old(self).pos),
                ),
            decreases self.len - self.pos,
        {
            let c_opt = self.peek();
            match c_opt {
                None => {
                    proof {
                        assert(self.remaining().len() == 0);
                        assert(old(self).remaining().take(self.pos - old(self).pos) =~= old(
                            self,
                        ).remaining());
                    }
                    return TokenType::Illegal;
                },
                Some(q) => {
                    let escaped = match prev {
                        Some(pc) => pc == '\\',
                        None => false,
                    };
                    proof {
                        assert(self.remaining()[0] == q);
                        assert(self.remaining().drop_first() =~= self.text@.skip(self.pos + 1));
                    }
                    if q == '"' && !escaped {
                        let ghost pre = *self;
                        self.next_char();
                        proof {
                            let j = pre.pos - old(self).pos;
                            let rem0 = old(self).remaining();
                            assert(scan_string(pre.remaining(), prev) == Some(1nat));
                            assert(rem0.take(j + 1) =~= rem0.take(j).push(rem0[j]));
                            lemma_adv_pos_push(
                                old(self).row as nat,
                                old(self).col as nat,
                                rem0.take(j),
                                rem0[j],
                            );
                        }
                        return TokenType::Str;
                    } else {
                        let ghost pre = *self;
                        prev = self.next_char();
                        proof {
                            let j = pre.pos - old(self).pos;
                            let rem0 = old(self).remaining();
                            assert(rem0.take(j + 1) =~= rem0.take(j).push(rem0[j]));
                            lemma_adv_pos_push(
                                old(self).row as nat,
                                old(self).col as nat,
                                rem0.take(j),
                                rem0[j],
                            );
                        }
                    }
                },
            }
        }
    }

    /// Pulls the next token, or `None` when only white space remains.
    ///
    /// The token returned is exactly the head of [`Lexer::upcoming`] as it
    /// stood before the call, and afterwards the scanner's upcoming tokens
    /// are the rest; exhaustion is reported if and only if no token was
    /// upcoming, and it persists.
    #[verifier::rlimit(60)]
    #[verifier::spinoff_prover]
    pub fn next(&mut self) -> (r: Option<Token>)
        requires
            old(self).wf(),
        ensures
            final(self).wf(),
            final(self).text@ == old(self).text@,
            match r {
                Some(tok) => {
                    &&& old(self).upcoming().len() > 0
                    &&& tok@ == old(self).upcoming()[0]
                    &&& final(self).upcoming() == old(self).upcoming().drop_first()
                },
                None => {
                    &&& old(self).upcoming().len() == 0
                    &&& final(self).upcoming().len() == 0
                },
            },
    {
        self.eat_whitespace();
        let ghost rem0 = old(self).remaining();
        let ghost k = ws_run(rem0) as int;
        let ghost t = rem0.skip(k);
        let ghost rc1 = adv_pos(old(self).row as nat, old(self).col as nat, rem0.take(k));
        let ghost pos1 = self.pos;
        proof {
            assert(self.remaining() =~= t);
            assert((self.row as nat, self.col as nat) == rc1);
        }
        let row = self.row;
        let col = self.col;
        let c_opt = self.next_char();
        let c: char;
        match c_opt {
            None => {
                proof {
                    assert(t.len() == 0);
                    assert(old(self).upcoming() =~= Seq::<TokenView>::empty());
                    assert(self.remaining() =~= t);
                    assert(self.upcoming() =~= Seq::<TokenView>::empty());
                }
                return None;
            },
            Some(got) => {
                c = got;
            },
        }
        let ghost rem1 = t.skip(1);
        proof {
            assert(t[0] == c);
            assert(t.drop_first() =~= rem1);
            assert(rem1 =~= self.remaining());
        }
        let type_: TokenType = match c {
            ';' => TokenType::Semicolon,
            '(' => TokenType::LParen,
            ')' => TokenType::RParen,
            ',' => TokenType::Comma,
            '+' => TokenType::Plus,
            '{' => TokenType::LBrace,
            '}' => TokenType::RBrace,
            '-' => TokenType::Minus,
            '/' => TokenType::Slash,
            '*' => TokenType::Asterisk,
            '<' => TokenType::LT,
            '>' => TokenType::GT,
            '[' => TokenType::LBracket,
            ']' => TokenType::RBracket,
            ':' => TokenType::Colon,
            '!' => self.read_bang(),
            '=' => self.read_equals(),
            '"' => self.read_string(),
            other => {
                if is_letter(other) {
                    self.read_identifier()
                } else if is_digit(other) {
                    self.read_int()
                } else {
                    TokenType::Illegal
                }
            },
        };
        proof {
            let ht = head_token(t);
            let n = ht.1 as int;
            lemma_head_token_len(t);
            lemma_adv_pos_one(rc1.0, rc1.1, c);
            assert(seq![c] =~= t.take(1));
            if spec_is_punct(c) {
                assert(self.pos == pos1 + 1);
            } else if c == '!' || c == '=' {
                if rem1.len() > 0 && rem1[0] == '=' {
                    assert(t.len() >= 2 && t[1] == '=');
                    assert(t.take(2) =~= seq![c] + rem1.take(1));
                    lemma_adv_pos_concat(rc1.0, rc1.1, seq![c], rem1.take(1));
                } else {
                    assert(!(t.len() >= 2 && t[1] == '='));
                }
            } else if c == '"' {
                match scan_string(rem1, None) {
                    Some(m) => {
                        lemma_scan_string_le(rem1, None);
                        assert(t.take(m as int + 1) =~= seq![c] + rem1.take(m as int));
                        lemma_adv_pos_concat(rc1.0, rc1.1, seq![c], rem1.take(m as int));
                    },
                    None => {
                        assert(t.take(t.len() as int) =~= seq![c] + rem1);
                        lemma_adv_pos_concat(rc1.0, rc1.1, seq![c], rem1);
                        assert(self.pos == pos1 + t.len());
                    },
                }
            } else if spec_is_letter(c) {
                let m = ident_run(rem1) as int;
                lemma_ident_run_le(rem1);
                assert(t.take(1 + m) =~= seq![c] + rem1.take(m));
                lemma_adv_pos_concat(rc1.0, rc1.1, seq![c], rem1.take(m));
                assert(self.cur() =~= t.take(1 + m));
            } else if spec_is_digit(c) {
                let m = digit_run(rem1) as int;
                lemma_digit_run_le(rem1);
                assert(t.take(1 + m) =~= seq![c] + rem1.take(m));
                lemma_adv_pos_concat(rc1.0, rc1.1, seq![c], rem1.take(m));
            } else {
                assert(self.pos == pos1 + 1);
            }
            assert(type_ == ht.0);
            assert(self.pos == pos1 + n);
            assert((self.row as nat, self.col as nat) == adv_pos(rc1.0, rc1.1, t.take(n)));
        }
        let literal = self.current_literal();
        let tok = Token { type_, literal, row, col };
        proof {
            let ht = head_token(t);
            let n = ht.1 as int;
            let tv = TokenView { type_: ht.0, literal: t.take(n), row: rc1.0, col: rc1.1 };
            let rc2 = adv_pos(rc1.0, rc1.1, t.take(n));
            assert(self.cur() =~= t.take(n));
            assert(tok@ =~= tv);
            assert(old(self).upcoming() == seq![tv] + spec_tokens_at(t.skip(n), rc2.0, rc2.1));
            assert(old(self).upcoming()[0] == tv);
            assert(self.remaining() =~= t.skip(n));
            assert(self.upcoming() == spec_tokens_at(t.skip(n), rc2.0, rc2.1));
            assert(old(self).upcoming().drop_first() =~= self.upcoming());
        }
        Some(tok)
    }
}

} // verus!
