use vstd::prelude::*;

use crate::tokens::{Number, Operation, Paren, Token};
use crate::text::{digits_text, push_digits, push_str};
use crate::{collect_items, collected_as, lemma_prefixed_twice, prefixed};

verus! {

/// What went wrong while scanning.
#[derive(Debug, Clone, Copy, PartialEq, Eq, Structural)]
pub enum TokenizeErrorKind {
    /// A character that starts no token.
    InvalidSymbol,
    /// A run of digits whose value does not fit in an `i64`.
    NumberTooLarge,
}

/// A scanning failure, with its offset counted from the scan position at
/// which the failing step began (not from the start of the input).
#[derive(Debug, Clone, Copy, PartialEq, Eq, Structural)]
pub struct TokenizeError {
    pub kind: TokenizeErrorKind,
    pub at: usize,
}

impl TokenizeError {
    pub fn invalid_symbol(at: usize) -> (e: TokenizeError)
        ensures
            e == (TokenizeError { kind: TokenizeErrorKind::InvalidSymbol, at }),
    {
        TokenizeError { kind: TokenizeErrorKind::InvalidSymbol, at }
    }

    /// A one-line description of the failure.
    pub open spec fn text(self) -> Seq<char> {
        match self.kind {
            TokenizeErrorKind::InvalidSymbol => "invalid symbol at offset "@ + digits_text(self.at as nat),
            TokenizeErrorKind::NumberTooLarge => "number too large"@,
        }
    }

    pub fn to_text(&self) -> (r: String)
        ensures
            r@ == self.text(),
    {
        let mut s = String::new();
        match self.kind {
            TokenizeErrorKind::InvalidSymbol => {
                push_str(&mut s, "invalid symbol at offset ");
                push_digits(&mut s, self.at as u64);
            },
            TokenizeErrorKind::NumberTooLarge => push_str(&mut s, "number too large"),
        }
        assert(s@ =~= self.text());
        s
    }

    pub fn number_too_large(at: usize) -> (e: TokenizeError)
        ensures
            e == (TokenizeError { kind: TokenizeErrorKind::NumberTooLarge, at }),
    {
        TokenizeError { kind: TokenizeErrorKind::NumberTooLarge, at }
    }
}

/// Characters with the Unicode `White_Space` property.
pub open spec fn is_space(c: char) -> bool {
    c == '\t' || c == '\n' || c == '\u{0B}' || c == '\u{0C}' || c == '\r' || c == ' '
        || c == '\u{85}' || c == '\u{A0}' || c == '\u{1680}' || ('\u{2000}' <= c <= '\u{200A}')
        || c == '\u{2028}' || c == '\u{2029}' || c == '\u{202F}' || c == '\u{205F}'
        || c == '\u{3000}'
}

pub open spec fn is_digit(c: char) -> bool {
    '0' <= c <= '9'
}

pub open spec fn digit_value(c: char) -> int {
    c as int - '0' as int
}

/// Length of the longest prefix of `s` whose characters all satisfy `p`.
pub open spec fn prefix_run(s: Seq<char>, p: spec_fn(char) -> bool) -> nat
    decreases s.len(),
{
    if s.len() > 0 && p(s[0]) {
        1 + prefix_run(s.drop_first(), p)
    } else {
        0
    }
}

pub open spec fn space_run(s: Seq<char>) -> nat {
    prefix_run(s, |c: char| is_space(c))
}

pub open spec fn digit_run(s: Seq<char>) -> nat {
    prefix_run(s, |c: char| is_digit(c))
}

/// Decimal value of a sequence of digits, most significant first.
pub open spec fn digits_value(d: Seq<char>) -> int
    decreases d.len(),
{
    if d.len() == 0 {
        0
    } else {
        digits_value(d.drop_last()) * 10 + digit_value(d.last())
    }
}

pub open spec fn oper_of(c: char) -> Option<Operation> {
    if c == '+' {
        Some(Operation::Add)
    } else if c == '-' {
        Some(Operation::Sub)
    } else if c == '*' {
        Some(Operation::Mul)
    } else if c == '/' {
        Some(Operation::Div)
    } else {
        None
    }
}

/// One scanning step on the unconsumed text `s`: `None` at the end of the
/// input, otherwise the next item and how many characters it consumes.
pub open spec fn scan(s: Seq<char>) -> Option<(Result<Token, TokenizeError>, int)> {
    let w = space_run(s) as int;
    let r = s.skip(w);
    if r.len() == 0 {
        None
    } else if is_digit(r[0]) {
        let d = digit_run(r) as int;
        let v = digits_value(r.take(d));
        if v <= i64::MAX {
            Some((Ok(Token::Number(Number(v as i64))), w + d))
        } else {
            Some((Err(TokenizeError { kind: TokenizeErrorKind::NumberTooLarge, at: 0 }), w))
        }
    } else if oper_of(r[0]) is Some {
        Some((Ok(Token::Oper(oper_of(r[0])->0)), w + 1))
    } else if r[0] == '(' {
        Some((Ok(Token::Paren(Paren::Left)), w + 1))
    } else if r[0] == ')' {
        Some((Ok(Token::Paren(Paren::Right)), w + 1))
    } else {
        Some((Err(TokenizeError { kind: TokenizeErrorKind::InvalidSymbol, at: w as usize }), w))
    }
}

/// Every item the lexer yields for the text `s`, in order: the tokens, and
/// after them at most one error, which ends the sequence.
pub open spec fn lex(s: Seq<char>) -> Seq<Result<Token, TokenizeError>>
    decreases s.len(),
    via lex_decreases
{
    match scan(s) {
        None => seq![],
        Some((Err(e), _)) => seq![Err(e)],
        Some((Ok(t), n)) => seq![Ok(t)] + lex(s.skip(n)),
    }
}

pub proof fn lemma_prefix_run(s: Seq<char>, p: spec_fn(char) -> bool)
    ensures
        prefix_run(s, p) <= s.len(),
        forall|k: int| 0 <= k < prefix_run(s, p) ==> p(s[k]),
        prefix_run(s, p) == s.len() || !p(s[prefix_run(s, p) as int]),
    decreases s.len(),
{
    if s.len() > 0 && p(s[0]) {
        lemma_prefix_run(s.drop_first(), p);
        assert forall|k: int| 0 <= k < prefix_run(s, p) implies p(s[k]) by {
            if k > 0 {
                assert(s[k] == s.drop_first()[k - 1]);
            }
        }
    }
}

/// Each item consumes at least one character.
pub proof fn lemma_lex_len(s: Seq<char>)
    ensures
        lex(s).len() <= s.len(),
    decreases s.len(),
{
    lemma_prefix_run(s, |c: char| is_space(c));
    let w = space_run(s) as int;
    lemma_prefix_run(s.skip(w), |c: char| is_digit(c));
    if let Some((Ok(t), n)) = scan(s) {
        lemma_lex_len(s.skip(n));
    }
}

#[via_fn]
proof fn lex_decreases(s: Seq<char>) {
    lemma_prefix_run(s, |c: char| is_space(c));
    let w = space_run(s) as int;
    lemma_prefix_run(s.skip(w), |c: char| is_digit(c));
}


pub proof fn lemma_digits_value_grows(d: Seq<char>, j: int)
    requires
        0 <= j <= d.len(),
        forall|k: int| 0 <= k < d.len() ==> is_digit(d[k]),
    ensures
        0 <= digits_value(d.take(j)) <= digits_value(d),
    decreases d.len() - j,
{
    if j < d.len() {
        lemma_digits_value_grows(d, j + 1);
        assert(d.take(j + 1).drop_last() == d.take(j));
    } else {
        assert(d.take(j) == d);
        lemma_digits_value_nonneg(d);
    }
}

proof fn lemma_digits_value_nonneg(d: Seq<char>)
    requires
        forall|k: int| 0 <= k < d.len() ==> is_digit(d[k]),
    ensures
        0 <= digits_value(d),
    decreases d.len(),
{
    if d.len() > 0 {
        lemma_digits_value_nonneg(d.drop_last());
    }
}

fn is_whitespace(c: char) -> (r: bool)
    ensures
        r == is_space(c),
{
    match c {
        '\t' | '\n' | '\u{0B}' | '\u{0C}' | '\r' | ' ' | '\u{85}' | '\u{A0}' | '\u{1680}' => true,
        '\u{2000}'..='\u{200A}' => true,
        '\u{2028}' | '\u{2029}' | '\u{202F}' | '\u{205F}' | '\u{3000}' => true,
        _ => false,
    }
}

fn is_decimal_digit(c: char) -> (r: bool)
    ensures
        r == is_digit(c),
{
    '0' <= c && c <= '9'
}

fn try_parse_oper(part: char) -> (r: Option<Operation>)
    ensures
        r == oper_of(part),
{
    match part {
        '+' => Some(Operation::Add),
        '-' => Some(Operation::Sub),
        '*' => Some(Operation::Mul),
        '/' => Some(Operation::Div),
        _ => None,
    }
}

/// Scanning sub-state.
#[derive(Debug, Clone, Copy, PartialEq, Eq, Structural)]
enum State {
    /// At the first digit of a number.
    Number,
    /// Between tokens.
    General,
}

/// Result of one sub-state step.
enum Outcome {
    Token(Token),
    State(State),
    Done,
    Error(TokenizeError),
}

/// Lazy lexer over one line of text.
#[derive(Debug)]
pub struct Tokenizer {
    chars: Vec<char>,
    pos: usize,
    state: State,
    finished: bool,
}

/// Starts lexing `input`.
pub fn tokenize(input: &str) -> (t: Tokenizer)
    ensures
        t.wf(),
        t.pending() == lex(input@),
{
    let mut chars: Vec<char> = Vec::new();
    for c in it: input.chars()
        invariant
            it.seq() == input@,
            chars@ == it.seq().take(it.index() as int),
    {
        chars.push(c);
    }
    let t = Tokenizer { chars, pos: 0, state: State::General, finished: false };
    assert(t.chars@.skip(0) == input@);
    t
}

impl Tokenizer {
    pub closed spec fn wf(&self) -> bool {
        &&& self.pos <= self.chars.len()
        &&& self.state == State::General
    }

    /// The unconsumed text.
    closed spec fn rest(&self) -> Seq<char> {
        self.chars@.skip(self.pos as int)
    }

    pub proof fn lemma_pending_fits(&self)
        requires
            self.wf(),
        ensures
            self.pending().len() <= usize::MAX,
    {
        lemma_lex_len(self.rest());
    }

    /// The items this lexer has yet to yield.
    pub closed spec fn pending(&self) -> Seq<Result<Token, TokenizeError>> {
        if self.finished {
            seq![]
        } else {
            lex(self.rest())
        }
    }

    /// General sub-state: skips whitespace, then decides on the next character.
    fn general_step(&self) -> (r: (Outcome, usize))
        requires
            self.pos <= self.chars.len(),
        ensures
            self.pos + r.1 <= self.chars.len(),
            ({
                let s = self.rest();
                let w = space_run(s) as int;
                let (out, skip) = r;
                if w == s.len() {
                    out is Done && skip == w
                } else if is_digit(s[w]) {
                    out == Outcome::State(State::Number) && skip == w
                } else if oper_of(s[w]) is Some {
                    out == Outcome::Token(Token::Oper(oper_of(s[w])->0)) && skip == w + 1
                } else if s[w] == '(' {
                    out == Outcome::Token(Token::Paren(Paren::Left)) && skip == w + 1
                } else if s[w] == ')' {
                    out == Outcome::Token(Token::Paren(Paren::Right)) && skip == w + 1
                } else {
                    out == Outcome::Error(TokenizeError { kind: TokenizeErrorKind::InvalidSymbol, at: w as usize })
                        && skip == 0
                }
            }),
    {
        let ghost s = self.rest();
        let len = self.chars.len();
        let mut i = self.pos;
        while i < len && is_whitespace(self.chars[i])
            invariant
                self.pos <= i <= len == self.chars.len(),
                s == self.rest(),
                forall|k: int| 0 <= k < i - self.pos ==> is_space(s[k]),
            decreases len - i,
        {
            i += 1;
        }
        let to_skip = i - self.pos;
        proof {
            lemma_prefix_run(s, |c: char| is_space(c));
            let w = space_run(s) as int;
            if w < to_skip {
                assert(!is_space(s[w]));
            }
            if to_skip < w {
                assert(is_space(s[to_skip as int]));
                assert(s[to_skip as int] == self.chars@[i as int]);
            }
        }
        if i == len {
            return (Outcome::Done, to_skip);
        }
        let ch = self.chars[i];
        assert(ch == s[to_skip as int]);
        if is_decimal_digit(ch) {
            (Outcome::State(State::Number), to_skip)
        } else if let Some(op) = try_parse_oper(ch) {
            (Outcome::Token(Token::Oper(op)), to_skip + 1)
        } else if ch == '(' {
            (Outcome::Token(Token::Paren(Paren::Left)), to_skip + 1)
        } else if ch == ')' {
            (Outcome::Token(Token::Paren(Paren::Right)), to_skip + 1)
        } else {
            (Outcome::Error(TokenizeError::invalid_symbol(to_skip)), 0)
        }
    }

    /// Yields the next item: a token, or the first error, after which
    /// nothing more comes.
    pub fn next(&mut self) -> (r: Option<Result<Token, TokenizeError>>)
        requires
            old(self).wf(),
        ensures
            final(self).wf(),
            old(self).pending().len() == 0 ==> r is None && final(self).pending().len() == 0,
            old(self).pending().len() > 0 ==> r == Some(old(self).pending()[0])
                && final(self).pending() == old(self).pending().drop_first(),
    {
        if self.finished {
            return None;
        }
        let ghost s = self.rest();
        let ghost w = space_run(s) as int;
        proof {
            lemma_prefix_run(s, |c: char| is_space(c));
        }
        loop
            invariant
                self.pos <= self.chars.len(),
                !self.finished,
                w == space_run(s),
                s == old(self).rest(),
                !old(self).finished,
                self.state == State::General ==> self.rest() == s,
                self.state == State::Number ==> self.rest() == s.skip(w) && w < s.len()
                    && is_digit(s[w]),
            decreases
                if self.state == State::General { 1int } else { 0int },
        {
            let (outcome, to_skip) = match self.state {
                State::Number => self.number_step(),
                State::General => self.general_step(),
            };
            let ghost before = self.rest();
            let ghost was_number = self.state == State::Number;
            self.pos = self.pos + to_skip;
            proof {
                assert(self.rest() == before.skip(to_skip as int));
            }
            match outcome {
                Outcome::Token(tok) => {
                    self.state = State::General;
                    proof {
                        lemma_prefix_run(s, |c: char| is_space(c));
                        let (_, n) = scan(s)->0;
                        if was_number {
                            assert(s.skip(w).skip(to_skip as int) =~= s.skip(w + to_skip));
                        }
                        assert(self.rest() == s.skip(n));
                        assert(lex(s) == seq![Ok(tok)] + lex(s.skip(n)));
                        assert((seq![Ok(tok)] + lex(s.skip(n))).drop_first() == lex(s.skip(n)));
                        assert(lex(s).len() > 0);
                    }
                    return Some(Ok(tok));
                },
                Outcome::State(ns) => {
                    self.state = ns;
                },
                Outcome::Done => {
                    self.finished = true;
                    return None;
                },
                Outcome::Error(err) => {
                    self.finished = true;
                    self.state = State::General;
                    proof {
                        lemma_prefix_run(s, |c: char| is_space(c));
                    }
                    assert(lex(s) == seq![Err::<Token, TokenizeError>(err)]);
                    return Some(Err(err));
                },
            }
        }
    }

    /// Drains the lexer: all tokens, or the first error.
    pub fn collect_all(&mut self) -> (r: Result<Vec<Token>, TokenizeError>)
        requires
            old(self).wf(),
        ensures
            final(self).wf(),
            collected_as(r, old(self).pending()),
    {
        let ghost items = self.pending();
        let mut out: Vec<Token> = Vec::new();
        loop
            invariant
                self.wf(),
                items == old(self).pending(),
                collect_items(items) == prefixed(out@, collect_items(self.pending())),
            decreases self.pending().len(),
        {
            let ghost p = self.pending();
            match self.next() {
                None => {
                    proof {
                        lemma_prefixed_twice(out@, seq![], collect_items(self.pending()));
                    }
                    return Ok(out);
                },
                Some(Ok(t)) => {
                    proof {
                        assert(p.drop_first() == self.pending());
                        lemma_prefixed_twice(out@, seq![t], collect_items(self.pending()));
                    }
                    out.push(t);
                },
                Some(Err(e)) => return Err(e),
            }
        }
    }

    /// Number sub-state: reads the maximal run of digits as one literal;
    /// with no digit at the scan position, goes back to the general state.
    fn number_step(&self) -> (r: (Outcome, usize))
        requires
            self.pos <= self.chars.len(),
        ensures
            self.pos + r.1 <= self.chars.len(),
            ({
                let s = self.rest();
                let d = digit_run(s) as int;
                let v = digits_value(s.take(d));
                let (out, skip) = r;
                if d == 0 {
                    out == Outcome::State(State::General) && skip == 0
                } else if v <= i64::MAX {
                    out == Outcome::Token(Token::Number(Number(v as i64))) && skip == d
                } else {
                    out == Outcome::Error(TokenizeError { kind: TokenizeErrorKind::NumberTooLarge, at: 0 })
                        && skip == 0
                }
            }),
    {
        let ghost s = self.rest();
        let len = self.chars.len();
        let mut i = self.pos;
        let mut value: i64 = 0;
        let mut overflow = false;
        while i < len && is_decimal_digit(self.chars[i])
            invariant
                self.pos <= i <= len == self.chars.len(),
                s == self.rest(),
                forall|k: int| 0 <= k < i - self.pos ==> is_digit(s[k]),
                !overflow ==> value == digits_value(s.take(i - self.pos)),
                overflow ==> digits_value(s.take(i - self.pos)) > i64::MAX,
            decreases len - i,
        {
            let ghost k = i - self.pos;
            let digit = (self.chars[i] as u32 - '0' as u32) as i64;
            proof {
                assert(s[k] == self.chars@[i as int]);
                assert(s.take(k + 1).drop_last() == s.take(k));
                assert(s.take(k + 1).last() == s[k]);
                if overflow {
                    let t = s.take(k + 1);
                    assert(forall|m: int| 0 <= m < k + 1 ==> is_digit(#[trigger] t[m]));
                    lemma_digits_value_grows(t, k);
                    assert(s.take(k + 1).take(k) == s.take(k));
                }
            }
            if !overflow {
                match value.checked_mul(10) {
                    Some(tens) => match tens.checked_add(digit) {
                        Some(v) => {
                            value = v;
                        },
                        None => {
                            overflow = true;
                        },
                    },
                    None => {
                        overflow = true;
                        proof {
                            let t = s.take(k);
                            assert(forall|m: int| 0 <= m < k ==> is_digit(#[trigger] t[m]));
                            lemma_digits_value_nonneg(t);
                        }
                    },
                }
            }
            i += 1;
        }
        let to_skip = i - self.pos;
        proof {
            lemma_prefix_run(s, |c: char| is_digit(c));
            let d = digit_run(s) as int;
            if d < to_skip {
                assert(!is_digit(s[d]));
            }
            if to_skip < d {
                assert(is_digit(s[to_skip as int]));
                assert(s[to_skip as int] == self.chars@[i as int]);
            }
        }
        if to_skip == 0 {
            (Outcome::State(State::General), 0)
        } else if overflow {
            (Outcome::Error(TokenizeError::number_too_large(0)), 0)
        } else {
            (Outcome::Token(Token::Number(Number(value))), to_skip)
        }
    }
}

} // verus!
