use vstd::prelude::*;

pub mod eval;
pub mod parser;
pub mod text;
pub mod tokenizer;
pub mod tokens;

pub use eval::{calculate, EvalError};

use eval::{evaluate, lemma_balanced_prefix_evaluates, no_paren_tokens};
use parser::{
    chain_infix, chain_postfix, lemma_equal_priority_keeps_order, lexed, parsed, same_priority,
    free_of_parens, lemma_postfix_balanced, lemma_postfix_free_of_parens, postfix, step,
    ParseError, ParseModel, Step,
};
use text::{digit_char, digits_text};
use tokenizer::{
    digit_run, digit_value, digits_value, is_digit, is_space, lemma_prefix_run, lex, space_run,
    TokenizeError,
};
use text::push_char;
use tokens::{Number, Operation, Paren, Token};

verus! {

/// Receives tokens one at a time.
pub trait TokenVisitor: Sized {
    /// The visitor is ready to take `tok`.
    spec fn accepts(&self, tok: Token) -> bool;

    /// Taking `tok` turns `self` into `after`.
    spec fn visited(&self, tok: Token, after: &Self) -> bool;

    fn visit_paren(&mut self, paren: Paren)
        requires
            old(self).accepts(Token::Paren(paren)),
        ensures
            old(self).visited(Token::Paren(paren), final(self)),
    ;

    fn visit_op(&mut self, op: Operation)
        requires
            old(self).accepts(Token::Oper(op)),
        ensures
            old(self).visited(Token::Oper(op), final(self)),
    ;

    fn visit_num(&mut self, num: Number)
        requires
            old(self).accepts(Token::Number(num)),
        ensures
            old(self).visited(Token::Number(num), final(self)),
    ;

    fn visit_token(&mut self, tok: Token)
        requires
            old(self).accepts(tok),
        ensures
            old(self).visited(tok, final(self)),
    {
        match tok {
            Token::Number(num) => self.visit_num(num),
            Token::Paren(paren) => self.visit_paren(paren),
            Token::Oper(op) => self.visit_op(op),
        }
    }
}

/// Tokens written out with one space between neighbours.
pub open spec fn printed(toks: Seq<Token>) -> Seq<char>
    decreases toks.len(),
{
    if toks.len() == 0 {
        seq![]
    } else if toks.len() == 1 {
        toks[0].text()
    } else {
        printed(toks.drop_last()) + seq![' '] + toks.last().text()
    }
}

/// Writes a token sequence back as text.
#[derive(Debug)]
pub struct Printer<'t>(pub &'t [Token]);

impl<'t> Printer<'t> {
    pub fn to_text(&self) -> (r: String)
        ensures
            r@ == printed(self.0@),
    {
        let toks = self.0;
        let mut s = String::new();
        let mut i: usize = 0;
        while i < toks.len()
            invariant
                i <= toks.len(),
                s@ == printed(toks@.take(i as int)),
            decreases toks.len() - i,
        {
            let ghost before = s@;
            if i > 0 {
                push_char(&mut s, ' ');
            }
            toks[i].write_to(&mut s);
            proof {
                let t = toks@.take(i + 1);
                assert(t.drop_last() == toks@.take(i as int));
                if i == 0 {
                    assert(before == Seq::<char>::empty());
                    assert(s@ =~= t[0].text());
                } else {
                    assert(s@ =~= before + seq![' '] + t.last().text());
                }
            }
            i += 1;
        }
        assert(toks@.take(i as int) == toks@);
        s
    }
}

/// An empty line has no tokens, no postfix items, and the value 0.
pub proof fn lemma_empty_input()
    ensures
        lex(Seq::empty()) == Seq::<Result<Token, TokenizeError>>::empty(),
        postfix(Seq::empty()) == Seq::<Result<Token, ParseError>>::empty(),
        evaluate(Seq::empty()) == Ok::<i64, EvalError>(0),
{
    let s: Seq<char> = Seq::empty();
    lemma_prefix_run(s, |c: char| is_space(c));
    assert(s.skip(0).len() == 0);
    assert(step(ParseModel::start(Seq::empty())) == Step::Stop);
}

/// The output of a successful parse never trips the evaluator's checks on
/// the shape of its input: evaluating it fails only on division by zero or
/// overflow.
pub proof fn lemma_parsed_output_evaluates(input: Seq<Result<Token, TokenizeError>>)
    ensures
        collect_items(postfix(input)) matches Ok(out) ==> {
            ||| evaluate(out) is Ok
            ||| evaluate(out) == Err::<i64, EvalError>(EvalError::DivisionByZero)
            ||| evaluate(out) == Err::<i64, EvalError>(EvalError::Overflow)
        },
{
    lemma_postfix_balanced(input);
    lemma_postfix_free_of_parens(input);
    if let Ok(out) = collect_items(postfix(input)) {
        lemma_collected_free_of_parens(postfix(input));
        lemma_balanced_prefix_evaluates(out, out.len() as int);
        assert(out.take(out.len() as int) == out);
    }
}

proof fn lemma_collected_free_of_parens(items: Seq<Result<Token, ParseError>>)
    requires
        free_of_parens(items),
    ensures
        collect_items(items) matches Ok(out) ==> no_paren_tokens(out),
    decreases items.len(),
{
    if items.len() > 0 {
        assert(free_of_parens(items.drop_first())) by {
            assert forall|i: int| 0 <= i < items.drop_first().len() implies !(
            #[trigger] items.drop_first()[i] matches Ok(Token::Paren(_))) by {
                assert(items.drop_first()[i] == items[i + 1]);
            }
        }
        lemma_collected_free_of_parens(items.drop_first());
        if let Ok(t) = items[0] {
            assert(!(items[0] matches Ok(Token::Paren(_))));
            if let Ok(rest) = collect_items(items.drop_first()) {
                let out = seq![t] + rest;
                assert forall|i: int| 0 <= i < out.len() implies !(#[trigger] out[i] is Paren) by {
                    if i > 0 {
                        assert(out[i] == rest[i - 1]);
                    }
                }
            }
        }
    }
}

proof fn lemma_digits_text(n: nat)
    ensures
        digits_text(n).len() >= 1,
        forall|k: int| 0 <= k < digits_text(n).len() ==> is_digit(#[trigger] digits_text(n)[k]),
        digits_value(digits_text(n)) == n,
    decreases n,
{
    if n < 10 {
        let x = digits_text(n);
        assert(x.drop_last() == Seq::<char>::empty());
        assert(x.last() == digit_char(n as int));
        assert(digits_value(Seq::<char>::empty()) == 0);
        assert(digit_value(digit_char(n as int)) == n);
        assert(digits_value(x) == digits_value(x.drop_last()) * 10 + digit_value(x.last()));
    } else {
        lemma_digits_text(n / 10);
        let d = (n % 10) as int;
        let x = digits_text(n);
        assert(x.drop_last() == digits_text(n / 10));
        assert(x.last() == digit_char(d));
        assert(digit_value(digit_char(d)) == d);
        assert(forall|k: int| 0 <= k < x.len() - 1 ==> x[k] == digits_text(n / 10)[k]);
        assert(n == (n / 10) * 10 + d);
        assert(digits_value(x) == digits_value(x.drop_last()) * 10 + digit_value(x.last()));
    }
}

/// A literal written in decimal, followed by a non-digit or nothing, scans
/// as one `Number` token.
proof fn lemma_scan_literal(n: i64, t: Seq<char>)
    requires
        n >= 0,
        t.len() == 0 || !is_digit(t[0]),
    ensures
        lex(digits_text(n as nat) + t) == seq![Ok::<Token, TokenizeError>(Token::Number(Number(n)))]
            + lex(t),
{
    let x = digits_text(n as nat);
    let s = x + t;
    lemma_digits_text(n as nat);
    assert(s[0] == x[0]);
    lemma_prefix_run(s, |c: char| is_space(c));
    assert(space_run(s) == 0);
    assert(s.skip(0) == s);
    lemma_prefix_run(s, |c: char| is_digit(c));
    let r = digit_run(s) as int;
    if r < x.len() {
        assert(s[r] == x[r]);
    }
    if r > x.len() {
        assert(s[x.len() as int] == t[0]);
    }
    assert(r == x.len());
    assert(s.take(r) == x);
    assert(s.skip(r) == t);
}

/// An operator symbol scans as one `Oper` token.
proof fn lemma_scan_operator(op: Operation, t: Seq<char>)
    ensures
        lex(seq![op.spec_symbol()] + t) == seq![Ok::<Token, TokenizeError>(Token::Oper(op))] + lex(t),
{
    let s = seq![op.spec_symbol()] + t;
    lemma_prefix_run(s, |c: char| is_space(c));
    assert(s[0] == op.spec_symbol());
    assert(space_run(s) == 0);
    assert(s.skip(0) == s);
    assert(s.skip(1) == t);
}

/// Compact text `op1 n1 op2 n2 ...` (no spaces) of operator-operand pairs.
pub open spec fn chain_text(pairs: Seq<(Operation, i64)>) -> Seq<char>
    decreases pairs.len(),
{
    if pairs.len() == 0 {
        seq![]
    } else {
        seq![pairs[0].0.spec_symbol()] + digits_text(pairs[0].1 as nat) + chain_text(pairs.drop_first())
    }
}

pub open spec fn nonnegative_operands(pairs: Seq<(Operation, i64)>) -> bool {
    forall|i: int| 0 <= i < pairs.len() ==> (#[trigger] pairs[i]).1 >= 0
}

proof fn lemma_lex_chain_text(pairs: Seq<(Operation, i64)>)
    requires
        nonnegative_operands(pairs),
    ensures
        lex(chain_text(pairs)) == lexed(chain_infix(pairs)),
        chain_text(pairs).len() == 0 || !is_digit(chain_text(pairs)[0]),
    decreases pairs.len(),
{
    if pairs.len() == 0 {
        lemma_empty_input();
        assert(lexed(chain_infix(pairs)) =~= Seq::<Result<Token, TokenizeError>>::empty());
    } else {
        let (op, n) = pairs[0];
        let rest = pairs.drop_first();
        assert(nonnegative_operands(rest)) by {
            assert forall|i: int| 0 <= i < rest.len() implies (#[trigger] rest[i]).1 >= 0 by {
                assert(rest[i] == pairs[i + 1]);
            }
        }
        assert(pairs[0].1 >= 0);
        lemma_lex_chain_text(rest);
        let tail = digits_text(n as nat) + chain_text(rest);
        assert(chain_text(pairs) == seq![op.spec_symbol()] + tail);
        lemma_scan_operator(op, tail);
        lemma_scan_literal(n, chain_text(rest));
        assert(chain_infix(pairs) == seq![Token::Oper(op), Token::Number(Number(n))] + chain_infix(rest));
        assert(lexed(chain_infix(pairs)) =~= seq![
            Ok::<Token, TokenizeError>(Token::Oper(op)),
            Ok(Token::Number(Number(n))),
        ] + lexed(chain_infix(rest)));
        assert(lex(chain_text(pairs)) =~= seq![
            Ok::<Token, TokenizeError>(Token::Oper(op)),
            Ok(Token::Number(Number(n))),
        ] + lex(chain_text(rest)));
    }
}

/// Operators of equal priority are never reordered, stated on text: the
/// line `a op1 n1 op2 n2 ...` (decimal literals, no spaces) whose operators
/// all bind alike parses to `a n1 op1 n2 op2 ...`.
pub proof fn lemma_equal_priority_text_keeps_order(a: i64, pairs: Seq<(Operation, i64)>, prio: int)
    requires
        a >= 0,
        nonnegative_operands(pairs),
        same_priority(pairs, prio),
    ensures
        postfix(lex(digits_text(a as nat) + chain_text(pairs))) == parsed(
            seq![Token::Number(Number(a))] + chain_postfix(pairs),
        ),
{
    lemma_lex_chain_text(pairs);
    lemma_scan_literal(a, chain_text(pairs));
    assert(lexed(seq![Token::Number(Number(a))] + chain_infix(pairs)) =~= seq![
        Ok::<Token, TokenizeError>(Token::Number(Number(a))),
    ] + lexed(chain_infix(pairs)));
    lemma_equal_priority_keeps_order(a, pairs, prio);
}

/// The outcome of draining a sequence of fallible items: every value in
/// order, or the first error.
pub open spec fn collect_items<T, E>(items: Seq<Result<T, E>>) -> Result<Seq<T>, E>
    decreases items.len(),
{
    if items.len() == 0 {
        Ok(seq![])
    } else {
        match items[0] {
            Err(e) => Err(e),
            Ok(t) => prefixed(seq![t], collect_items(items.drop_first())),
        }
    }
}

/// `r` with `front` put before its values.
pub open spec fn prefixed<T, E>(front: Seq<T>, r: Result<Seq<T>, E>) -> Result<Seq<T>, E> {
    match r {
        Ok(v) => Ok(front + v),
        Err(e) => Err(e),
    }
}

pub proof fn lemma_prefixed_twice<T, E>(a: Seq<T>, b: Seq<T>, r: Result<Seq<T>, E>)
    ensures
        prefixed(a, prefixed(b, r)) == prefixed(a + b, r),
        prefixed(a, Ok::<Seq<T>, E>(seq![])) == Ok::<Seq<T>, E>(a),
{
    if let Ok(v) = r {
        assert(a + (b + v) == (a + b) + v);
    }
    assert(a + seq![] == a);
}

/// `r` is what draining `items` gives.
pub open spec fn collected_as<T, E>(r: Result<Vec<T>, E>, items: Seq<Result<T, E>>) -> bool {
    match r {
        Ok(v) => collect_items(items) == Ok::<Seq<T>, E>(v@),
        Err(e) => collect_items(items) == Err::<Seq<T>, E>(e),
    }
}

} // verus!
