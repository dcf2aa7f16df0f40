use vstd::prelude::*;

use crate::tokenizer::{tokenize, lex, TokenizeError, Tokenizer};
use crate::tokens::{Number, Operation, Paren, Token};
use crate::text::push_str;
use crate::{collect_items, collected_as, lemma_prefixed_twice, prefixed, TokenVisitor};

verus! {

/// Why an expression could not be put in postfix order.
#[derive(Debug, Clone, Copy, PartialEq, Eq, Structural)]
pub enum ParseError {
    /// The lexer failed; its error is passed on unchanged.
    Tokenization(TokenizeError),
    /// A `)` without a matching `(`, or a `(` never closed.
    UnmatchedParens,
    /// An operator with fewer than two operands available.
    NotEnoughArgs,
    /// Operands left with no operator to combine them.
    NotEnoughOps,
}

impl ParseError {
    /// A one-line description of the failure.
    pub open spec fn text(self) -> Seq<char> {
        match self {
            ParseError::Tokenization(e) => e.text(),
            ParseError::UnmatchedParens => "unmatched parentheses"@,
            ParseError::NotEnoughArgs => "an operator lacks operands"@,
            ParseError::NotEnoughOps => "operands lack an operator"@,
        }
    }

    pub fn to_text(&self) -> (r: String)
        ensures
            r@ == self.text(),
    {
        let text = match self {
            ParseError::Tokenization(e) => return e.to_text(),
            ParseError::UnmatchedParens => "unmatched parentheses",
            ParseError::NotEnoughArgs => "an operator lacks operands",
            ParseError::NotEnoughOps => "operands lack an operator",
        };
        let mut s = String::new();
        push_str(&mut s, text);
        assert(s@ =~= self.text());
        s
    }
}

/// An entry of the operator stack.
#[derive(Debug, Clone, Copy, PartialEq, Eq, Structural)]
pub enum Stacked {
    Op(Operation),
    LParen,
}

/// What the next step does with the token under examination.
#[derive(Debug, Clone, Copy, PartialEq, Eq, Structural)]
pub enum State {
    /// Pop operators to the output until a `(` is popped.
    PopParenLevel,
    /// Pop one operator to the output, then look at the token again.
    PopOp,
    /// Drop the token; nothing goes out.
    Skip,
    /// Send the token itself to the output.
    CurrToOut,
}

/// Abstract state of a parser: the lexer items still to read and the
/// parser's own fields.
pub struct ParseModel {
    pub input: Seq<Result<Token, TokenizeError>>,
    pub stack: Seq<Stacked>,
    pub curr: Option<Token>,
    pub state: State,
    pub args: int,
    pub parens: int,
    pub finished: bool,
}

/// What one step of the parser does.
pub enum Step {
    /// Nothing goes out; go on from this state.
    Continue(ParseModel),
    /// This item goes out, and the parser is then in this state.
    Yield(ParseModel, Result<Token, ParseError>),
    /// The output is over.
    Stop,
}

impl ParseModel {
    pub open spec fn start(input: Seq<Result<Token, TokenizeError>>) -> ParseModel {
        ParseModel {
            input,
            stack: seq![],
            curr: None,
            state: State::Skip,
            args: 0,
            parens: 0,
            finished: false,
        }
    }

    pub open spec fn finish(self) -> ParseModel {
        ParseModel { finished: true, ..self }
    }

    /// A quantity that every step lowers.
    pub open spec fn measure(self) -> int {
        3 * self.input.len() + (if self.curr is Some { 2int } else { 0 }) + self.stack.len() + (
        if self.finished {
            0int
        } else {
            1
        })
    }
}

/// An incoming operator `op` is pushed over `top` rather than popping it.
pub open spec fn defers_to(top: Stacked, op: Operation) -> bool {
    match top {
        Stacked::LParen => true,
        Stacked::Op(t) => t.priority() < op.priority(),
    }
}

/// The effect of examining `tok`.
pub open spec fn visit(s: ParseModel, tok: Token) -> ParseModel {
    match tok {
        Token::Number(_) => ParseModel { state: State::CurrToOut, ..s },
        Token::Paren(Paren::Left) => ParseModel {
            stack: s.stack.push(Stacked::LParen),
            state: State::Skip,
            parens: s.parens + 1,
            ..s
        },
        Token::Paren(Paren::Right) => if s.state == State::PopParenLevel {
            s
        } else {
            ParseModel { parens: s.parens - 1, state: State::PopParenLevel, ..s }
        },
        Token::Oper(op) => if s.stack.len() == 0 || defers_to(s.stack.last(), op) {
            ParseModel { stack: s.stack.push(Stacked::Op(op)), state: State::Skip, ..s }
        } else {
            ParseModel { state: State::PopOp, ..s }
        },
    }
}

/// Sends a popped operator to the output: the operand surplus drops by one,
/// and the parse fails when it is then no longer positive.
pub open spec fn emit_op(s: ParseModel, op: Operation) -> (ParseModel, Option<Result<Token, ParseError>>) {
    let out = ParseModel { args: s.args - 1, ..s };
    if out.args <= 0 {
        (out.finish(), Some(Err(ParseError::NotEnoughArgs)))
    } else {
        (out, Some(Ok(Token::Oper(op))))
    }
}

/// The output, if any, that the control state calls for.
pub open spec fn from_state(s: ParseModel) -> (ParseModel, Option<Result<Token, ParseError>>) {
    match s.state {
        State::PopParenLevel => if s.stack.len() == 0 {
            (s.finish(), Some(Err(ParseError::UnmatchedParens)))
        } else {
            let popped = ParseModel { stack: s.stack.drop_last(), ..s };
            match s.stack.last() {
                Stacked::LParen => (ParseModel { curr: None, state: State::Skip, ..popped }, None),
                Stacked::Op(op) => emit_op(popped, op),
            }
        },
        State::PopOp => if s.stack.len() == 0 {
            (s, None)
        } else {
            let popped = ParseModel { stack: s.stack.drop_last(), ..s };
            match s.stack.last() {
                Stacked::Op(op) => emit_op(popped, op),
                Stacked::LParen => (popped, None),
            }
        },
        State::Skip => (ParseModel { curr: None, ..s }, None),
        State::CurrToOut => match s.curr {
            Some(t) => (ParseModel { curr: None, args: s.args + 1, ..s }, Some(Ok(t))),
            None => (s, None),
        },
    }
}

pub open spec fn as_step(r: (ParseModel, Option<Result<Token, ParseError>>)) -> Step {
    match r.1 {
        Some(item) => Step::Yield(r.0, item),
        None => Step::Continue(r.0),
    }
}

/// Examines the token `tok`, which is held in `s.curr`: a `)` that takes the
/// open-parenthesis count below zero fails at once.
pub open spec fn examine(s: ParseModel, tok: Token) -> Step {
    let v = visit(s, tok);
    if tok == Token::Paren(Paren::Right) && v.parens < 0 {
        Step::Yield(v.finish(), Err(ParseError::UnmatchedParens))
    } else {
        as_step(from_state(v))
    }
}

/// One step of the parser.
pub open spec fn step(s: ParseModel) -> Step {
    if s.finished {
        Step::Stop
    } else if s.curr is Some {
        examine(s, s.curr->0)
    } else if s.input.len() == 0 {
        if s.stack.len() == 0 {
            if s.args > 1 {
                Step::Yield(s.finish(), Err(ParseError::NotEnoughOps))
            } else if s.parens != 0 {
                Step::Yield(s.finish(), Err(ParseError::UnmatchedParens))
            } else {
                Step::Stop
            }
        } else if s.parens != 0 {
            Step::Yield(s.finish(), Err(ParseError::UnmatchedParens))
        } else {
            as_step(from_state(ParseModel { state: State::PopParenLevel, ..s }))
        }
    } else {
        let rest = s.input.drop_first();
        match s.input[0] {
            Err(e) => Step::Yield(ParseModel { input: rest, ..s }.finish(), Err(ParseError::Tokenization(e))),
            Ok(tok) => examine(ParseModel { input: rest, curr: Some(tok), ..s }, tok),
        }
    }
}

/// Every item the parser yields from the state `s`.
pub open spec fn run(s: ParseModel) -> Seq<Result<Token, ParseError>>
    decreases s.measure(),
{
    match step(s) {
        Step::Stop => seq![],
        Step::Yield(next, item) => seq![item] + run(next),
        Step::Continue(next) => run(next),
    }
}

/// Every item the parser yields when fed the lexer items `input`: the postfix
/// tokens, and after them at most one error, which ends the sequence.
pub open spec fn postfix(input: Seq<Result<Token, TokenizeError>>) -> Seq<Result<Token, ParseError>> {
    run(ParseModel::start(input))
}

/// No item of `items` is a parenthesis token.
pub open spec fn free_of_parens(items: Seq<Result<Token, ParseError>>) -> bool {
    forall|i: int| 0 <= i < items.len() ==> !(#[trigger] items[i] matches Ok(Token::Paren(_)))
}

proof fn lemma_run_free_of_parens(s: ParseModel)
    ensures
        free_of_parens(run(s)),
    decreases s.measure(),
{
    match step(s) {
        Step::Stop => {},
        Step::Continue(next) => {
            lemma_run_free_of_parens(next);
        },
        Step::Yield(next, item) => {
            lemma_run_free_of_parens(next);
            let items = run(s);
            assert(items == seq![item] + run(next));
            assert forall|i: int| 0 <= i < items.len() implies !(#[trigger] items[i] matches Ok(
                Token::Paren(_),
            )) by {
                if i > 0 {
                    assert(items[i] == run(next)[i - 1]);
                }
            }
        },
    }
}

/// Parentheses only shape the order: the parser never yields one.
pub proof fn lemma_postfix_free_of_parens(input: Seq<Result<Token, TokenizeError>>)
    ensures
        free_of_parens(postfix(input)),
{
    lemma_run_free_of_parens(ParseModel::start(input));
}

/// How a token moves the operand surplus.
pub open spec fn arity_step(t: Token) -> int {
    match t {
        Token::Number(_) => 1,
        Token::Oper(_) => -1,
        Token::Paren(_) => 0,
    }
}

/// Operands minus operators in `toks`.
pub open spec fn surplus(toks: Seq<Token>) -> int
    decreases toks.len(),
{
    if toks.len() == 0 {
        0
    } else {
        arity_step(toks[0]) + surplus(toks.drop_first())
    }
}

/// Every nonempty prefix of `toks` has more operands than operators, and
/// the whole of it, if nonempty, exactly one more.
pub open spec fn well_balanced(toks: Seq<Token>) -> bool {
    &&& forall|k: int| 1 <= k <= toks.len() ==> surplus(#[trigger] toks.take(k)) >= 1
    &&& toks.len() > 0 ==> surplus(toks) == 1
}

proof fn lemma_step_counts(s: ParseModel)
    requires
        !s.finished,
        s.args >= 0,
    ensures
        step(s) matches Step::Yield(next, Ok(t)) ==> !next.finished && next.args >= 1
            && next.args == s.args + arity_step(t),
        step(s) matches Step::Continue(next) ==> !next.finished && next.args == s.args,
        step(s) is Stop ==> s.args <= 1,
{
}

proof fn lemma_run_balanced(s: ParseModel)
    requires
        !s.finished,
        s.args >= 0,
    ensures
        collect_items(run(s)) matches Ok(out) ==> {
            &&& forall|k: int| 1 <= k <= out.len() ==> s.args + surplus(#[trigger] out.take(k)) >= 1
            &&& s.args + surplus(out) <= 1
        },
    decreases s.measure(),
{
    lemma_step_counts(s);
    match step(s) {
        Step::Stop => {
            assert(run(s) == Seq::<Result<Token, ParseError>>::empty());
            assert(collect_items(run(s)) == Ok::<Seq<Token>, ParseError>(seq![]));
        },
        Step::Continue(next) => {
            lemma_run_balanced(next);
        },
        Step::Yield(next, item) => {
            let items = run(s);
            assert(items == seq![item] + run(next));
            if let Ok(t) = item {
                lemma_run_balanced(next);
                assert(items.drop_first() == run(next));
                if let Ok(out2) = collect_items(run(next)) {
                    let out = seq![t] + out2;
                    assert(collect_items(items) == Ok::<Seq<Token>, ParseError>(out));
                    assert(out.drop_first() == out2);
                    assert(surplus(out) == arity_step(t) + surplus(out2));
                    assert forall|k: int| 1 <= k <= out.len() implies s.args + surplus(
                        #[trigger] out.take(k),
                    ) >= 1 by {
                        let p = out.take(k);
                        assert(p[0] == t);
                        assert(p.drop_first() == out2.take(k - 1));
                        assert(surplus(p) == arity_step(t) + surplus(out2.take(k - 1)));
                        if k == 1 {
                            assert(out2.take(0) == Seq::<Token>::empty());
                        }
                    }
                }
            }
        },
    }
}

/// A successful parse yields a well-formed postfix sequence: after its
/// first token every prefix holds more operands than operators, and the
/// whole holds exactly one more.
pub proof fn lemma_postfix_balanced(input: Seq<Result<Token, TokenizeError>>)
    ensures
        collect_items(postfix(input)) matches Ok(out) ==> well_balanced(out),
{
    lemma_run_balanced(ParseModel::start(input));
    if let Ok(out) = collect_items(postfix(input)) {
        assert(out.take(out.len() as int) == out);
    }
}

/// Infix tokens `op1 n1 op2 n2 ...` of operator-operand pairs.
pub open spec fn chain_infix(pairs: Seq<(Operation, i64)>) -> Seq<Token>
    decreases pairs.len(),
{
    if pairs.len() == 0 {
        seq![]
    } else {
        seq![Token::Oper(pairs[0].0), Token::Number(Number(pairs[0].1))] + chain_infix(
            pairs.drop_first(),
        )
    }
}

/// Postfix tokens `n1 op1 n2 op2 ...` of operator-operand pairs.
pub open spec fn chain_postfix(pairs: Seq<(Operation, i64)>) -> Seq<Token>
    decreases pairs.len(),
{
    if pairs.len() == 0 {
        seq![]
    } else {
        seq![Token::Number(Number(pairs[0].1)), Token::Oper(pairs[0].0)] + chain_postfix(
            pairs.drop_first(),
        )
    }
}

/// The lexer items for a sequence of tokens that lexed without error.
pub open spec fn lexed(toks: Seq<Token>) -> Seq<Result<Token, TokenizeError>> {
    toks.map_values(|t: Token| Ok(t))
}

/// The parser items for a postfix sequence yielded without error.
pub open spec fn parsed(toks: Seq<Token>) -> Seq<Result<Token, ParseError>> {
    toks.map_values(|t: Token| Ok(t))
}

pub open spec fn same_priority(pairs: Seq<(Operation, i64)>, prio: int) -> bool {
    forall|i: int| 0 <= i < pairs.len() ==> (#[trigger] pairs[i]).0.priority() == prio
}

/// State of the parser with the first operator of `pairs` on the stack and
/// its operand next in the input.
pub open spec fn chain_state(pairs: Seq<(Operation, i64)>) -> ParseModel {
    ParseModel {
        input: lexed(seq![Token::Number(Number(pairs[0].1))] + chain_infix(pairs.drop_first())),
        stack: seq![Stacked::Op(pairs[0].0)],
        curr: None,
        state: State::Skip,
        args: 1,
        parens: 0,
        finished: false,
    }
}

proof fn lemma_chain_run(pairs: Seq<(Operation, i64)>, prio: int)
    requires
        pairs.len() > 0,
        same_priority(pairs, prio),
    ensures
        run(chain_state(pairs)) == parsed(chain_postfix(pairs)),
    decreases pairs.len(),
{
    let s = chain_state(pairs);
    let (op, n) = pairs[0];
    let rest = pairs.drop_first();
    let s1 = ParseModel {
        input: lexed(chain_infix(rest)),
        curr: None,
        state: State::CurrToOut,
        args: 2,
        ..s
    };
    assert(s.input.drop_first() == s1.input);
    assert(step(s) == Step::Yield(s1, Ok::<Token, ParseError>(Token::Number(Number(n)))));
    assert(chain_postfix(pairs) == seq![Token::Number(Number(n)), Token::Oper(op)] + chain_postfix(rest));
    if rest.len() == 0 {
        let s2 = ParseModel { stack: seq![], state: State::PopParenLevel, args: 1, ..s1 };
        assert(s1.input.len() == 0);
        assert(s1.stack.drop_last() == s2.stack);
        assert(step(s1) == Step::Yield(s2, Ok::<Token, ParseError>(Token::Oper(op))));
        assert(step(s2) == Step::Stop);
        assert(run(s2) == Seq::<Result<Token, ParseError>>::empty());
        assert(chain_postfix(rest) == Seq::<Token>::empty());
        assert(run(s1) == seq![Ok(Token::Oper(op))] + run(s2));
        assert(run(s) == seq![Ok(Token::Number(Number(n)))] + run(s1));
        assert(run(s) =~= parsed(chain_postfix(pairs)));
    } else {
        let (op1, n1) = rest[0];
        assert(rest[0] == pairs[1]);
        assert(chain_infix(rest) == seq![Token::Oper(op1), Token::Number(Number(n1))] + chain_infix(rest.drop_first()));
        let s3 = chain_state(rest);
        let s2 = ParseModel { input: s3.input, stack: seq![], curr: Some(Token::Oper(op1)), state: State::PopOp, args: 1, ..s1 };
        assert(s1.input.drop_first() == s3.input);
        assert(s1.stack.drop_last() == s2.stack);
        assert(step(s1) == Step::Yield(s2, Ok::<Token, ParseError>(Token::Oper(op))));
        assert(s2.stack.push(Stacked::Op(op1)) == s3.stack);
        assert(step(s2) == Step::Continue(s3));
        assert forall|i: int| 0 <= i < rest.len() implies (#[trigger] rest[i]).0.priority() == prio by {
            assert(rest[i] == pairs[i + 1]);
        }
        lemma_chain_run(rest, prio);
        assert(run(s2) == run(s3));
        assert(run(s1) == seq![Ok(Token::Oper(op))] + run(s2));
        assert(run(s) == seq![Ok(Token::Number(Number(n)))] + run(s1));
        assert(run(s) =~= seq![Ok(Token::Number(Number(n))), Ok(Token::Oper(op))] + run(s3));
        assert(parsed(chain_postfix(pairs)) =~= seq![Ok(Token::Number(Number(n))), Ok(Token::Oper(op))] + parsed(chain_postfix(rest)));
    }
}

/// Operators of equal priority are never reordered: a chain
/// `a op1 n1 op2 n2 ...` whose operators all bind alike comes out as
/// `a n1 op1 n2 op2 ...`.
pub proof fn lemma_equal_priority_keeps_order(a: i64, pairs: Seq<(Operation, i64)>, prio: int)
    requires
        same_priority(pairs, prio),
    ensures
        postfix(lexed(seq![Token::Number(Number(a))] + chain_infix(pairs))) == parsed(
            seq![Token::Number(Number(a))] + chain_postfix(pairs),
        ),
{
    let s0 = ParseModel::start(lexed(seq![Token::Number(Number(a))] + chain_infix(pairs)));
    let s1 = ParseModel { input: lexed(chain_infix(pairs)), state: State::CurrToOut, args: 1, ..s0 };
    assert(s0.input.drop_first() == s1.input);
    assert(step(s0) == Step::Yield(s1, Ok::<Token, ParseError>(Token::Number(Number(a)))));
    if pairs.len() == 0 {
        assert(s1.input.len() == 0);
        assert(step(s1) == Step::Stop);
        assert(run(s1) == Seq::<Result<Token, ParseError>>::empty());
        assert(run(s0) == seq![Ok(Token::Number(Number(a)))] + run(s1));
        assert(chain_postfix(pairs) == Seq::<Token>::empty());
        assert(parsed(seq![Token::Number(Number(a))] + chain_postfix(pairs)) =~= run(s0));
    } else {
        let (op, n) = pairs[0];
        assert(chain_infix(pairs) == seq![Token::Oper(op), Token::Number(Number(n))] + chain_infix(pairs.drop_first()));
        let s2 = chain_state(pairs);
        assert(s1.input.drop_first() == s2.input);
        assert(step(s1) == Step::Continue(s2));
        lemma_chain_run(pairs, prio);
        assert(run(s1) == run(s2));
        assert(run(s0) == seq![Ok(Token::Number(Number(a)))] + run(s1));
        assert(parsed(seq![Token::Number(Number(a))] + chain_postfix(pairs)) =~= run(s0));
    }
}

/// Lazy shunting-yard parser: pulls tokens from a lexer and yields them in
/// postfix order, checking as it goes that the expression is well formed.
#[derive(Debug)]
pub struct Parser {
    inner: Tokenizer,
    stack: Vec<Stacked>,
    curr: Option<Token>,
    state: State,
    /// Operands minus operators sent to the output so far. Signed, so that it
    /// can show the drop below one that fails a parse; wide enough that the
    /// length of any input fits.
    arg_balance: i128,
    /// Open parentheses not yet closed; goes below zero on an unmatched `)`.
    par_balance: i128,
    finished: bool,
}

/// Starts parsing `input`.
pub fn parse(input: &str) -> (p: Parser)
    ensures
        p.wf(),
        p.pending() == postfix(lex(input@)),
{
    Parser::new(tokenize(input))
}

impl Parser {
    pub closed spec fn model(&self) -> ParseModel {
        ParseModel {
            input: self.inner.pending(),
            stack: self.stack@,
            curr: self.curr,
            state: self.state,
            args: self.arg_balance as int,
            parens: self.par_balance as int,
            finished: self.finished,
        }
    }

    /// Room left in the counters for the tokens still to come.
    closed spec fn headroom(&self) -> int {
        self.inner.pending().len() + (if self.curr is Some { 1int } else { 0 })
    }

    pub closed spec fn wf(&self) -> bool {
        &&& self.inner.wf()
        &&& -1 <= self.arg_balance && self.arg_balance + self.headroom() <= usize::MAX
        &&& -1 <= self.par_balance && self.par_balance + self.headroom() <= usize::MAX
        &&& !self.finished ==> self.arg_balance >= 0 && self.par_balance >= 0
    }

    /// Both read from the same lexer, in the same state.
    pub closed spec fn same_source(&self, other: &Self) -> bool {
        self.inner == other.inner
    }

    /// The items this parser has yet to yield.
    pub closed spec fn pending(&self) -> Seq<Result<Token, ParseError>> {
        run(self.model())
    }

    pub fn new(inner: Tokenizer) -> (p: Parser)
        requires
            inner.wf(),
        ensures
            p.wf(),
            p.pending() == postfix(inner.pending()),
    {
        proof {
            inner.lemma_pending_fits();
        }
        Parser {
            inner,
            stack: Vec::new(),
            curr: None,
            state: State::Skip,
            arg_balance: 0,
            par_balance: 0,
            finished: false,
        }
    }

    /// Yields the next item in postfix order: a token, or the first error,
    /// after which nothing more comes.
    pub fn next(&mut self) -> (r: Option<Result<Token, ParseError>>)
        requires
            old(self).wf(),
        ensures
            final(self).wf(),
            old(self).pending().len() == 0 ==> r is None && final(self).pending().len() == 0,
            old(self).pending().len() > 0 ==> r == Some(old(self).pending()[0])
                && final(self).pending() == old(self).pending().drop_first(),
            !(r matches Some(Ok(Token::Paren(_)))),
    {
        proof {
            lemma_run_free_of_parens(self.model());
        }
        if self.finished {
            return None;
        }
        loop
            invariant
                self.wf(),
                !self.finished,
                self.pending() == old(self).pending(),
            decreases self.model().measure(),
        {
            let ghost m = self.model();
            let curr = match self.curr {
                Some(c) => c,
                None => match self.inner.next() {
                    Some(Err(e)) => {
                        self.finished = true;
                        assert(step(m) == Step::Yield(
                            self.model(),
                            Err::<Token, ParseError>(ParseError::Tokenization(e)),
                        ));
                        return Some(Err(ParseError::Tokenization(e)));
                    },
                    Some(Ok(c)) => {
                        self.curr = Some(c);
                        c
                    },
                    None => {
                        assert(self.inner.pending() =~= m.input);
                        if self.stack.len() == 0 {
                            self.finished = true;
                            if self.arg_balance > 1 {
                                assert(step(m) == Step::Yield(
                                    self.model(),
                                    Err::<Token, ParseError>(ParseError::NotEnoughOps),
                                ));
                                return Some(Err(ParseError::NotEnoughOps));
                            }
                            if self.par_balance != 0 {
                                assert(step(m) == Step::Yield(
                                    self.model(),
                                    Err::<Token, ParseError>(ParseError::UnmatchedParens),
                                ));
                                return Some(Err(ParseError::UnmatchedParens));
                            }
                            return None;
                        }
                        if self.par_balance != 0 {
                            self.finished = true;
                            assert(step(m) == Step::Yield(
                                self.model(),
                                Err::<Token, ParseError>(ParseError::UnmatchedParens),
                            ));
                            return Some(Err(ParseError::UnmatchedParens));
                        }
                        self.state = State::PopParenLevel;
                        match self.token_from_state() {
                            Some(item) => {
                                assert(step(m) == Step::Yield(self.model(), item));
                                return Some(item);
                            },
                            None => {
                                assert(step(m) == Step::Continue(self.model()));
                                continue;
                            },
                        }
                    },
                },
            };
            self.visit_token(curr);
            if curr == Token::Paren(Paren::Right) && self.par_balance < 0 {
                self.finished = true;
                return Some(Err(ParseError::UnmatchedParens));
            }
            if let Some(item) = self.token_from_state() {
                return Some(item);
            }
        }
    }

    /// Drains the parser: the whole postfix sequence, or the first error.
    pub fn collect_all(&mut self) -> (r: Result<Vec<Token>, ParseError>)
        requires
            old(self).wf(),
        ensures
            final(self).wf(),
            collected_as(r, old(self).pending()),
    {
        let ghost items = self.pending();
        let mut out: Vec<Token> = Vec::new();
        loop
            invariant
                self.wf(),
                items == old(self).pending(),
                collect_items(items) == prefixed(out@, collect_items(self.pending())),
            decreases self.pending().len(),
        {
            let ghost p = self.pending();
            match self.next() {
                None => {
                    proof {
                        lemma_prefixed_twice(out@, seq![], collect_items(self.pending()));
                    }
                    return Ok(out);
                },
                Some(Ok(t)) => {
                    proof {
                        assert(p.drop_first() == self.pending());
                        lemma_prefixed_twice(out@, seq![t], collect_items(self.pending()));
                    }
                    out.push(t);
                },
                Some(Err(e)) => return Err(e),
            }
        }
    }

    fn emit_op(&mut self, op: Operation) -> (r: Option<Result<Token, ParseError>>)
        requires
            old(self).arg_balance > i128::MIN,
        ensures
            (final(self).model(), r) == emit_op(old(self).model(), op),
            final(self).inner == old(self).inner,
            final(self).arg_balance == old(self).arg_balance - 1,
            final(self).par_balance == old(self).par_balance,
    {
        self.arg_balance -= 1;
        if self.arg_balance <= 0 {
            self.finished = true;
            Some(Err(ParseError::NotEnoughArgs))
        } else {
            Some(Ok(Token::Oper(op)))
        }
    }

    fn token_from_state(&mut self) -> (r: Option<Result<Token, ParseError>>)
        requires
            old(self).state == State::CurrToOut && old(self).curr is Some
                ==> old(self).arg_balance < i128::MAX,
            old(self).arg_balance > i128::MIN,
        ensures
            (final(self).model(), r) == from_state(old(self).model()),
            final(self).inner == old(self).inner,
            final(self).par_balance == old(self).par_balance,
            final(self).curr is Some ==> old(self).curr is Some,
            final(self).arg_balance <= old(self).arg_balance + (if old(self).curr is Some && final(self).curr is None { 1int } else { 0 }),
    {
        match self.state {
            State::PopParenLevel => match self.stack.pop() {
                Some(Stacked::LParen) => {
                    self.curr = None;
                    self.state = State::Skip;
                    None
                },
                Some(Stacked::Op(op)) => self.emit_op(op),
                None => {
                    self.finished = true;
                    Some(Err(ParseError::UnmatchedParens))
                },
            },
            State::PopOp => match self.stack.pop() {
                Some(Stacked::Op(op)) => self.emit_op(op),
                _ => None,
            },
            State::Skip => {
                self.curr = None;
                None
            },
            State::CurrToOut => match self.curr.take() {
                Some(tok) => {
                    self.arg_balance += 1;
                    Some(Ok(tok))
                },
                None => None,
            },
        }
    }
}

impl TokenVisitor for Parser {
    /// A well-formed parser takes any token.
    open spec fn accepts(&self, tok: Token) -> bool {
        self.wf()
    }

    /// Taking a token changes the model as `visit` says, and nothing else.
    open spec fn visited(&self, tok: Token, after: &Self) -> bool {
        &&& after.model() == visit(self.model(), tok)
        &&& after.same_source(self)
    }

    fn visit_paren(&mut self, paren: Paren) {
        match paren {
            Paren::Left => {
                self.stack.push(Stacked::LParen);
                self.state = State::Skip;
                self.par_balance += 1;
            },
            Paren::Right => match self.state {
                State::PopParenLevel => {},
                _ => {
                    self.par_balance -= 1;
                    self.state = State::PopParenLevel;
                },
            },
        }
    }

    fn visit_op(&mut self, op: Operation) {
        let n = self.stack.len();
        let defer = if n == 0 {
            true
        } else {
            match self.stack[n - 1] {
                Stacked::LParen => true,
                Stacked::Op(stack_op) => stack_op.prio() < op.prio(),
            }
        };
        if defer {
            self.stack.push(Stacked::Op(op));
            self.state = State::Skip;
        } else {
            self.state = State::PopOp;
        }
    }

    fn visit_num(&mut self, _num: Number) {
        self.state = State::CurrToOut;
    }
}

} // verus!
