use vstd::prelude::*;

use crate::parser::{arity_step, surplus, well_balanced};
use crate::text::push_str;
use crate::tokens::{Number, Operation, Paren, Token};
use crate::TokenVisitor;

verus! {

/// Why a postfix sequence could not be evaluated. Division by zero and
/// overflow can come from well-formed expressions; the others mean that the
/// sequence was not the output of a successful parse.
#[derive(Debug, Clone, Copy, PartialEq, Eq, Structural)]
pub enum EvalError {
    /// A parenthesis token reached the evaluator.
    StrayParen,
    /// An operator found fewer than two values on the stack.
    MissingOperand,
    /// More than one value was left at the end.
    LeftoverOperands,
    DivisionByZero,
    /// A result does not fit in an `i64`.
    Overflow,
}

impl EvalError {
    /// A one-line description of the failure.
    pub open spec fn text(self) -> Seq<char> {
        match self {
            EvalError::StrayParen => "parenthesis in a postfix sequence"@,
            EvalError::MissingOperand => "an operator lacks operands"@,
            EvalError::LeftoverOperands => "operands lack an operator"@,
            EvalError::DivisionByZero => "division by zero"@,
            EvalError::Overflow => "result out of range"@,
        }
    }

    pub fn to_text(&self) -> (r: String)
        ensures
            r@ == self.text(),
    {
        let text = match self {
            EvalError::StrayParen => "parenthesis in a postfix sequence",
            EvalError::MissingOperand => "an operator lacks operands",
            EvalError::LeftoverOperands => "operands lack an operator",
            EvalError::DivisionByZero => "division by zero",
            EvalError::Overflow => "result out of range",
        };
        let mut s = String::new();
        push_str(&mut s, text);
        assert(s@ =~= self.text());
        s
    }
}

/// The value stack after taking `tok`, or the first failure.
pub open spec fn eval_token(st: Result<Seq<i64>, EvalError>, tok: Token) -> Result<Seq<i64>, EvalError> {
    match st {
        Err(e) => Err(e),
        Ok(stack) => match tok {
            Token::Number(Number(n)) => Ok(stack.push(n)),
            Token::Paren(_) => Err(EvalError::StrayParen),
            Token::Oper(op) => if stack.len() < 2 {
                Err(EvalError::MissingOperand)
            } else {
                let lhs = stack[stack.len() - 2];
                let rhs = stack[stack.len() - 1];
                if op == Operation::Div && rhs == 0 {
                    Err(EvalError::DivisionByZero)
                } else if !op.defined_for(lhs, rhs) {
                    Err(EvalError::Overflow)
                } else {
                    Ok(stack.take(stack.len() - 2).push(op.value_of(lhs as int, rhs as int) as i64))
                }
            },
        },
    }
}

/// The value stack after taking every token of `toks` in order.
pub open spec fn eval_all(toks: Seq<Token>) -> Result<Seq<i64>, EvalError>
    decreases toks.len(),
{
    if toks.len() == 0 {
        Ok(seq![])
    } else {
        eval_token(eval_all(toks.drop_last()), toks.last())
    }
}

/// The value of a postfix sequence: 0 when it is empty, the one value left
/// on the stack otherwise.
pub open spec fn evaluate(toks: Seq<Token>) -> Result<i64, EvalError> {
    match eval_all(toks) {
        Err(e) => Err(e),
        Ok(st) => if st.len() == 0 {
            Ok(0)
        } else if st.len() == 1 {
            Ok(st[0])
        } else {
            Err(EvalError::LeftoverOperands)
        },
    }
}

/// Stack machine that reduces a postfix sequence to one value.
#[derive(Debug)]
struct Calculator {
    stack: Vec<i64>,
    fault: Option<EvalError>,
}

impl Calculator {
    pub closed spec fn outcome(&self) -> Result<Seq<i64>, EvalError> {
        match self.fault {
            Some(e) => Err(e),
            None => Ok(self.stack@),
        }
    }

    fn new() -> (c: Calculator)
        ensures
            c.outcome() == Ok::<Seq<i64>, EvalError>(seq![]),
    {
        Calculator { stack: Vec::new(), fault: None }
    }

    fn calculate(&mut self, tokens: &[Token]) -> (r: Result<i64, EvalError>)
        requires
            old(self).outcome() == Ok::<Seq<i64>, EvalError>(seq![]),
        ensures
            r == evaluate(tokens@),
            r is Ok ==> final(self).stack@.len() == 0,
    {
        let mut i: usize = 0;
        while i < tokens.len()
            invariant
                i <= tokens.len(),
                self.outcome() == eval_all(tokens@.take(i as int)),
            decreases tokens.len() - i,
        {
            proof {
                assert(tokens@.take(i + 1).drop_last() == tokens@.take(i as int));
            }
            self.visit_token(tokens[i]);
            i += 1;
        }
        assert(tokens@.take(i as int) == tokens@);
        if let Some(e) = self.fault {
            return Err(e);
        }
        if self.stack.len() == 0 {
            Ok(0)
        } else if self.stack.len() > 1 {
            Err(EvalError::LeftoverOperands)
        } else {
            let value = self.stack.pop().unwrap();
            Ok(value)
        }
    }
}

impl TokenVisitor for Calculator {
    open spec fn accepts(&self, tok: Token) -> bool {
        true
    }

    open spec fn visited(&self, tok: Token, after: &Self) -> bool {
        after.outcome() == eval_token(self.outcome(), tok)
    }

    fn visit_paren(&mut self, _paren: Paren) {
        if self.fault.is_none() {
            self.fault = Some(EvalError::StrayParen);
        }
    }

    fn visit_op(&mut self, op: Operation) {
        if self.fault.is_some() {
            return;
        }
        if self.stack.len() < 2 {
            self.fault = Some(EvalError::MissingOperand);
            return;
        }
        let rhs = self.stack.pop().unwrap();
        let lhs = self.stack.pop().unwrap();
        match op.apply(lhs, rhs) {
            Some(v) => {
                self.stack.push(v);
                assert(self.stack@ == old(self).stack@.take(old(self).stack.len() - 2).push(v));
            },
            None => {
                self.fault = Some(
                    if op == Operation::Div && rhs == 0 {
                        EvalError::DivisionByZero
                    } else {
                        EvalError::Overflow
                    },
                );
            },
        }
    }

    fn visit_num(&mut self, num: Number) {
        if self.fault.is_none() {
            self.stack.push(num.0);
        }
    }
}

/// Evaluates a postfix token sequence.
pub fn calculate(tokens: &[Token]) -> (r: Result<i64, EvalError>)
    ensures
        r == evaluate(tokens@),
{
    Calculator::new().calculate(tokens)
}

/// Evaluating a lone literal gives its own value.
pub proof fn lemma_literal_evaluates_to_itself(n: i64)
    ensures
        evaluate(seq![Token::Number(Number(n))]) == Ok::<i64, EvalError>(n),
{
    let toks = seq![Token::Number(Number(n))];
    assert(toks.drop_last() == Seq::<Token>::empty());
    assert(eval_all(Seq::<Token>::empty()) == Ok::<Seq<i64>, EvalError>(seq![]));
    assert(Seq::<i64>::empty().push(n) =~= seq![n]);
    assert(eval_all(toks) == Ok::<Seq<i64>, EvalError>(seq![n]));
}

proof fn lemma_surplus_push(toks: Seq<Token>, t: Token)
    ensures
        surplus(toks.push(t)) == surplus(toks) + arity_step(t),
    decreases toks.len(),
{
    if toks.len() > 0 {
        lemma_surplus_push(toks.drop_first(), t);
        assert(toks.push(t).drop_first() == toks.drop_first().push(t));
        assert(toks.push(t)[0] == toks[0]);
        assert(surplus(toks) == arity_step(toks[0]) + surplus(toks.drop_first()));
        assert(surplus(toks.push(t)) == arity_step(toks[0]) + surplus(toks.drop_first().push(t)));
    } else {
        assert(toks.push(t).drop_first() == Seq::<Token>::empty());
        assert(toks.push(t)[0] == t);
        assert(surplus(Seq::<Token>::empty()) == 0);
        assert(surplus(toks) == 0);
        assert(surplus(toks.push(t)) == arity_step(t) + surplus(toks.push(t).drop_first()));
    }
}

/// No token of `toks` is a parenthesis.
pub open spec fn no_paren_tokens(toks: Seq<Token>) -> bool {
    forall|i: int| 0 <= i < toks.len() ==> !(#[trigger] toks[i] is Paren)
}

pub proof fn lemma_balanced_prefix_evaluates(toks: Seq<Token>, k: int)
    requires
        well_balanced(toks),
        no_paren_tokens(toks),
        0 <= k <= toks.len(),
    ensures
        eval_all(toks.take(k)) matches Ok(st) ==> st.len() == surplus(toks.take(k)),
        eval_all(toks.take(k)) matches Err(e) ==> e == EvalError::DivisionByZero || e
            == EvalError::Overflow,
    decreases k,
{
    if k == 0 {
        assert(toks.take(0) == Seq::<Token>::empty());
    } else {
        lemma_balanced_prefix_evaluates(toks, k - 1);
        let p = toks.take(k);
        assert(p.drop_last() == toks.take(k - 1));
        assert(p == toks.take(k - 1).push(toks[k - 1]));
        lemma_surplus_push(toks.take(k - 1), toks[k - 1]);
        assert(surplus(toks.take(k)) >= 1);
    }
}

} // verus!
