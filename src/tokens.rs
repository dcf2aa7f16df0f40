use vstd::math::abs;
use vstd::prelude::*;

use crate::text::{int_text, push_char, push_int};

verus! {

/// Side of a parenthesis.
#[derive(Debug, Clone, Copy, PartialEq, Eq, Structural)]
pub enum Paren {
    Left,
    Right,
}

/// A binary arithmetic operator.
#[derive(Debug, Clone, Copy, PartialEq, Eq, Structural)]
pub enum Operation {
    Add,
    Sub,
    Mul,
    Div,
}

/// An integer literal.
#[derive(Debug, Clone, Copy, PartialEq, Eq, Structural)]
pub struct Number(pub i64);

/// A lexical unit of an arithmetic expression.
#[derive(Debug, Clone, Copy, PartialEq, Eq, Structural)]
pub enum Token {
    Number(Number),
    Paren(Paren),
    Oper(Operation),
}

/// Integer division that rounds toward zero.
pub open spec fn trunc_div(a: int, b: int) -> int {
    let q: int = abs(a) as int / abs(b) as int;
    if (a < 0) == (b < 0) {
        q
    } else {
        -q
    }
}

impl Operation {
    /// Binding strength: `+` and `-` bind weaker than `*` and `/`.
    pub open spec fn priority(self) -> int {
        match self {
            Operation::Add | Operation::Sub => 1,
            Operation::Mul | Operation::Div => 2,
        }
    }

    /// The mathematical value of `lhs op rhs` (meaningful for a nonzero divisor).
    pub open spec fn value_of(self, lhs: int, rhs: int) -> int {
        match self {
            Operation::Add => lhs + rhs,
            Operation::Sub => lhs - rhs,
            Operation::Mul => lhs * rhs,
            Operation::Div => trunc_div(lhs, rhs),
        }
    }

    /// `lhs op rhs` is defined on `i64`: no division by zero, and the value fits.
    pub open spec fn defined_for(self, lhs: i64, rhs: i64) -> bool {
        &&& (self == Operation::Div ==> rhs != 0)
        &&& i64::MIN <= self.value_of(lhs as int, rhs as int) <= i64::MAX
    }

    pub(crate) fn prio(&self) -> (r: i32)
        ensures
            r == self.priority(),
    {
        match self {
            Operation::Add | Operation::Sub => 1,
            Operation::Mul | Operation::Div => 2,
        }
    }

    /// Applies the operator to two operands; `None` on division by zero or
    /// when the result does not fit in an `i64`.
    pub fn apply(self, lhs: i64, rhs: i64) -> (r: Option<i64>)
        ensures
            self.defined_for(lhs, rhs) ==> r == Some(self.value_of(lhs as int, rhs as int) as i64),
            !self.defined_for(lhs, rhs) ==> r is None,
    {
        match self {
            Operation::Add => lhs.checked_add(rhs),
            Operation::Sub => lhs.checked_sub(rhs),
            Operation::Mul => lhs.checked_mul(rhs),
            Operation::Div => lhs.checked_div(rhs),
        }
    }

    /// The character that denotes the operator.
    pub fn symbol(self) -> (c: char)
        ensures
            c == self.spec_symbol(),
    {
        match self {
            Operation::Add => '+',
            Operation::Sub => '-',
            Operation::Mul => '*',
            Operation::Div => '/',
        }
    }

    pub open spec fn spec_symbol(self) -> char {
        match self {
            Operation::Add => '+',
            Operation::Sub => '-',
            Operation::Mul => '*',
            Operation::Div => '/',
        }
    }
}

impl Token {
    /// How the token is written.
    pub open spec fn text(self) -> Seq<char> {
        match self {
            Token::Number(Number(n)) => int_text(n as int),
            Token::Paren(Paren::Left) => seq!['('],
            Token::Paren(Paren::Right) => seq![')'],
            Token::Oper(op) => seq![op.spec_symbol()],
        }
    }

    /// Appends the token's text to `s`.
    pub fn write_to(&self, s: &mut String)
        ensures
            final(s)@ == old(s)@ + self.text(),
    {
        match self {
            Token::Number(Number(n)) => push_int(s, *n),
            Token::Paren(Paren::Left) => push_char(s, '('),
            Token::Paren(Paren::Right) => push_char(s, ')'),
            Token::Oper(op) => push_char(s, op.symbol()),
        }
    }

    pub fn to_text(&self) -> (r: String)
        ensures
            r@ == self.text(),
    {
        let mut s = String::new();
        self.write_to(&mut s);
        assert(Seq::<char>::empty() + self.text() == self.text());
        s
    }
}

} // verus!
