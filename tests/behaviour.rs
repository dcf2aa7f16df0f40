use expr_parser::parser::{parse, ParseError, Parser};
use expr_parser::tokenizer::{tokenize, TokenizeError, TokenizeErrorKind};
use expr_parser::tokens::{Number, Operation, Paren, Token};
use expr_parser::{calculate, EvalError, Printer};

fn num(n: i64) -> Token {
    Token::Number(Number(n))
}

fn op(c: char) -> Token {
    Token::Oper(match c {
        '+' => Operation::Add,
        '-' => Operation::Sub,
        '*' => Operation::Mul,
        _ => Operation::Div,
    })
}

const LPAR: Token = Token::Paren(Paren::Left);
const RPAR: Token = Token::Paren(Paren::Right);

fn postfix_of(input: &str) -> Result<Vec<Token>, ParseError> {
    parse(input).collect_all()
}

fn value_of(input: &str) -> Result<i64, EvalError> {
    calculate(&postfix_of(input).unwrap())
}

#[test]
fn empty_input_is_empty_at_every_stage() {
    assert_eq!(tokenize("").collect_all(), Ok(vec![]));
    assert_eq!(postfix_of(""), Ok(vec![]));
    assert_eq!(calculate(&[]), Ok(0));
    assert_eq!(postfix_of("   "), Ok(vec![]));
}

#[test]
fn lone_literal_evaluates_to_itself() {
    assert_eq!(postfix_of("42"), Ok(vec![num(42)]));
    assert_eq!(calculate(&[num(42)]), Ok(42));
    assert_eq!(calculate(&[num(-17)]), Ok(-17));
}

#[test]
fn equal_priority_keeps_input_order() {
    assert_eq!(
        postfix_of("1 + 2 + 3"),
        Ok(vec![num(1), num(2), op('+'), num(3), op('+')])
    );
    assert_eq!(
        postfix_of("8 - 4 - 2"),
        Ok(vec![num(8), num(4), op('-'), num(2), op('-')])
    );
    assert_eq!(value_of("8 - 4 - 2"), Ok(2));
    assert_eq!(
        postfix_of("8 / 4 * 2"),
        Ok(vec![num(8), num(4), op('/'), num(2), op('*')])
    );
    assert_eq!(value_of("8 / 4 * 2"), Ok(4));
}

#[test]
fn parentheses_never_reach_the_output() {
    assert_eq!(postfix_of("((1))"), Ok(vec![num(1)]));
    let out = postfix_of("(1 + 2) * (3 - 4)").unwrap();
    assert_eq!(out, vec![num(1), num(2), op('+'), num(3), num(4), op('-'), op('*')]);
    assert!(out.iter().all(|t| !matches!(t, Token::Paren(_))));
    assert_eq!(calculate(&out), Ok(-3));
}

#[test]
fn running_surplus_stays_positive() {
    let out = postfix_of("1 + 2 * 3 / (4 - 5) * 6").unwrap();
    let mut surplus = 0i64;
    for t in &out {
        surplus += match t {
            Token::Number(_) => 1,
            _ => -1,
        };
        assert!(surplus >= 1);
    }
    assert_eq!(surplus, 1);
}

#[test]
fn scenario_values() {
    assert_eq!(value_of("1 + 2"), Ok(3));
    assert_eq!(value_of("1 + 2 * 3"), Ok(7));
    assert_eq!(value_of("1 * (2 + 3)"), Ok(5));
}

#[test]
fn parse_error_kinds() {
    assert_eq!(postfix_of("+ 1"), Err(ParseError::NotEnoughArgs));
    assert_eq!(postfix_of("1 +"), Err(ParseError::NotEnoughArgs));
    assert_eq!(postfix_of(")"), Err(ParseError::UnmatchedParens));
    assert_eq!(postfix_of("(1"), Err(ParseError::UnmatchedParens));
    assert_eq!(postfix_of("1 2 3"), Err(ParseError::NotEnoughOps));
    assert_eq!(postfix_of("()"), Ok(vec![]));
}

#[test]
fn lexer_offset_is_relative_to_scan_position() {
    let mut t = tokenize("1 +  a");
    assert_eq!(t.next(), Some(Ok(num(1))));
    assert_eq!(t.next(), Some(Ok(op('+'))));
    assert_eq!(t.next(), Some(Err(TokenizeError::invalid_symbol(2))));
    assert_eq!(t.next(), None);
    assert_eq!(
        postfix_of("1 + $"),
        Err(ParseError::Tokenization(TokenizeError::invalid_symbol(1)))
    );
}

#[test]
fn lexer_numbers_and_whitespace() {
    assert_eq!(tokenize("12+3").collect_all(), Ok(vec![num(12), op('+'), num(3)]));
    assert_eq!(tokenize("\u{3000}7\t*\n(8)").collect_all(), Ok(vec![num(7), op('*'), LPAR, num(8), RPAR]));
    assert_eq!(
        tokenize("9223372036854775807").collect_all(),
        Ok(vec![num(i64::MAX)])
    );
    let err = tokenize("1 + 9223372036854775808").collect_all().unwrap_err();
    assert_eq!(err.kind, TokenizeErrorKind::NumberTooLarge);
    assert_eq!(err, TokenizeError::number_too_large(0));
}

#[test]
fn parser_is_lazy_and_stops_after_error() {
    let mut p = Parser::new(tokenize("1 2"));
    assert_eq!(p.next(), Some(Ok(num(1))));
    assert_eq!(p.next(), Some(Ok(num(2))));
    assert_eq!(p.next(), Some(Err(ParseError::NotEnoughOps)));
    assert_eq!(p.next(), None);
    assert_eq!(p.next(), None);
}

#[test]
fn evaluation_errors() {
    assert_eq!(calculate(&[LPAR]), Err(EvalError::StrayParen));
    assert_eq!(calculate(&[num(1), op('+')]), Err(EvalError::MissingOperand));
    assert_eq!(calculate(&[num(1), num(2)]), Err(EvalError::LeftoverOperands));
    assert_eq!(value_of("1 / 0"), Err(EvalError::DivisionByZero));
    assert_eq!(value_of("9223372036854775807 + 1"), Err(EvalError::Overflow));
    assert_eq!(value_of("0 - 9223372036854775807 - 2"), Err(EvalError::Overflow));
}

#[test]
fn division_truncates_toward_zero() {
    assert_eq!(value_of("(0 - 7) / 2"), Ok(-3));
    assert_eq!(value_of("7 / 2"), Ok(3));
    assert_eq!(Operation::Div.apply(-7, 2), Some(-3));
    assert_eq!(Operation::Div.apply(7, -2), Some(-3));
    assert_eq!(Operation::Div.apply(1, 0), None);
    assert_eq!(Operation::Div.apply(i64::MIN, -1), None);
    assert_eq!(Operation::Add.apply(i64::MAX, 1), None);
    assert_eq!(Operation::Mul.apply(-3, 4), Some(-12));
    assert_eq!(Operation::Sub.apply(3, 4), Some(-1));
}

#[test]
fn printing_tokens() {
    let out = postfix_of("1 + 2 * (30 - 4)").unwrap();
    assert_eq!(Printer(&out).to_text(), "1 2 30 4 - * +");
    assert_eq!(Printer(&[]).to_text(), "");
    assert_eq!(Printer(&[LPAR, num(-45), RPAR]).to_text(), "( -45 )");
    assert_eq!(num(i64::MIN).to_text(), "-9223372036854775808");
    assert_eq!(op('/').to_text(), "/");
}

#[test]
fn error_texts() {
    assert_eq!(
        ParseError::Tokenization(TokenizeError::invalid_symbol(3)).to_text(),
        "invalid symbol at offset 3"
    );
    assert_eq!(TokenizeError::number_too_large(0).to_text(), "number too large");
    assert_eq!(ParseError::UnmatchedParens.to_text(), "unmatched parentheses");
    assert_eq!(ParseError::NotEnoughArgs.to_text(), "an operator lacks operands");
    assert_eq!(ParseError::NotEnoughOps.to_text(), "operands lack an operator");
    assert_eq!(EvalError::DivisionByZero.to_text(), "division by zero");
    assert_eq!(EvalError::Overflow.to_text(), "result out of range");
}

#[test]
fn compact_text_keeps_equal_priority_order() {
    assert_eq!(
        postfix_of("10-4-3"),
        Ok(vec![num(10), num(4), op('-'), num(3), op('-')])
    );
    assert_eq!(value_of("10-4-3"), Ok(3));
    assert_eq!(
        postfix_of("100/5*2"),
        Ok(vec![num(100), num(5), op('/'), num(2), op('*')])
    );
    assert_eq!(value_of("100/5*2"), Ok(40));
}
