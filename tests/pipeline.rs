use expr_parser::calculate;
use expr_parser::parser::{ParseError, Parser};
use expr_parser::tokenizer::{tokenize, TokenizeError};
use expr_parser::tokens::{Number, Operation, Paren, Token};

fn num(num: i64) -> Token {
    Token::Number(Number(num))
}

fn op(op: char) -> Token {
    let op = match op {
        '+' => Operation::Add,
        '-' => Operation::Sub,
        '*' => Operation::Mul,
        '/' => Operation::Div,
        _ => panic!("Unsupported oper shortcut"),
    };
    Token::Oper(op)
}

const LPAR: Token = Token::Paren(Paren::Left);
const RPAR: Token = Token::Paren(Paren::Right);

fn test(input: &str, after_tokenize: Vec<Token>, after_parse: Vec<Token>, expected: i64) {
    test_fallible(input, after_tokenize, Ok(after_parse), expected);
}

fn test_fallible(
    input: &str,
    after_tokenize: Vec<Token>,
    after_parse: Result<Vec<Token>, ParseError>,
    expected: i64,
) {
    let collected: Vec<Token> = match tokenize(input).collect_all() {
        Ok(collected) => collected,
        Err(_) => vec![],
    };
    assert_eq!(collected, after_tokenize);

    let collected = match (Parser::new(tokenize(input)).collect_all(), after_parse) {
        (Ok(collected), Ok(expected)) => {
            assert_eq!(collected, expected);
            collected
        }
        (Err(parse_err), Err(expected)) => {
            assert_eq!(parse_err, expected);
            return;
        }
        (Ok(collected), Err(expected)) => {
            panic!("Unexpectedly parsed \"{input}\": {collected:?}, expected err: {expected:?}")
        }
        (Err(parse_err), Ok(expected)) => {
            panic!("Couldn't parse \"{input}\": {parse_err:?}, expected: {expected:?}")
        }
    };

    assert_eq!(calculate(&collected), Ok(expected));
}

#[test]
fn one_op() {
    test("1 + 2", vec![num(1), op('+'), num(2)], vec![num(1), num(2), op('+')], 3);
    test("1 * 2", vec![num(1), op('*'), num(2)], vec![num(1), num(2), op('*')], 2);
}

#[test]
fn more_ops() {
    test(
        "1 + 2 * 3",
        vec![num(1), op('+'), num(2), op('*'), num(3)],
        vec![num(1), num(2), num(3), op('*'), op('+')],
        7,
    );
    test(
        "1 * 2 - 3 * 4",
        vec![num(1), op('*'), num(2), op('-'), num(3), op('*'), num(4)],
        vec![num(1), num(2), op('*'), num(3), num(4), op('*'), op('-')],
        -10,
    );
    test(
        "1 * 2 / 5 - 3 * 4",
        vec![num(1), op('*'), num(2), op('/'), num(5), op('-'), num(3), op('*'), num(4)],
        vec![num(1), num(2), op('*'), num(5), op('/'), num(3), num(4), op('*'), op('-')],
        -12,
    );
}

#[test]
fn parens() {
    test(
        "1 * (2 + 3)",
        vec![num(1), op('*'), LPAR, num(2), op('+'), num(3), RPAR],
        vec![num(1), num(2), num(3), op('+'), op('*')],
        5,
    );
    test(
        "1 + 2 * 3 / (4 - 5) * 6",
        vec![
            num(1),
            op('+'),
            num(2),
            op('*'),
            num(3),
            op('/'),
            LPAR,
            num(4),
            op('-'),
            num(5),
            RPAR,
            op('*'),
            num(6),
        ],
        vec![
            num(1),
            num(2),
            num(3),
            op('*'),
            num(4),
            num(5),
            op('-'),
            op('/'),
            num(6),
            op('*'),
            op('+'),
        ],
        -35,
    )
}

#[test]
fn failures() {
    test_fallible("1 2", vec![num(1), num(2)], Err(ParseError::NotEnoughOps), 0);
    test_fallible(
        "1 +- 2",
        vec![num(1), op('+'), op('-'), num(2)],
        Err(ParseError::NotEnoughArgs),
        0,
    );
    test_fallible(
        "(1 + 2))",
        vec![LPAR, num(1), op('+'), num(2), RPAR, RPAR],
        Err(ParseError::UnmatchedParens),
        0,
    );
    test_fallible(
        "((1 + 2",
        vec![LPAR, LPAR, num(1), op('+'), num(2)],
        Err(ParseError::UnmatchedParens),
        0,
    );
    test_fallible(
        "a + b",
        vec![],
        Err(ParseError::Tokenization(TokenizeError::invalid_symbol(0))),
        0,
    );
}

#[test]
fn number() {
    let s = "123";
    let res = tokenize(s).collect_all().unwrap();
    [Token::Number(Number(123))]
        .into_iter()
        .zip(res)
        .for_each(|(l, r)| assert_eq!(l, r));
}

#[test]
fn number_and_op() {
    let res = tokenize("123 + (").collect_all().unwrap();
    [
        Token::Number(Number(123)),
        Token::Oper(Operation::Add),
        Token::Paren(Paren::Left),
    ]
    .into_iter()
    .zip(res)
    .for_each(|(l, r)| assert_eq!(l, r));
}
