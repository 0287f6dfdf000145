//! The scenarios of the parser and the tokeniser. Numbers are compared as `f32`
//! values, as the tokens' own `FloatEq` does: `a` equals `b` when `a - b < EPSILON`.

use math_manipulator::Operation;
use math_manipulator::SyntaxTree as Tree;
use math_manipulator::Token as Lexeme;
use math_manipulator::tokanise_string as tokanise;

#[derive(Clone, Copy, Debug)]
struct FloatEq(f32);

impl PartialEq for FloatEq {
    fn eq(&self, other: &Self) -> bool {
        (self.0 - other.0) < f32::EPSILON
    }
}

impl From<f32> for FloatEq {
    fn from(value: f32) -> Self {
        FloatEq(value)
    }
}

fn number(numeral: &str) -> FloatEq {
    FloatEq(numeral.parse::<f32>().expect("a numeral is a decimal float literal"))
}

#[derive(PartialEq, Debug)]
enum Token {
    Variable(String),
    Literal(FloatEq),
    OpenPeren,
    ClosePeren,
    Op(Operation),
    Eq,
}

impl From<&Lexeme> for Token {
    fn from(t: &Lexeme) -> Self {
        match t {
            Lexeme::Variable(s) => Token::Variable(s.clone()),
            Lexeme::Literal(s) => Token::Literal(number(s)),
            Lexeme::OpenPeren => Token::OpenPeren,
            Lexeme::ClosePeren => Token::ClosePeren,
            Lexeme::Op(op) => Token::Op(*op),
            Lexeme::Eq => Token::Eq,
        }
    }
}

fn tokanise_string(text: &str) -> Result<Vec<Token>, String> {
    tokanise(text).map(|tokens| tokens.iter().map(Token::from).collect())
}

#[derive(Debug, PartialEq)]
enum SyntaxTree {
    Var(String),
    Num(FloatEq),
    Op(Operation, Box<SyntaxTree>, Box<SyntaxTree>),
    Eq(Box<SyntaxTree>, Box<SyntaxTree>),
}

impl From<&Tree> for SyntaxTree {
    fn from(t: &Tree) -> Self {
        match t {
            Tree::Var(s) => SyntaxTree::Var(s.clone()),
            Tree::Num(s) => SyntaxTree::Num(number(s)),
            Tree::Op(op, l, r) => SyntaxTree::Op(
                *op,
                Box::new(SyntaxTree::from(&**l)),
                Box::new(SyntaxTree::from(&**r)),
            ),
            Tree::Eq(l, r) => SyntaxTree::Eq(
                Box::new(SyntaxTree::from(&**l)),
                Box::new(SyntaxTree::from(&**r)),
            ),
        }
    }
}

impl SyntaxTree {
    fn parse(text: &str) -> Result<Box<SyntaxTree>, math_manipulator::ParseError> {
        Tree::parse(text).map(|tree| Box::new(SyntaxTree::from(&*tree)))
    }
}

#[test]
fn syntax_test() {
    let test = "11 + 22 * 33";
    let tree = SyntaxTree::parse(test);
    let expected = Box::new(SyntaxTree::Op(
        Operation::Add,
        Box::new(SyntaxTree::Num(11.0.into())),
        Box::new(SyntaxTree::Op(
            Operation::Mult,
            Box::new(SyntaxTree::Num(22.0.into())),
            Box::new(SyntaxTree::Num(33.0.into())),
        )),
    ));
    assert_eq!(tree.unwrap(), expected);
}

#[test]
fn syntax_parens() {
    let test = "11 + (33 + (4 * 5))";
    let tree = SyntaxTree::parse(test);
    let expected = Box::new(SyntaxTree::Op(
        Operation::Add,
        Box::new(SyntaxTree::Num(11.0.into())),
        Box::new(SyntaxTree::Op(
            Operation::Add,
            Box::new(SyntaxTree::Num(33.0.into())),
            Box::new(SyntaxTree::Op(
                Operation::Mult,
                Box::new(SyntaxTree::Num(4.0.into())),
                Box::new(SyntaxTree::Num(5.0.into())),
            )),
        )),
    ));
    assert_eq!(tree.unwrap(), expected);
}

#[test]
fn syntax_impl_mult() {
    let test = "11 (a (4 5)) 2 + 1";
    let tree = SyntaxTree::parse(test);
    let expected = Box::new(SyntaxTree::Op(
        Operation::Add,
        Box::new(SyntaxTree::Op(
            Operation::Mult,
            Box::new(SyntaxTree::Op(
                Operation::Mult,
                Box::new(SyntaxTree::Num(11.0.into())),
                Box::new(SyntaxTree::Op(
                    Operation::Mult,
                    Box::new(SyntaxTree::Var("a".to_owned())),
                    Box::new(SyntaxTree::Op(
                        Operation::Mult,
                        Box::new(SyntaxTree::Num(4.0.into())),
                        Box::new(SyntaxTree::Num(5.0.into())),
                    )),
                )),
            )),
            Box::new(SyntaxTree::Num(2.0.into())),
        )),
        Box::new(SyntaxTree::Num(1.0.into())),
    ));
    assert_eq!(tree.unwrap(), expected);
}

#[test]
fn token_decimals() {
    let test = "1.2x + 20.01y + 15.z";
    let tokens = tokanise_string(test);
    let expected = vec![
        Token::Literal(1.2.into()),
        Token::Variable("x".to_owned()),
        Token::Op(Operation::Add),
        Token::Literal(20.01.into()),
        Token::Variable("y".to_owned()),
        Token::Op(Operation::Add),
        Token::Literal(15.0.into()),
        Token::Variable("z".to_owned()),
    ];
    assert_eq!(tokens, Ok(expected));
}

#[test]
fn token_simple() {
    let test = "a xy 1 32 ( = ) * +";
    let tokens = tokanise_string(test);
    let expected = vec![
        Token::Variable("a".to_owned()),
        Token::Variable("xy".to_owned()),
        Token::Literal(1.0.into()),
        Token::Literal(32.0.into()),
        Token::OpenPeren,
        Token::Eq,
        Token::ClosePeren,
        Token::Op(Operation::Mult),
        Token::Op(Operation::Add),
    ];
    assert_eq!(tokens, Ok(expected));
}

#[test]
fn token_whitespace() {
    let test = " a b ab  1    abc 123      1 a 1 2";
    let tokens = tokanise_string(test);
    let expected = vec![
        Token::Variable("a".to_owned()),
        Token::Variable("b".to_owned()),
        Token::Variable("ab".to_owned()),
        Token::Literal(1.0.into()),
        Token::Variable("abc".to_owned()),
        Token::Literal(123.0.into()),
        Token::Literal(1.0.into()),
        Token::Variable("a".to_owned()),
        Token::Literal(1.0.into()),
        Token::Literal(2.0.into()),
    ];
    assert_eq!(tokens, Ok(expected));
}

#[test]
fn token_no_whitespace() {
    let test = "whattheheckisthis123yes*2*5*me+(eea*ee)";
    let tokens = tokanise_string(test);
    let expected = vec![
        Token::Variable("whattheheckisthis123yes".to_owned()),
        Token::Op(Operation::Mult),
        Token::Literal(2.0.into()),
        Token::Op(Operation::Mult),
        Token::Literal(5.0.into()),
        Token::Op(Operation::Mult),
        Token::Variable("me".to_owned()),
        Token::Op(Operation::Add),
        Token::OpenPeren,
        Token::Variable("eea".to_owned()),
        Token::Op(Operation::Mult),
        Token::Variable("ee".to_owned()),
        Token::ClosePeren,
    ];
    assert_eq!(tokens, Ok(expected));
}

#[test]
fn token_literal_variable() {
    let test = "1a2";
    let tokens: Result<Vec<Token>, String> = tokanise_string(test);
    let expected = vec![
        Token::Literal(1.0.into()),
        Token::Variable("a2".to_owned()),
    ];
    assert_eq!(tokens, Ok(expected));
}

#[test]
fn token_invalid_char() {
    let test = " 123 & 3231 a";
    let tokens: Result<Vec<Token>, String> = tokanise_string(test);
    let expected: Result<Vec<Token>, String> = Err("Invalid char: &".to_owned());
    println!("{:?}", tokens);
    assert_eq!(tokens, expected);
}
