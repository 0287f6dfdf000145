//! Scenarios and laws of the expression reader on concrete values.

use math_manipulator::editor::{Editor, highlight_segments};
use math_manipulator::syntax::ParseError;
use math_manipulator::tokenize::{Classified, tokanise_classified};
use math_manipulator::{
    Operation, SyntaxTree, Token, find_openning_bracket, insert_impl_mult, tokanise_string,
    tokens_to_string,
};

fn var(s: &str) -> Token {
    Token::Variable(s.to_owned())
}

fn lit(s: &str) -> Token {
    Token::Literal(s.to_owned())
}

fn leaf_var(s: &str) -> Box<SyntaxTree> {
    Box::new(SyntaxTree::Var(s.to_owned()))
}

fn leaf_num(s: &str) -> Box<SyntaxTree> {
    Box::new(SyntaxTree::Num(s.to_owned()))
}

fn op(o: Operation, l: Box<SyntaxTree>, r: Box<SyntaxTree>) -> Box<SyntaxTree> {
    Box::new(SyntaxTree::Op(o, l, r))
}

#[test]
fn numerals_are_kept_as_written() {
    assert_eq!(
        tokanise_string("15. 007 0.50"),
        Ok(vec![lit("15."), lit("007"), lit("0.50")])
    );
}

#[test]
fn second_point_ends_a_numeral() {
    assert_eq!(tokanise_string("1.2.3"), Err("Invalid char: .".to_owned()));
}

#[test]
fn literal_cannot_start_with_point() {
    assert_eq!(tokanise_string(".1"), Err("Invalid char: .".to_owned()));
}

#[test]
fn first_invalid_char_is_reported() {
    assert_eq!(tokanise_string("a $ b # c"), Err("Invalid char: $".to_owned()));
    assert_eq!(tokanise_string("ab#$"), Err("Invalid char: #".to_owned()));
}

#[test]
fn non_decimal_numeral_stops_the_word() {
    // '٣' is numeric but not a decimal digit: its numeral is no float literal, the
    // word stops there, and the character after it is reported.
    assert_eq!(tokanise_string("\u{663}+1"), Err("Invalid char: +".to_owned()));
    assert_eq!(tokanise_string("a \u{663}"), Ok(vec![var("a")]));
}

#[test]
fn unicode_names_and_whitespace() {
    assert_eq!(
        tokanise_string("\u{e9}t\u{e9}2\u{a0}x\t\ny"),
        Ok(vec![var("\u{e9}t\u{e9}2"), var("x"), var("y")])
    );
}

#[test]
fn empty_text_has_no_tokens() {
    assert_eq!(tokanise_string(""), Ok(vec![]));
    assert_eq!(tokanise_string(" \t "), Ok(vec![]));
}

#[test]
fn whitespace_joins_token_lists() {
    let left = tokanise_string("2x+(y").unwrap();
    let right = tokanise_string("3)=z").unwrap();
    let mut both = left.clone();
    both.extend(right);
    assert_eq!(tokanise_string("2x+(y 3)=z"), Ok(both));
}

#[test]
fn operation_symbols() {
    assert_eq!(Operation::Add.to_string(), "+");
    assert_eq!(Operation::Mult.to_string(), "*");
    assert_eq!(Operation::Neg.to_string(), "-");
    assert_eq!(Operation::Div.to_string(), "/");
}

#[test]
fn token_texts() {
    assert_eq!(var("ab1").to_string(), "ab1");
    assert_eq!(lit("1.50").to_string(), "1.50");
    assert_eq!(Token::OpenPeren.to_string(), "(");
    assert_eq!(Token::ClosePeren.to_string(), ")");
    assert_eq!(Token::Eq.to_string(), "=");
    assert_eq!(Token::Op(Operation::Div).to_string(), "/");
}

#[test]
fn tokens_written_with_spaces() {
    let tokens = vec![lit("2"), var("x"), Token::Op(Operation::Add), Token::OpenPeren, Token::ClosePeren];
    assert_eq!(tokens_to_string(&tokens), "2 x + ( )");
    assert_eq!(tokens_to_string(&[]), "");
    assert_eq!(tokens_to_string(&[Token::Eq]), "=");
}

#[test]
fn tokens_round_trip() {
    let text = "1.2x+ 20.01y*(a2 - 15.)/b = 7";
    let tokens = tokanise_string(text).unwrap();
    let written = tokens_to_string(&tokens);
    assert_eq!(written, "1.2 x + 20.01 y * ( a2 - 15. ) / b = 7");
    assert_eq!(tokanise_string(&written), Ok(tokens));
}

#[test]
fn implicit_multiplication_is_inserted() {
    let mut tokens = tokanise_string("2x(y)(z)w 3").unwrap();
    insert_impl_mult(&mut tokens);
    let mult = || Token::Op(Operation::Mult);
    assert_eq!(
        tokens,
        vec![
            lit("2"), mult(), var("x"), mult(), Token::OpenPeren, var("y"), Token::ClosePeren,
            mult(), Token::OpenPeren, var("z"), Token::ClosePeren, mult(), var("w"), mult(),
            lit("3"),
        ]
    );
    let once = tokens.clone();
    insert_impl_mult(&mut tokens);
    assert_eq!(tokens, once);
}

#[test]
fn no_multiplication_after_operator_or_before_close() {
    let mut tokens = tokanise_string("a+(b)=c)").unwrap();
    let before = tokens.clone();
    insert_impl_mult(&mut tokens);
    assert_eq!(tokens, before);
}

#[test]
fn precedence_and_grouping() {
    let tree = SyntaxTree::parse("a - b - c").unwrap();
    assert_eq!(tree, op(Operation::Neg, op(Operation::Neg, leaf_var("a"), leaf_var("b")), leaf_var("c")));
    let tree = SyntaxTree::parse("a - b + c").unwrap();
    assert_eq!(tree, op(Operation::Neg, leaf_var("a"), op(Operation::Add, leaf_var("b"), leaf_var("c"))));
    let tree = SyntaxTree::parse("a * b / c").unwrap();
    assert_eq!(tree, op(Operation::Mult, leaf_var("a"), op(Operation::Div, leaf_var("b"), leaf_var("c"))));
    let tree = SyntaxTree::parse("a / b / 2").unwrap();
    assert_eq!(tree, op(Operation::Div, op(Operation::Div, leaf_var("a"), leaf_var("b")), leaf_num("2")));
    let tree = SyntaxTree::parse("((x))").unwrap();
    assert_eq!(tree, leaf_var("x"));
}

#[test]
fn parse_errors() {
    match SyntaxTree::parse("a & b") {
        Err(ParseError::Message(m)) => assert_eq!(m, "Invalid char: &"),
        other => panic!("unexpected {:?}", other),
    }
    match SyntaxTree::parse("=") {
        Err(ParseError::InvalidToken(t)) => assert_eq!(t, Token::Eq),
        other => panic!("unexpected {:?}", other),
    }
    match SyntaxTree::parse("a = b") {
        Err(ParseError::Depth { expected, found, token }) => {
            assert_eq!((expected, found, token), (1, 0, Token::Eq));
        }
        other => panic!("unexpected {:?}", other),
    }
    match SyntaxTree::parse("(") {
        Err(ParseError::Depth { expected, found, token }) => {
            assert_eq!((expected, found, token), (0, 1, Token::OpenPeren));
        }
        other => panic!("unexpected {:?}", other),
    }
}

#[test]
fn reader_stops() {
    for text in ["", "-1", "1 +", "()", ")", "1)", "a * "] {
        assert!(SyntaxTree::try_parse(text).is_none(), "{:?}", text);
    }
    assert!(SyntaxTree::try_parse("2 (x + 1)").unwrap().is_ok());
    assert!(SyntaxTree::try_parse("&").unwrap().is_err());
}

#[test]
fn parse_from_tokens_with_depths() {
    let tokens = vec![(Token::OpenPeren, 3), (lit("4"), 3), (Token::ClosePeren, 2)];
    assert_eq!(SyntaxTree::from_tokens(tokens, 2).unwrap(), leaf_num("4"));
}

#[test]
fn opening_bracket_from_the_end() {
    let tokens = tokanise_string("a ( b ( c ) d").unwrap();
    assert_eq!(find_openning_bracket(&tokens).unwrap(), 1);
    let tokens = tokanise_string("( x").unwrap();
    assert_eq!(find_openning_bracket(&tokens).unwrap(), 0);
    match find_openning_bracket(&tokanise_string("( a ) b").unwrap()) {
        Err(ParseError::Message(m)) => assert_eq!(m, "Unable to find corresponding closing bracket"),
        other => panic!("unexpected {:?}", other),
    }
}

#[test]
fn explicit_multiplication_parses_the_same() {
    let text = "2x(y + 1)z";
    let mut tokens = tokanise_string(text).unwrap();
    insert_impl_mult(&mut tokens);
    let written = tokens_to_string(&tokens);
    assert_eq!(written, "2 * x * ( y + 1 ) * z");
    assert_eq!(SyntaxTree::parse(&written).unwrap(), SyntaxTree::parse(text).unwrap());
}

#[test]
fn parse_has_no_equation_nodes() {
    let tree = SyntaxTree::parse("a b + 3 / (c - 1)").unwrap();
    fn has_eq(t: &SyntaxTree) -> bool {
        match t {
            SyntaxTree::Eq(_, _) => true,
            SyntaxTree::Op(_, l, r) => has_eq(l) || has_eq(r),
            _ => false,
        }
    }
    assert!(!has_eq(&tree));
}

#[test]
fn classified_text_is_tokenised_by_its_classes() {
    let c = |ch: char, alphabetic: bool, numeric: bool| Classified { ch, alphabetic, numeric };
    // '#' taken as a letter and '!' as a digit: the classes decide, not the characters.
    let text = vec![c('#', true, false), c('!', false, true), c(' ', false, false), c('7', false, true), c('+', false, false)];
    assert_eq!(
        tokanise_classified(&text),
        Ok(vec![var("#!"), lit("7"), Token::Op(Operation::Add)])
    );
    // A numeral of a numeric character that is no decimal digit is no token.
    let text = vec![c('!', false, true), c('+', false, false)];
    assert_eq!(tokanise_classified(&text), Err("Invalid char: +".to_owned()));
    let text = vec![c('!', false, true), c('x', false, false)];
    assert_eq!(tokanise_classified(&text), Err("Invalid char: x".to_owned()));
}

#[test]
fn every_unicode_space_separates() {
    for ws in ['\u{9}', '\u{b}', '\u{85}', '\u{1680}', '\u{2007}', '\u{2029}', '\u{205f}', '\u{3000}'] {
        let text = format!("a{}b", ws);
        assert_eq!(tokanise_string(&text), Ok(vec![var("a"), var("b")]), "{:?}", ws);
    }
    // U+180E is no longer whitespace.
    assert_eq!(tokanise_string("a\u{180e}b"), Err("Invalid char: \u{180e}".to_owned()));
}

#[test]
fn words_tokenise_one_after_the_other() {
    let text = "  2x+1  (y)\t=3 ";
    let mut each: Vec<Token> = Vec::new();
    for word in text.split_whitespace() {
        each.extend(tokanise_string(word).unwrap());
    }
    assert_eq!(tokanise_string(text), Ok(each));
    assert_eq!(tokanise_string("ok ok$ $bad"), tokanise_string("ok$"));
}

#[test]
fn parentheses_around_a_parsed_text() {
    for text in ["11 + 22 * 33", "2x(y - 1)", "a / b / c", "((q))"] {
        let wrapped = format!("( {} )", text);
        assert_eq!(SyntaxTree::parse(&wrapped).unwrap(), SyntaxTree::parse(text).unwrap());
        let bracketed = format!("({})", text);
        assert_eq!(SyntaxTree::parse(&bracketed).unwrap(), SyntaxTree::parse(text).unwrap());
    }
    // Without the spaces a numeral that is no decimal literal swallows the ')'.
    assert_eq!(SyntaxTree::parse("a \u{663}").unwrap(), leaf_var("a"));
    match SyntaxTree::parse("(a \u{663})") {
        Err(ParseError::Message(m)) => assert_eq!(m, "Invalid char: )"),
        other => panic!("unexpected {:?}", other),
    }
}

#[test]
fn highlighted_pieces() {
    let pieces = |v: Vec<(String, bool)>| v;
    assert_eq!(
        highlight_segments("banana"),
        pieces(vec![
            ("b".to_owned(), false), ("a".to_owned(), true), ("n".to_owned(), false),
            ("a".to_owned(), true), ("n".to_owned(), false), ("a".to_owned(), true),
            ("".to_owned(), false),
        ])
    );
    assert_eq!(highlight_segments(""), vec![("".to_owned(), false)]);
    assert_eq!(highlight_segments("xyz"), vec![("xyz".to_owned(), false)]);
}

#[test]
fn editor_clicks() {
    let mut e = Editor::default();
    e.text_box_text = "2x".to_owned();
    e.add_as_variable();
    e.text_box_text = "y + ".to_owned();
    e.add_as_variable();
    assert_eq!(e.variables, vec!["2x".to_owned(), "y + ".to_owned()]);
    e.append_variable(0);
    assert_eq!(e.text_box_text, "y + 2x");
    assert!(!e.vars_editing);
}

#[test]
fn checked_read_of_tokens_with_depths() {
    assert!(SyntaxTree::try_from_tokens(vec![], 0).is_none());
    let deep = usize::MAX;
    let one = vec![(lit("4"), deep)];
    assert_eq!(SyntaxTree::try_from_tokens(one, deep).unwrap().unwrap(), leaf_num("4"));
    let group = vec![(Token::OpenPeren, deep), (lit("4"), deep), (Token::ClosePeren, deep)];
    assert!(SyntaxTree::try_from_tokens(group, deep).is_none());
    let sum = vec![(lit("1"), 7), (Token::Op(Operation::Add), 7), (var("x"), 7)];
    assert_eq!(
        SyntaxTree::try_from_tokens(sum, 7).unwrap().unwrap(),
        op(Operation::Add, leaf_num("1"), leaf_var("x"))
    );
    match SyntaxTree::try_from_tokens(vec![(lit("4"), 2)], 1) {
        Some(Err(ParseError::Depth { expected, found, token })) => {
            assert_eq!((expected, found, token), (1, 2, lit("4")));
        }
        other => panic!("unexpected {:?}", other),
    }
}
