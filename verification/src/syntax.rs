use vstd::prelude::*;

use crate::implicit::{insert_impl_mult, with_implicit_mult};
use crate::token::{Operation, SpecToken, Token, view_tokens};
use crate::tokenize::{spec_tokanise, tokanise_string};

verus! {

/// An expression tree.
#[derive(Debug, PartialEq)]
pub enum SyntaxTree {
    /// A variable, by its name.
    Var(String),
    /// A number, by its numeral as written.
    Num(String),
    /// A binary operation on two subexpressions.
    Op(Operation, Box<SyntaxTree>, Box<SyntaxTree>),
    /// An equation between two expressions.
    Eq(Box<SyntaxTree>, Box<SyntaxTree>),
}

/// The mathematical model of a [`SyntaxTree`].
pub enum SpecTree {
    Var(Seq<char>),
    Num(Seq<char>),
    Op(Operation, Box<SpecTree>, Box<SpecTree>),
    Eq(Box<SpecTree>, Box<SpecTree>),
}

impl SyntaxTree {
    /// The model of this tree: names and numerals taken as character sequences.
    pub open spec fn model(&self) -> SpecTree
        decreases self,
    {
        match self {
            SyntaxTree::Var(s) => SpecTree::Var(s@),
            SyntaxTree::Num(s) => SpecTree::Num(s@),
            SyntaxTree::Op(op, l, r) => SpecTree::Op(*op, Box::new(l.model()), Box::new(r.model())),
            SyntaxTree::Eq(l, r) => SpecTree::Eq(Box::new(l.model()), Box::new(r.model())),
        }
    }
}

impl View for SyntaxTree {
    type V = SpecTree;

    open spec fn view(&self) -> SpecTree {
        self.model()
    }
}

/// Why a text could not be parsed.
#[derive(Debug)]
pub enum ParseError {
    /// A failure described in words, such as the tokeniser's message for a character
    /// that cannot start a token.
    Message(String),
    /// A token met at a parenthesis depth other than the one being read.
    Depth { expected: usize, found: usize, token: Token },
    /// A token that cannot stand as an operand on its own.
    InvalidToken(Token),
}

/// The model of a [`ParseError`].
pub enum SpecParseError {
    Message(Seq<char>),
    Depth { expected: int, found: int, token: SpecToken },
    InvalidToken(SpecToken),
}

impl View for ParseError {
    type V = SpecParseError;

    open spec fn view(&self) -> SpecParseError {
        match self {
            ParseError::Message(s) => SpecParseError::Message(s@),
            ParseError::Depth { expected, found, token } => SpecParseError::Depth {
                expected: *expected as int,
                found: *found as int,
                token: token@,
            },
            ParseError::InvalidToken(t) => SpecParseError::InvalidToken(t@),
        }
    }
}

/// What parsing gives: a tree, an error, or a stop on an input the reader cannot
/// handle (an empty operand, or a `)` with no `(` before it).
pub enum Outcome {
    Tree(SpecTree),
    Failed(SpecParseError),
    Panic,
}

/// The outcome that a parse result stands for.
pub open spec fn view_parse_result(r: Result<Box<SyntaxTree>, ParseError>) -> Outcome {
    match r {
        Ok(t) => Outcome::Tree(t@),
        Err(e) => Outcome::Failed(e@),
    }
}

/// The models of tokens paired with their parenthesis depths.
pub open spec fn view_depth_tokens(ts: Seq<(Token, usize)>) -> Seq<(SpecToken, int)> {
    ts.map_values(|p: (Token, usize)| (p.0@, p.1 as int))
}

/// The number of `(` minus the number of `)` among the tokens.
pub open spec fn paren_balance(ts: Seq<SpecToken>) -> int
    decreases ts.len(),
{
    if ts.len() == 0 {
        0
    } else {
        paren_balance(ts.drop_last()) + match ts.last() {
            SpecToken::OpenPeren => 1int,
            SpecToken::ClosePeren => -1int,
            _ => 0int,
        }
    }
}

/// No prefix of the tokens closes more parentheses than it opens.
pub open spec fn never_unbalanced(ts: Seq<SpecToken>) -> bool {
    forall|k: int| 0 <= k <= ts.len() ==> paren_balance(#[trigger] ts.take(k)) >= 0
}

/// Each token paired with its depth: the parentheses opened and not closed up to and
/// including it (a `(` counts itself, a `)` does not).
pub open spec fn with_depths(ts: Seq<SpecToken>) -> Seq<(SpecToken, int)> {
    Seq::new(ts.len(), |i: int| (ts[i], paren_balance(ts.take(i + 1))))
}

/// The operator that separates operands at a precedence level: `-` binds loosest,
/// then `+`, then `*`, then `/`.
pub open spec fn level_op(level: nat) -> Operation {
    if level == 0 {
        Operation::Neg
    } else if level == 1 {
        Operation::Add
    } else if level == 2 {
        Operation::Mult
    } else {
        Operation::Div
    }
}

/// The position of the last `op` token at depth `d`, if there is one.
pub open spec fn last_separator(ts: Seq<(SpecToken, int)>, op: Operation, d: int) -> Option<int>
    decreases ts.len(),
{
    if ts.len() == 0 {
        None
    } else if ts.last() == (SpecToken::Op(op), d) {
        Some(ts.len() - 1)
    } else {
        last_separator(ts.drop_last(), op, d)
    }
}

pub proof fn lemma_last_separator(ts: Seq<(SpecToken, int)>, op: Operation, d: int)
    ensures
        last_separator(ts, op, d) matches Some(k) ==> 0 <= k < ts.len() && ts[k] == (
            SpecToken::Op(op),
            d,
        ),
    decreases ts.len(),
{
    if ts.len() > 0 && ts.last() != (SpecToken::Op(op), d) {
        lemma_last_separator(ts.drop_last(), op, d);
    }
}

/// Reads the tokens (with their depths) as an expression at depth `d`, from
/// precedence level `level` on.
///
/// At a level below 4 the tokens split at the last operator of that level at depth
/// `d`: what stands before it is read at the same level, what stands after it at the
/// next, and the two form that operation (so operators of one level group to the
/// left). Without such an operator they are read at the next level. At level 4 a
/// single token at depth `d` is a number or a variable; two or more tokens are taken
/// as a parenthesised expression: the first and last are dropped and the rest is read
/// at depth `d + 1`. No tokens at all is a stop, and so is a parenthesised expression
/// at depth `usize::MAX`, whose depth `d + 1` would overflow.
pub open spec fn parse_level(ts: Seq<(SpecToken, int)>, d: int, level: nat) -> Outcome
    decreases ts.len(), 4 - level,
{
    if level >= 4 {
        if ts.len() == 0 {
            Outcome::Panic
        } else if ts.len() == 1 {
            let (t, depth) = ts[0];
            if depth != d {
                Outcome::Failed(SpecParseError::Depth { expected: d, found: depth, token: t })
            } else {
                match t {
                    SpecToken::Literal(s) => Outcome::Tree(SpecTree::Num(s)),
                    SpecToken::Variable(s) => Outcome::Tree(SpecTree::Var(s)),
                    _ => Outcome::Failed(SpecParseError::InvalidToken(t)),
                }
            }
        } else {
            if d >= usize::MAX {
                Outcome::Panic
            } else {
                parse_level(ts.subrange(1, ts.len() - 1), d + 1, 0)
            }
        }
    } else {
        let op = level_op(level);
        match last_separator(ts, op, d) {
            None => parse_level(ts, d, level + 1),
            Some(k) => {
                proof {
                    lemma_last_separator(ts, op, d);
                }
                match parse_level(ts.take(k), d, level) {
                    Outcome::Tree(l) => match parse_level(ts.skip(k + 1), d, level + 1) {
                        Outcome::Tree(r) => Outcome::Tree(SpecTree::Op(op, Box::new(l), Box::new(r))),
                        other => other,
                    },
                    other => other,
                }
            },
        }
    }
}

/// What parsing the text `s` gives: it is tokenised, implicit multiplications are
/// made explicit, each token gets its depth, and the tokens are read at depth 0.
pub open spec fn spec_parse(s: Seq<char>) -> Outcome {
    match spec_tokanise(s) {
        Err(message) => Outcome::Failed(SpecParseError::Message(message)),
        Ok(ts) => {
            let full = with_implicit_mult(ts);
            if never_unbalanced(full) {
                parse_level(with_depths(full), 0, 0)
            } else {
                Outcome::Panic
            }
        },
    }
}

} // verus!

verus! {

/// The operator of a precedence level.
fn level_operation(level: usize) -> (op: Operation)
    ensures
        op == level_op(level as nat),
{
    if level == 0 {
        Operation::Neg
    } else if level == 1 {
        Operation::Add
    } else if level == 2 {
        Operation::Mult
    } else {
        Operation::Div
    }
}

/// Whether the token is the operator `op`.
fn is_operator(t: &Token, op: Operation) -> (b: bool)
    ensures
        b == (t@ == SpecToken::Op(op)),
{
    match t {
        Token::Op(o) => *o == op,
        _ => false,
    }
}

/// The position of the last `op` token at depth `d` in `tokens[lo..hi]`.
fn find_last_separator(
    tokens: &Vec<(Token, usize)>,
    lo: usize,
    hi: usize,
    op: Operation,
    d: usize,
) -> (r: Option<usize>)
    requires
        lo <= hi <= tokens.len(),
    ensures
        ({
            let ts = view_depth_tokens(tokens@).subrange(lo as int, hi as int);
            match r {
                Some(k) => lo <= k < hi && last_separator(ts, op, d as int) == Some(k - lo),
                None => last_separator(ts, op, d as int) is None,
            }
        }),
{
    let ghost vt = view_depth_tokens(tokens@);
    let mut j = hi;
    while j > lo
        invariant
            lo <= j <= hi <= tokens.len(),
            vt == view_depth_tokens(tokens@),
            last_separator(vt.subrange(lo as int, hi as int), op, d as int) == last_separator(
                vt.subrange(lo as int, j as int),
                op,
                d as int,
            ),
        decreases j,
    {
        let pair = &tokens[j - 1];
        let ghost part = vt.subrange(lo as int, j as int);
        assert(part.last() == vt[j - 1]);
        assert(part.drop_last() == vt.subrange(lo as int, j - 1));
        if pair.1 == d && is_operator(&pair.0, op) {
            return Some(j - 1);
        }
        j = j - 1;
    }
    None
}

/// The tokens with their parenthesis depths, or `None` where a `)` closes more
/// parentheses than were opened before it.
fn attach_depths(tokens: &Vec<Token>) -> (r: Option<Vec<(Token, usize)>>)
    ensures
        match r {
            Some(v) => never_unbalanced(view_tokens(tokens@)) && view_depth_tokens(v@)
                == with_depths(view_tokens(tokens@)),
            None => !never_unbalanced(view_tokens(tokens@)),
        },
{
    let ghost ts = view_tokens(tokens@);
    let n = tokens.len();
    let mut depth: usize = 0;
    let mut out: Vec<(Token, usize)> = Vec::new();
    assert(ts.take(0) == Seq::<SpecToken>::empty());
    for i in 0..n
        invariant
            n == tokens.len(),
            ts == view_tokens(tokens@),
            depth == paren_balance(ts.take(i as int)),
            depth <= i,
            forall|k: int| 0 <= k <= i ==> paren_balance(#[trigger] ts.take(k)) >= 0,
            view_depth_tokens(out@) == with_depths(ts).take(i as int),
    {
        assert(ts.take(i + 1).drop_last() == ts.take(i as int));
        assert(ts.take(i + 1).last() == ts[i as int]);
        match &tokens[i] {
            Token::OpenPeren => {
                depth = depth + 1;
            },
            Token::ClosePeren => {
                if depth == 0 {
                    assert(paren_balance(ts.take(i + 1)) < 0);
                    return None;
                }
                depth = depth - 1;
            },
            _ => {},
        }
        let ghost before = out@;
        out.push((tokens[i].duplicate(), depth));
        assert(view_depth_tokens(out@) == view_depth_tokens(before).push(
            (ts[i as int], depth as int),
        ));
        assert(with_depths(ts).take(i + 1) == with_depths(ts).take(i as int).push(
            (ts[i as int], paren_balance(ts.take(i + 1))),
        ));
    }
    assert(ts.take(n as int) == ts);
    assert(with_depths(ts).take(n as int) == with_depths(ts));
    Some(out)
}

impl SyntaxTree {
    /// Reads `tokens[lo..hi]` as an expression at depth `d` from precedence level
    /// `level` on; `None` where the reader stops (an empty operand).
    fn parse_range(
        tokens: &Vec<(Token, usize)>,
        lo: usize,
        hi: usize,
        d: usize,
        level: usize,
    ) -> (r: Option<Result<Box<SyntaxTree>, ParseError>>)
        requires
            lo <= hi <= tokens.len(),
            level <= 4,
        ensures
            ({
                let outcome = parse_level(
                    view_depth_tokens(tokens@).subrange(lo as int, hi as int),
                    d as int,
                    level as nat,
                );
                match r {
                    Some(res) => outcome == view_parse_result(res),
                    None => outcome is Panic,
                }
            }),
        decreases hi - lo, 4 - level,
    {
        let ghost vt = view_depth_tokens(tokens@);
        let ghost ts = vt.subrange(lo as int, hi as int);
        if level >= 4 {
            if hi == lo {
                return None;
            }
            if hi - lo == 1 {
                let pair = &tokens[lo];
                assert(ts[0] == vt[lo as int]);
                if pair.1 != d {
                    return Some(
                        Err(
                            ParseError::Depth {
                                expected: d,
                                found: pair.1,
                                token: pair.0.duplicate(),
                            },
                        ),
                    );
                }
                match &pair.0 {
                    Token::Literal(s) => Some(Ok(Box::new(SyntaxTree::Num(s.clone())))),
                    Token::Variable(s) => Some(Ok(Box::new(SyntaxTree::Var(s.clone())))),
                    t => Some(Err(ParseError::InvalidToken(t.duplicate()))),
                }
            } else {
                if d == usize::MAX {
                    return None;
                }
                assert(ts.subrange(1, ts.len() - 1) == vt.subrange(lo + 1, hi - 1));
                Self::parse_range(tokens, lo + 1, hi - 1, d + 1, 0)
            }
        } else {
            let op = level_operation(level);
            match find_last_separator(tokens, lo, hi, op, d) {
                None => Self::parse_range(tokens, lo, hi, d, level + 1),
                Some(k) => {
                    assert(ts.take(k - lo) == vt.subrange(lo as int, k as int));
                    assert(ts.skip(k - lo + 1) == vt.subrange(k + 1, hi as int));
                    match Self::parse_range(tokens, lo, k, d, level) {
                        None => None,
                        Some(Err(e)) => Some(Err(e)),
                        Some(Ok(left)) => match Self::parse_range(tokens, k + 1, hi, d, level + 1) {
                            None => None,
                            Some(Err(e)) => Some(Err(e)),
                            Some(Ok(right)) => Some(Ok(Box::new(SyntaxTree::Op(op, left, right)))),
                        },
                    }
                },
            }
        }
    }
}

} // verus!

verus! {

impl SyntaxTree {
    /// Parses the text; `None` where the reader stops.
    fn parse_checked(string: &str) -> (r: Option<Result<Box<SyntaxTree>, ParseError>>)
        ensures
            match r {
                Some(res) => spec_parse(string@) == view_parse_result(res),
                None => spec_parse(string@) is Panic,
            },
    {
        let mut tokens = match tokanise_string(string) {
            Ok(tokens) => tokens,
            Err(message) => return Some(Err(ParseError::Message(message))),
        };
        insert_impl_mult(&mut tokens);
        let with_depth = match attach_depths(&tokens) {
            Some(v) => v,
            None => return None,
        };
        let n = with_depth.len();
        assert(view_depth_tokens(with_depth@).subrange(0, n as int) == view_depth_tokens(
            with_depth@,
        ));
        Self::parse_range(&with_depth, 0, n, 0, 0)
    }

    /// Reads tokens paired with their parenthesis depths as an expression at depth
    /// `current_depth`; see [`parse_level`]. Requires tokens on which the reader does
    /// not stop (see [`SyntaxTree::try_from_tokens`]).
    pub fn from_tokens(tokens: Vec<(Token, usize)>, current_depth: usize) -> (r: Result<
        Box<Self>,
        ParseError,
    >)
        requires
            !(parse_level(view_depth_tokens(tokens@), current_depth as int, 0) is Panic),
        ensures
            view_parse_result(r) == parse_level(
                view_depth_tokens(tokens@),
                current_depth as int,
                0,
            ),
    {
        let n = tokens.len();
        assert(view_depth_tokens(tokens@).subrange(0, n as int) == view_depth_tokens(tokens@));
        match Self::parse_range(&tokens, 0, n, current_depth, 0) {
            Some(r) => r,
            None => vstd::pervasive::unreached(),
        }
    }

    /// Reads tokens paired with their parenthesis depths as [`SyntaxTree::from_tokens`]
    /// does; `None` on the tokens where the reader stops: an empty operand, or a
    /// parenthesised group at depth `usize::MAX`.
    pub fn try_from_tokens(tokens: Vec<(Token, usize)>, current_depth: usize) -> (r: Option<
        Result<Box<Self>, ParseError>,
    >)
        ensures
            r is None <==> parse_level(view_depth_tokens(tokens@), current_depth as int, 0) is Panic,
            r matches Some(res) ==> view_parse_result(res) == parse_level(
                view_depth_tokens(tokens@),
                current_depth as int,
                0,
            ),
    {
        let n = tokens.len();
        assert(view_depth_tokens(tokens@).subrange(0, n as int) == view_depth_tokens(tokens@));
        if Self::parse_range(&tokens, 0, n, current_depth, 0).is_none() {
            None
        } else {
            Some(Self::from_tokens(tokens, current_depth))
        }
    }

    /// Parses the text as an expression.
    ///
    /// `-` binds loosest, then `+`, then `*`, then `/`; operators of one kind group to
    /// the left; neighbours such as `2x` or `2(x)` are multiplied. Requires a text on
    /// which the reader does not stop (see [`SyntaxTree::try_parse`]).
    pub fn parse(string: &str) -> (r: Result<Box<Self>, ParseError>)
        requires
            !(spec_parse(string@) is Panic),
        ensures
            view_parse_result(r) == spec_parse(string@),
    {
        match Self::parse_checked(string) {
            Some(r) => r,
            None => vstd::pervasive::unreached(),
        }
    }

    /// Parses the text as [`SyntaxTree::parse`] does; `None` on the texts where the
    /// reader stops: an empty operand (as in `""`, `-1`, `1 +` or `()`) or a `)` with
    /// no `(` before it.
    pub fn try_parse(string: &str) -> (r: Option<Result<Box<Self>, ParseError>>)
        ensures
            r is None <==> spec_parse(string@) is Panic,
            r matches Some(res) ==> view_parse_result(res) == spec_parse(string@),
    {
        if Self::parse_checked(string).is_none() {
            None
        } else {
            Some(Self::parse(string))
        }
    }
}

/// Where a token sequence whose closing `)` was taken off opens that parenthesis:
/// read from the end, `)` opens one more level and `(` closes one; the `(` that
/// brings the level from 1 to 0.
pub open spec fn opening_from_end(ts: Seq<SpecToken>, depth: int) -> Option<int>
    decreases ts.len(),
{
    if ts.len() == 0 {
        None
    } else {
        match ts.last() {
            SpecToken::ClosePeren => opening_from_end(ts.drop_last(), depth + 1),
            SpecToken::OpenPeren => if depth - 1 == 0 {
                Some(ts.len() - 1)
            } else {
                opening_from_end(ts.drop_last(), depth - 1)
            },
            _ => opening_from_end(ts.drop_last(), depth),
        }
    }
}

/// The message for a parenthesis without its match.
pub open spec fn unmatched_message() -> Seq<char> {
    "Unable to find corresponding closing bracket"@
}

/// The position of the `(` that matches a `)` just after the end of `tokens`.
pub fn find_openning_bracket(tokens: &[Token]) -> (r: Result<usize, ParseError>)
    requires
        tokens.len() < usize::MAX,
    ensures
        match opening_from_end(view_tokens(tokens@), 1) {
            Some(i) => r == Ok::<usize, ParseError>(i as usize),
            None => r matches Err(e) && e@ == SpecParseError::Message(unmatched_message()),
        },
{
    let ghost ts = view_tokens(tokens@);
    let mut i = tokens.len();
    let mut depth: usize = 1;
    assert(ts.take(i as int) == ts);
    while i > 0
        invariant
            i <= tokens.len() < usize::MAX,
            ts == view_tokens(tokens@),
            1 <= depth <= tokens.len() - i + 1,
            opening_from_end(ts, 1) == opening_from_end(ts.take(i as int), depth as int),
        decreases i,
    {
        assert(ts.take(i as int).drop_last() == ts.take(i - 1));
        assert(ts.take(i as int).last() == ts[i - 1]);
        match &tokens[i - 1] {
            Token::ClosePeren => {
                depth = depth + 1;
            },
            Token::OpenPeren => {
                depth = depth - 1;
                if depth == 0 {
                    return Ok(i - 1);
                }
            },
            _ => {},
        }
        i = i - 1;
    }
    assert(ts.take(0) == Seq::<SpecToken>::empty());
    Err(ParseError::Message(String::from_str("Unable to find corresponding closing bracket")))
}

} // verus!
