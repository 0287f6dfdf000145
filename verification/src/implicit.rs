use vstd::prelude::*;

use crate::token::{Operation, SpecToken, Token, view_tokens};

verus! {

/// Whether an operand can end with this token: a literal, a variable or `)`.
pub open spec fn ends_operand(t: SpecToken) -> bool {
    t is Literal || t is Variable || t is ClosePeren
}

/// Whether an operand can start with this token: a literal, a variable or `(`.
pub open spec fn starts_operand(t: SpecToken) -> bool {
    t is Literal || t is Variable || t is OpenPeren
}

/// The tokens with a `*` put between every two neighbours where the first can end an
/// operand and the second can start one, as in `2x`, `2(x)`, `(a)(b)` or `(a)b`.
pub open spec fn with_implicit_mult(ts: Seq<SpecToken>) -> Seq<SpecToken>
    decreases ts.len(),
{
    if ts.len() < 2 {
        ts
    } else {
        let init = with_implicit_mult(ts.drop_last());
        if ends_operand(ts[ts.len() - 2]) && starts_operand(ts.last()) {
            init + seq![SpecToken::Op(Operation::Mult), ts.last()]
        } else {
            init.push(ts.last())
        }
    }
}

impl Token {
    /// Whether an operand can end with this token.
    pub fn ends_operand(&self) -> (b: bool)
        ensures
            b == ends_operand(self@),
    {
        match self {
            Token::Literal(_) | Token::Variable(_) | Token::ClosePeren => true,
            _ => false,
        }
    }

    /// Whether an operand can start with this token.
    pub fn starts_operand(&self) -> (b: bool)
        ensures
            b == starts_operand(self@),
    {
        match self {
            Token::Literal(_) | Token::Variable(_) | Token::OpenPeren => true,
            _ => false,
        }
    }
}

/// Makes implicit multiplication explicit: puts a `*` token between every two
/// neighbouring tokens where the first can end an operand and the second can start one.
pub fn insert_impl_mult(tokens: &mut Vec<Token>)
    ensures
        view_tokens(final(tokens)@) == with_implicit_mult(view_tokens(old(tokens)@)),
{
    let ghost ts = view_tokens(tokens@);
    let mut out: Vec<Token> = Vec::new();
    let n = tokens.len();
    for i in 0..n
        invariant
            n == tokens.len(),
            ts == view_tokens(tokens@),
            view_tokens(out@) == with_implicit_mult(ts.take(i as int)),
    {
        let ghost before = out@;
        assert(ts.take(i + 1).drop_last() == ts.take(i as int));
        if i > 0 && tokens[i - 1].ends_operand() && tokens[i].starts_operand() {
            out.push(Token::Op(Operation::Mult));
            out.push(tokens[i].duplicate());
            assert(view_tokens(out@) == view_tokens(before) + seq![
                SpecToken::Op(Operation::Mult),
                ts[i as int],
            ]);
        } else {
            out.push(tokens[i].duplicate());
            assert(view_tokens(out@) == view_tokens(before).push(ts[i as int]));
            if i == 0 {
                assert(ts.take(1) == seq![ts[0]]);
                assert(view_tokens(before) == Seq::<SpecToken>::empty());
            }
        }
    }
    assert(ts.take(n as int) == ts);
    *tokens = out;
}

} // verus!
