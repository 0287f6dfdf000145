use vstd::prelude::*;

verus! {

/// A binary operator of an expression.
#[derive(PartialEq, Eq, Clone, Copy, Debug, Structural)]
pub enum Operation {
    Add,
    Mult,
    Neg,
    Div,
}

/// The symbol an operator is written with.
pub open spec fn operation_text(op: Operation) -> Seq<char> {
    match op {
        Operation::Add => seq!['+'],
        Operation::Mult => seq!['*'],
        Operation::Neg => seq!['-'],
        Operation::Div => seq!['/'],
    }
}

impl Operation {
    /// The symbol this operator is written with.
    pub fn to_string(&self) -> (s: String)
        ensures
            s@ == operation_text(*self),
    {
        let mut s = String::new();
        match self {
            Operation::Add => s.push('+'),
            Operation::Mult => s.push('*'),
            Operation::Neg => s.push('-'),
            Operation::Div => s.push('/'),
        }
        s
    }
}


} // verus!

verus! {

/// A lexical unit of an expression.
#[derive(PartialEq, Eq, Clone, Debug)]
pub enum Token {
    /// A name: a letter followed by letters and digits.
    Variable(String),
    /// A number, kept exactly as written: a digit, then digits with at most one `.`.
    /// Literal numbers may end with a decimal point ("1.") but not start with one (".1").
    Literal(String),
    OpenPeren,
    ClosePeren,
    Op(Operation),
    Eq,
}

/// The mathematical model of a [`Token`]: its text taken as a sequence of characters.
pub enum SpecToken {
    Variable(Seq<char>),
    Literal(Seq<char>),
    OpenPeren,
    ClosePeren,
    Op(Operation),
    Eq,
}

impl View for Token {
    type V = SpecToken;

    open spec fn view(&self) -> SpecToken {
        match self {
            Token::Variable(s) => SpecToken::Variable(s@),
            Token::Literal(s) => SpecToken::Literal(s@),
            Token::OpenPeren => SpecToken::OpenPeren,
            Token::ClosePeren => SpecToken::ClosePeren,
            Token::Op(op) => SpecToken::Op(*op),
            Token::Eq => SpecToken::Eq,
        }
    }
}

/// The models of a sequence of tokens.
pub open spec fn view_tokens(ts: Seq<Token>) -> Seq<SpecToken> {
    ts.map_values(|t: Token| t@)
}

/// How a token is written: a variable or literal by its own text, an operator by its
/// symbol, and `(`, `)`, `=`.
pub open spec fn token_text(t: SpecToken) -> Seq<char> {
    match t {
        SpecToken::Variable(s) => s,
        SpecToken::Literal(s) => s,
        SpecToken::OpenPeren => seq!['('],
        SpecToken::ClosePeren => seq![')'],
        SpecToken::Op(op) => operation_text(op),
        SpecToken::Eq => seq!['='],
    }
}

/// The texts of the tokens, separated by single spaces.
pub open spec fn join_token_texts(ts: Seq<SpecToken>) -> Seq<char>
    decreases ts.len(),
{
    if ts.len() == 0 {
        Seq::empty()
    } else if ts.len() == 1 {
        token_text(ts[0])
    } else {
        join_token_texts(ts.drop_last()) + seq![' '] + token_text(ts.last())
    }
}

impl Token {
    /// How this token is written.
    pub fn to_string(&self) -> (s: String)
        ensures
            s@ == token_text(self@),
    {
        match self {
            Token::Variable(v) => v.clone(),
            Token::Literal(n) => n.clone(),
            Token::Op(op) => op.to_string(),
            Token::OpenPeren => {
                let mut s = String::new();
                s.push('(');
                s
            },
            Token::ClosePeren => {
                let mut s = String::new();
                s.push(')');
                s
            },
            Token::Eq => {
                let mut s = String::new();
                s.push('=');
                s
            },
        }
    }

    /// A copy of this token with the same model.
    pub(crate) fn duplicate(&self) -> (t: Token)
        ensures
            t@ == self@,
    {
        match self {
            Token::Variable(v) => Token::Variable(v.clone()),
            Token::Literal(n) => Token::Literal(n.clone()),
            Token::Op(op) => Token::Op(*op),
            Token::OpenPeren => Token::OpenPeren,
            Token::ClosePeren => Token::ClosePeren,
            Token::Eq => Token::Eq,
        }
    }
}

/// Appends every character of `src` to `dst`.
fn push_all(dst: &mut String, src: &String)
    ensures
        final(dst)@ == old(dst)@ + src@,
{
    let chars = crate::unicode::chars_of(src.as_str());
    for i in 0..chars.len()
        invariant
            chars@ == src@,
            dst@ == old(dst)@ + src@.take(i as int),
    {
        dst.push(chars[i]);
        assert(src@.take(i + 1) == src@.take(i as int).push(src@[i as int]));
    }
    assert(src@.take(chars.len() as int) == src@);
}

/// Writes the tokens one after the other, separated by single spaces.
pub fn tokens_to_string(tokens: &[Token]) -> (s: String)
    ensures
        s@ == join_token_texts(view_tokens(tokens@)),
{
    let mut s = String::new();
    let ghost ts = view_tokens(tokens@);
    for i in 0..tokens.len()
        invariant
            ts == view_tokens(tokens@),
            s@ == join_token_texts(ts.take(i as int)),
    {
        assert(ts.take(i + 1).drop_last() == ts.take(i as int));
        if i > 0 {
            s.push(' ');
        }
        let t = tokens[i].to_string();
        push_all(&mut s, &t);
    }
    assert(ts.take(tokens.len() as int) == ts);
    s
}

} // verus!
