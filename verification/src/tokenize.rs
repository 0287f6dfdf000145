use vstd::prelude::*;

use crate::token::{Operation, SpecToken, Token, view_tokens};
use crate::unicode::{
    char_is_alphabetic,
    char_is_numeric,
    char_is_whitespace,
    chars_of,
    is_alphabetic,
    is_numeric,
    is_whitespace,
};

verus! {

/// A character with the two classes that the tokeniser reads it by: whether it is
/// alphabetic (`char::is_alphabetic`) and whether it is numeric (`char::is_numeric`).
#[derive(Clone, Copy, Debug, PartialEq, Eq, Structural)]
pub struct Classified {
    pub ch: char,
    pub alphabetic: bool,
    pub numeric: bool,
}

/// The characters of `s`, each with its classes as std gives them.
pub open spec fn classify(s: Seq<char>) -> Seq<Classified> {
    s.map_values(|c: char| classify_char(c))
}

/// A character with its classes as std gives them.
pub open spec fn classify_char(c: char) -> Classified {
    Classified { ch: c, alphabetic: char_is_alphabetic(c), numeric: char_is_numeric(c) }
}

/// The characters of classified text.
pub open spec fn plain(w: Seq<Classified>) -> Seq<char> {
    w.map_values(|x: Classified| x.ch)
}

/// Why reading a token from the front of a word failed.
#[derive(Clone, Copy, Debug, PartialEq, Eq, Structural)]
pub enum ScanStop {
    /// The word has no characters left.
    EndOfWord,
    /// The word goes on with this character, which cannot start a token.
    InvalidFirst(char),
    /// A numeral was read that is no decimal floating-point literal.
    NotDecimal,
}

/// The message that reading a token gives on a failure, where it is a text of the
/// reader's own: "Cannot turn empty string into token" at the end of a word, and
/// "Invalid token first char: c" for a character that cannot start a token. (For a
/// numeral that is no decimal literal it is the message of std's float parser.) No
/// message reaches the tokeniser's result: a failed read only ends the word.
pub open spec fn stop_message(stop: ScanStop) -> Option<Seq<char>> {
    match stop {
        ScanStop::EndOfWord => Some("Cannot turn empty string into token"@),
        ScanStop::InvalidFirst(c) => Some("Invalid token first char: "@ + seq![c]),
        ScanStop::NotDecimal => None,
    }
}

/// What reading one token from the front of a word gives.
pub enum Scan {
    /// A token, and how many characters it took.
    Token(SpecToken, nat),
    /// No token: the number of characters consumed while trying, and why.
    Stop(nat, ScanStop),
}

/// The length of the run of alphanumeric characters at the front of `s`: alphabetic
/// or numeric ones, as std documents `char::is_alphanumeric`.
pub open spec fn alnum_run(s: Seq<Classified>) -> nat
    decreases s.len(),
{
    if s.len() > 0 && (s[0].alphabetic || s[0].numeric) {
        1 + alnum_run(s.drop_first())
    } else {
        0
    }
}

/// The length of the rest of a numeral at the front of `s`: numeric characters and,
/// if none was taken yet, one decimal point.
pub open spec fn numeral_run(s: Seq<Classified>, point_used: bool) -> nat
    decreases s.len(),
{
    if s.len() == 0 {
        0
    } else if !point_used && s[0].ch == '.' {
        1 + numeral_run(s.drop_first(), true)
    } else if s[0].numeric {
        1 + numeral_run(s.drop_first(), point_used)
    } else {
        0
    }
}

pub open spec fn is_ascii_digit(c: char) -> bool {
    '0' <= c <= '9'
}

/// A numeral made only of the digits `0`-`9` and `.`: the ones that are decimal
/// floating-point literals; one with any other numeric character (such as U+00B2 or U+0663)
/// is not.
pub open spec fn is_decimal_text(s: Seq<char>) -> bool {
    forall|i: int| 0 <= i < s.len() ==> is_ascii_digit(#[trigger] s[i]) || s[i] == '.'
}

/// The token that a single-character symbol stands for.
pub open spec fn symbol_token(c: char) -> Option<SpecToken> {
    if c == '(' {
        Some(SpecToken::OpenPeren)
    } else if c == ')' {
        Some(SpecToken::ClosePeren)
    } else if c == '+' {
        Some(SpecToken::Op(Operation::Add))
    } else if c == '*' {
        Some(SpecToken::Op(Operation::Mult))
    } else if c == '-' {
        Some(SpecToken::Op(Operation::Neg))
    } else if c == '/' {
        Some(SpecToken::Op(Operation::Div))
    } else if c == '=' {
        Some(SpecToken::Eq)
    } else {
        None
    }
}

/// Reads one token from the front of the word `w`.
pub open spec fn scan_token(w: Seq<Classified>) -> Scan {
    if w.len() == 0 {
        Scan::Stop(0, ScanStop::EndOfWord)
    } else if w[0].alphabetic {
        let n = 1 + alnum_run(w.drop_first());
        Scan::Token(SpecToken::Variable(plain(w.take(n as int))), n)
    } else if w[0].numeric {
        let n = 1 + numeral_run(w.drop_first(), false);
        if is_decimal_text(plain(w.take(n as int))) {
            Scan::Token(SpecToken::Literal(plain(w.take(n as int))), n)
        } else {
            Scan::Stop(n, ScanStop::NotDecimal)
        }
    } else {
        match symbol_token(w[0].ch) {
            Some(t) => Scan::Token(t, 1),
            None => Scan::Stop(0, ScanStop::InvalidFirst(w[0].ch)),
        }
    }
}

pub proof fn lemma_alnum_run_bound(s: Seq<Classified>)
    ensures
        alnum_run(s) <= s.len(),
    decreases s.len(),
{
    if s.len() > 0 {
        lemma_alnum_run_bound(s.drop_first());
    }
}

pub proof fn lemma_numeral_run_bound(s: Seq<Classified>, point_used: bool)
    ensures
        numeral_run(s, point_used) <= s.len(),
    decreases s.len(),
{
    if s.len() > 0 {
        lemma_numeral_run_bound(s.drop_first(), true);
        lemma_numeral_run_bound(s.drop_first(), point_used);
    }
}

/// A token read from a word takes at least one and at most all of its characters;
/// a failed read consumes no more than the word.
pub proof fn lemma_scan_token_bound(w: Seq<Classified>)
    ensures
        scan_token(w) matches Scan::Token(_, n) ==> 1 <= n <= w.len(),
        scan_token(w) matches Scan::Stop(n, _) ==> n <= w.len(),
{
    if w.len() > 0 {
        lemma_alnum_run_bound(w.drop_first());
        lemma_numeral_run_bound(w.drop_first(), false);
    }
}

/// The tokens of a word, read from the front until a read fails, and the character
/// that follows the failed read, if there is one.
pub open spec fn scan_word(w: Seq<Classified>) -> (Seq<SpecToken>, Option<char>)
    decreases w.len(),
{
    match scan_token(w) {
        Scan::Token(t, n) => {
            proof {
                lemma_scan_token_bound(w);
            }
            let rest = scan_word(w.skip(n as int));
            (seq![t] + rest.0, rest.1)
        },
        Scan::Stop(n, _) => {
            if n < w.len() {
                (Seq::empty(), Some(w[n as int].ch))
            } else {
                (Seq::empty(), None)
            }
        },
    }
}

/// The length of the run of non-whitespace characters at the front of `s`.
pub open spec fn word_len(s: Seq<Classified>) -> nat
    decreases s.len(),
{
    if s.len() > 0 && !char_is_whitespace(s[0].ch) {
        1 + word_len(s.drop_first())
    } else {
        0
    }
}

pub proof fn lemma_word_len_bound(s: Seq<Classified>)
    ensures
        word_len(s) <= s.len(),
        s.len() > 0 && !char_is_whitespace(s[0].ch) ==> word_len(s) >= 1,
    decreases s.len(),
{
    if s.len() > 0 {
        lemma_word_len_bound(s.drop_first());
    }
}

/// Joins what two stretches of text give: the tokens one after the other, and the
/// first stretch's invalid character if it has one.
pub open spec fn combine_scans(
    a: (Seq<SpecToken>, Option<char>),
    b: (Seq<SpecToken>, Option<char>),
) -> (Seq<SpecToken>, Option<char>) {
    (a.0 + b.0, if a.1 is Some { a.1 } else { b.1 })
}

/// The tokens of every whitespace-separated word of `s`, in order, and the first
/// invalid character met in any word.
pub open spec fn scan_text(s: Seq<Classified>) -> (Seq<SpecToken>, Option<char>)
    decreases s.len(),
{
    if s.len() == 0 {
        (Seq::empty(), None)
    } else if char_is_whitespace(s[0].ch) {
        scan_text(s.drop_first())
    } else {
        proof {
            lemma_word_len_bound(s);
        }
        let k = word_len(s);
        combine_scans(scan_word(s.take(k as int)), scan_text(s.skip(k as int)))
    }
}

/// The message for a character that cannot start a token.
pub open spec fn invalid_char_message(c: char) -> Seq<char> {
    "Invalid char: "@ + seq![c]
}

/// The result of tokenising the classified text `s`.
pub open spec fn spec_tokanise_classified(s: Seq<Classified>) -> Result<
    Seq<SpecToken>,
    Seq<char>,
> {
    let (tokens, invalid) = scan_text(s);
    match invalid {
        Some(c) => Err(invalid_char_message(c)),
        None => Ok(tokens),
    }
}

/// The result of tokenising the text `s`, its characters classified as std does.
pub open spec fn spec_tokanise(s: Seq<char>) -> Result<Seq<SpecToken>, Seq<char>> {
    spec_tokanise_classified(classify(s))
}

/// The model of a tokeniser result.
pub open spec fn view_tokanise_result(r: Result<Vec<Token>, String>) -> Result<
    Seq<SpecToken>,
    Seq<char>,
> {
    match r {
        Ok(v) => Ok(view_tokens(v@)),
        Err(e) => Err(e@),
    }
}

} // verus!

verus! {

/// What reading one token from a word gives, as computed.
enum Scanned {
    Tok(Token, usize),
    Stop(usize, ScanStop),
}

/// The end of the run of alphanumeric characters in `chars[from..end]`.
fn alnum_run_end(chars: &Vec<Classified>, from: usize, end: usize) -> (q: usize)
    requires
        from <= end <= chars.len(),
    ensures
        from <= q <= end,
        q - from == alnum_run(chars@.subrange(from as int, end as int)),
{
    let mut q = from;
    while q < end && (chars[q].alphabetic || chars[q].numeric)
        invariant
            from <= q <= end <= chars.len(),
            alnum_run(chars@.subrange(from as int, end as int)) == (q - from) + alnum_run(
                chars@.subrange(q as int, end as int),
            ),
        decreases end - q,
    {
        assert(chars@.subrange(q as int, end as int).drop_first() == chars@.subrange(
            q + 1,
            end as int,
        ));
        q = q + 1;
    }
    q
}

/// The end of the rest of a numeral in `chars[from..end]`.
fn numeral_run_end(chars: &Vec<Classified>, from: usize, end: usize) -> (q: usize)
    requires
        from <= end <= chars.len(),
    ensures
        from <= q <= end,
        q - from == numeral_run(chars@.subrange(from as int, end as int), false),
{
    let mut q = from;
    let mut point_used = false;
    while q < end
        invariant
            from <= q <= end <= chars.len(),
            numeral_run(chars@.subrange(from as int, end as int), false) == (q - from)
                + numeral_run(chars@.subrange(q as int, end as int), point_used),
        ensures
            from <= q <= end,
            numeral_run(chars@.subrange(from as int, end as int), false) == q - from,
        decreases end - q,
    {
        let c = chars[q];
        assert(chars@.subrange(q as int, end as int).drop_first() == chars@.subrange(
            q + 1,
            end as int,
        ));
        if !point_used && c.ch == '.' {
            point_used = true;
        } else if !c.numeric {
            assert(numeral_run(chars@.subrange(q as int, end as int), point_used) == 0);
            break ;
        }
        q = q + 1;
    }
    q
}

/// The characters `chars[from..to]` as a string.
fn string_of(chars: &Vec<Classified>, from: usize, to: usize) -> (s: String)
    requires
        from <= to <= chars.len(),
    ensures
        s@ == plain(chars@.subrange(from as int, to as int)),
{
    let mut s = String::new();
    let mut q = from;
    while q < to
        invariant
            from <= q <= to <= chars.len(),
            s@ == plain(chars@.subrange(from as int, q as int)),
        decreases to - q,
    {
        s.push(chars[q].ch);
        assert(plain(chars@.subrange(from as int, q + 1)) == plain(
            chars@.subrange(from as int, q as int),
        ).push(chars@[q as int].ch));
        q = q + 1;
    }
    s
}

/// Whether `chars[from..to]` holds only the digits `0`-`9` and `.`.
fn is_decimal_between(chars: &Vec<Classified>, from: usize, to: usize) -> (b: bool)
    requires
        from <= to <= chars.len(),
    ensures
        b == is_decimal_text(plain(chars@.subrange(from as int, to as int))),
{
    let ghost text = plain(chars@.subrange(from as int, to as int));
    let mut q = from;
    while q < to
        invariant
            from <= q <= to <= chars.len(),
            text == plain(chars@.subrange(from as int, to as int)),
            forall|i: int| 0 <= i < q - from ==> is_ascii_digit(#[trigger] text[i]) || text[i] == '.',
        decreases to - q,
    {
        let c = chars[q].ch;
        assert(text[q - from] == c);
        if !(('0' <= c && c <= '9') || c == '.') {
            return false;
        }
        q = q + 1;
    }
    true
}

/// Reads one token from the front of the word `chars[p..end]`.
fn scan_token_at(chars: &Vec<Classified>, p: usize, end: usize) -> (r: Scanned)
    requires
        p <= end <= chars.len(),
    ensures
        match r {
            Scanned::Tok(t, n) => scan_token(chars@.subrange(p as int, end as int)) == Scan::Token(
                t@,
                n as nat,
            ),
            Scanned::Stop(n, stop) => scan_token(chars@.subrange(p as int, end as int))
                == Scan::Stop(n as nat, stop),
        },
{
    let ghost w = chars@.subrange(p as int, end as int);
    if p == end {
        return Scanned::Stop(0, ScanStop::EndOfWord);
    }
    let c = chars[p];
    assert(w[0] == c);
    assert(w.drop_first() == chars@.subrange(p + 1, end as int));
    if c.alphabetic {
        let q = alnum_run_end(chars, p + 1, end);
        assert(w.take(q - p) == chars@.subrange(p as int, q as int));
        Scanned::Tok(Token::Variable(string_of(chars, p, q)), q - p)
    } else if c.numeric {
        let q = numeral_run_end(chars, p + 1, end);
        assert(w.take(q - p) == chars@.subrange(p as int, q as int));
        if is_decimal_between(chars, p, q) {
            Scanned::Tok(Token::Literal(string_of(chars, p, q)), q - p)
        } else {
            Scanned::Stop(q - p, ScanStop::NotDecimal)
        }
    } else if c.ch == '(' {
        Scanned::Tok(Token::OpenPeren, 1)
    } else if c.ch == ')' {
        Scanned::Tok(Token::ClosePeren, 1)
    } else if c.ch == '+' {
        Scanned::Tok(Token::Op(Operation::Add), 1)
    } else if c.ch == '*' {
        Scanned::Tok(Token::Op(Operation::Mult), 1)
    } else if c.ch == '-' {
        Scanned::Tok(Token::Op(Operation::Neg), 1)
    } else if c.ch == '/' {
        Scanned::Tok(Token::Op(Operation::Div), 1)
    } else if c.ch == '=' {
        Scanned::Tok(Token::Eq, 1)
    } else {
        Scanned::Stop(0, ScanStop::InvalidFirst(c.ch))
    }
}

/// Appends the tokens of the word `chars[start..end]` to `tokens`, and gives the
/// character after the first failed read, if any.
fn scan_word_into(chars: &Vec<Classified>, start: usize, end: usize, tokens: &mut Vec<Token>) -> (r:
    Option<char>)
    requires
        start <= end <= chars.len(),
    ensures
        view_tokens(final(tokens)@) == view_tokens(old(tokens)@) + scan_word(
            chars@.subrange(start as int, end as int),
        ).0,
        r == scan_word(chars@.subrange(start as int, end as int)).1,
{
    let ghost whole = scan_word(chars@.subrange(start as int, end as int));
    let mut p = start;
    let mut invalid: Option<char> = None;
    let mut done = false;
    while !done
        invariant
            start <= p <= end <= chars.len(),
            !done ==> view_tokens(tokens@) + scan_word(chars@.subrange(p as int, end as int)).0
                == view_tokens(old(tokens)@) + whole.0,
            !done ==> scan_word(chars@.subrange(p as int, end as int)).1 == whole.1,
            !done ==> invalid is None,
            done ==> view_tokens(tokens@) == view_tokens(old(tokens)@) + whole.0,
            done ==> invalid == whole.1,
        decreases end - p, if done { 0int } else { 1int },
    {
        let ghost w = chars@.subrange(p as int, end as int);
        proof {
            lemma_scan_token_bound(w);
        }
        match scan_token_at(chars, p, end) {
            Scanned::Tok(t, n) => {
                let ghost before = tokens@;
                assert(w.skip(n as int) == chars@.subrange(p + n, end as int));
                tokens.push(t);
                assert(view_tokens(tokens@) == view_tokens(before).push(t@));
                assert(view_tokens(tokens@) + scan_word(chars@.subrange(p + n, end as int)).0
                    == view_tokens(before) + scan_word(w).0);
                p = p + n;
            },
            Scanned::Stop(n, _) => {
                assert(scan_word(w).0 == Seq::<SpecToken>::empty());
                assert(view_tokens(tokens@) + scan_word(w).0 == view_tokens(tokens@));
                if n < end - p {
                    assert(w[n as int] == chars@[p + n]);
                    assert(scan_word(w).1 == Some(w[n as int].ch));
                    invalid = Some(chars[p + n].ch);
                } else {
                    assert(scan_word(w).1 == None::<char>);
                }
                done = true;
            },
        }
    }
    invalid
}

} // verus!

verus! {

/// The end of the word that starts at `from`: the first whitespace character after
/// it, or the end of the text.
fn word_end(chars: &Vec<Classified>, from: usize) -> (j: usize)
    requires
        from <= chars.len(),
    ensures
        from <= j <= chars.len(),
        j - from == word_len(chars@.subrange(from as int, chars.len() as int)),
{
    let n = chars.len();
    let mut j = from;
    while j < n && !is_whitespace(chars[j].ch)
        invariant
            from <= j <= n == chars.len(),
            word_len(chars@.subrange(from as int, n as int)) == (j - from) + word_len(
                chars@.subrange(j as int, n as int),
            ),
        decreases n - j,
    {
        assert(chars@.subrange(j as int, n as int).drop_first() == chars@.subrange(
            j + 1,
            n as int,
        ));
        j = j + 1;
    }
    j
}

/// Splits classified text into tokens.
///
/// The text is cut into words at whitespace; each word is read token by token from
/// the front. A name is an alphabetic character followed by alphabetic and numeric
/// ones; a number is a numeric character followed by numeric ones and at most one
/// `.`, and is a token only when all its characters are digits `0`-`9` or `.`;
/// `(`, `)`, `+`, `*`, `-`, `/` and `=` are tokens of their own. When a word has a
/// character that cannot start a token, the result is `Err("Invalid char: c")` for
/// the first such character of the text.
pub fn tokanise_classified(chars: &Vec<Classified>) -> (r: Result<Vec<Token>, String>)
    ensures
        view_tokanise_result(r) == spec_tokanise_classified(chars@),
{
    let n = chars.len();
    let mut tokens: Vec<Token> = Vec::new();
    let mut invalid: Option<char> = None;
    let mut i: usize = 0;
    assert(chars@.subrange(0, n as int) == chars@);
    while i < n
        invariant
            n == chars.len(),
            i <= n,
            combine_scans(
                (view_tokens(tokens@), invalid),
                scan_text(chars@.subrange(i as int, n as int)),
            ) == scan_text(chars@),
        decreases n - i,
    {
        let ghost rest = chars@.subrange(i as int, n as int);
        if is_whitespace(chars[i].ch) {
            assert(rest.drop_first() == chars@.subrange(i + 1, n as int));
            i = i + 1;
        } else {
            let j = word_end(chars, i);
            proof {
                lemma_word_len_bound(rest);
            }
            assert(rest.take(j - i) == chars@.subrange(i as int, j as int));
            assert(rest.skip(j - i) == chars@.subrange(j as int, n as int));
            let ghost before = (view_tokens(tokens@), invalid);
            let ghost word = scan_word(chars@.subrange(i as int, j as int));
            let ghost after = scan_text(chars@.subrange(j as int, n as int));
            let inv = scan_word_into(chars, i, j, &mut tokens);
            if invalid.is_none() {
                invalid = inv;
            }
            assert(before.0 + (word.0 + after.0) == (before.0 + word.0) + after.0);
            i = j;
        }
    }
    assert(chars@.subrange(n as int, n as int) == Seq::<Classified>::empty());
    assert(view_tokens(tokens@) + Seq::<SpecToken>::empty() == view_tokens(tokens@));
    match invalid {
        Some(c) => {
            let mut message = String::from_str("Invalid char: ");
            message.push(c);
            assert(message@ == invalid_char_message(c));
            Err(message)
        },
        None => Ok(tokens),
    }
}

/// The characters of the text, each with its classes as std gives them.
pub fn classify_string(string: &str) -> (v: Vec<Classified>)
    ensures
        v@ == classify(string@),
{
    let chars = chars_of(string);
    let mut v: Vec<Classified> = Vec::new();
    for i in 0..chars.len()
        invariant
            chars@ == string@,
            v@ == classify(string@).take(i as int),
    {
        let c = chars[i];
        let ghost before = v@;
        v.push(Classified { ch: c, alphabetic: is_alphabetic(c), numeric: is_numeric(c) });
        assert(c == string@[i as int]);
        assert(v@[i as int] == classify_char(c));
        assert(v@ =~= classify(string@).take(i + 1));
    }
    assert(classify(string@).take(chars.len() as int) =~= classify(string@));
    v
}

/// Splits the text into tokens: [`tokanise_classified`] on its characters, classified
/// by `char::is_alphabetic` and `char::is_numeric`.
pub fn tokanise_string(string: &str) -> (r: Result<Vec<Token>, String>)
    ensures
        view_tokanise_result(r) == spec_tokanise(string@),
{
    let chars = classify_string(string);
    tokanise_classified(&chars)
}

} // verus!

