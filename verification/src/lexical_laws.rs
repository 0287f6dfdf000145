use vstd::prelude::*;

use crate::token::{SpecToken, join_token_texts, token_text};
use crate::tokenize::{
    Classified,
    Scan,
    alnum_run,
    classify,
    classify_char,
    combine_scans,
    is_decimal_text,
    lemma_alnum_run_bound,
    lemma_numeral_run_bound,
    lemma_scan_token_bound,
    lemma_word_len_bound,
    numeral_run,
    plain,
    scan_text,
    scan_token,
    scan_word,
    spec_tokanise,
    spec_tokanise_classified,
    word_len,
};
use crate::unicode::{char_is_alphabetic, char_is_numeric, char_is_whitespace};

verus! {

/// No character of `s` is whitespace.
pub open spec fn no_whitespace(s: Seq<char>) -> bool {
    forall|i: int| 0 <= i < s.len() ==> !char_is_whitespace(#[trigger] s[i])
}

/// A token that reading its own text, alone, gives back: its text is not empty and
/// holds no whitespace; a variable is an alphabetic character followed by a run of
/// alphabetic and numeric ones; a literal starts with a numeric character that is not
/// alphabetic, continues with a numeral run and holds only `0`-`9` and `.`; a symbol
/// is a character that is neither alphabetic nor numeric.
pub open spec fn readable(t: SpecToken) -> bool {
    let w = token_text(t);
    &&& w.len() >= 1
    &&& no_whitespace(w)
    &&& match t {
        SpecToken::Variable(v) => char_is_alphabetic(v[0]) && alnum_run(classify(v).drop_first())
            == v.len() - 1,
        SpecToken::Literal(n) => !char_is_alphabetic(n[0]) && char_is_numeric(n[0])
            && numeral_run(classify(n).drop_first(), false) == n.len() - 1 && is_decimal_text(n),
        _ => !char_is_alphabetic(w[0]) && !char_is_numeric(w[0]),
    }
}

/// Every token of the sequence is readable.
pub open spec fn all_readable(ts: Seq<SpecToken>) -> bool {
    forall|i: int| 0 <= i < ts.len() ==> readable(#[trigger] ts[i])
}

/// Classifying commutes with taking parts of the text.
pub proof fn lemma_classify_parts(u: Seq<char>, k: int)
    requires
        0 <= k <= u.len(),
    ensures
        classify(u).take(k) == classify(u.take(k)),
        classify(u).skip(k) == classify(u.skip(k)),
        plain(classify(u)) == u,
        classify(u).len() == u.len(),
{
    assert(classify(u).take(k) =~= classify(u.take(k)));
    assert(classify(u).skip(k) =~= classify(u.skip(k)));
    assert(plain(classify(u)) =~= u);
}

/// Classifying a concatenation classifies each part.
pub proof fn lemma_classify_concat(a: Seq<char>, b: Seq<char>)
    ensures
        classify(a + b) == classify(a) + classify(b),
{
    assert(classify(a + b) =~= classify(a) + classify(b));
}

proof fn lemma_combine_empty(r: (Seq<SpecToken>, Option<char>))
    ensures
        combine_scans((Seq::empty(), None), r) == r,
        combine_scans(r, (Seq::empty(), None)) == r,
{
    assert(Seq::<SpecToken>::empty() + r.0 == r.0);
    assert(r.0 + Seq::<SpecToken>::empty() == r.0);
}

proof fn lemma_combine_assoc(
    a: (Seq<SpecToken>, Option<char>),
    b: (Seq<SpecToken>, Option<char>),
    c: (Seq<SpecToken>, Option<char>),
)
    ensures
        combine_scans(a, combine_scans(b, c)) == combine_scans(combine_scans(a, b), c),
{
    assert(a.0 + (b.0 + c.0) == (a.0 + b.0) + c.0);
}

proof fn lemma_alnum_run_all(u: Seq<Classified>)
    ensures
        alnum_run(u.take(alnum_run(u) as int)) == alnum_run(u),
    decreases u.len(),
{
    lemma_alnum_run_bound(u);
    if alnum_run(u) > 0 {
        lemma_alnum_run_all(u.drop_first());
        assert(u.take(alnum_run(u) as int).drop_first() == u.drop_first().take(
            alnum_run(u.drop_first()) as int,
        ));
    }
}

proof fn lemma_numeral_run_all(u: Seq<Classified>, point_used: bool)
    ensures
        numeral_run(u.take(numeral_run(u, point_used) as int), point_used) == numeral_run(
            u,
            point_used,
        ),
    decreases u.len(),
{
    lemma_numeral_run_bound(u, point_used);
    if numeral_run(u, point_used) > 0 {
        let n = numeral_run(u, point_used);
        if !point_used && u[0].ch == '.' {
            lemma_numeral_run_all(u.drop_first(), true);
            assert(u.take(n as int).drop_first() == u.drop_first().take(
                numeral_run(u.drop_first(), true) as int,
            ));
        } else {
            lemma_numeral_run_all(u.drop_first(), point_used);
            assert(u.take(n as int).drop_first() == u.drop_first().take(
                numeral_run(u.drop_first(), point_used) as int,
            ));
        }
    }
}

/// A token read from a word without whitespace is readable, and its text is what
/// the read took.
proof fn lemma_scanned_token_readable(u: Seq<char>)
    requires
        no_whitespace(u),
    ensures
        scan_token(classify(u)) matches Scan::Token(t, n) ==> readable(t) && token_text(t)
            == u.take(n as int),
{
    let w = classify(u);
    lemma_scan_token_bound(w);
    if let Scan::Token(t, n) = scan_token(w) {
        lemma_classify_parts(u, n as int);
        lemma_classify_parts(u.take(n as int), 1);
        let v = u.take(n as int);
        assert(plain(w.take(n as int)) == v);
        assert(v[0] == u[0]);
        assert(no_whitespace(v)) by {
            assert forall|i: int| 0 <= i < v.len() implies !char_is_whitespace(
                #[trigger] v[i],
            ) by {
                assert(v[i] == u[i]);
            }
        }
        assert(classify(v).drop_first() == classify(v).skip(1));
        assert(w.take(n as int).drop_first() == w.drop_first().take(n - 1));
        if w[0].alphabetic {
            lemma_alnum_run_all(w.drop_first());
        } else if w[0].numeric {
            lemma_numeral_run_all(w.drop_first(), false);
        } else {
            assert(v == seq![u[0]]);
        }
    }
}

/// The tokens read from a word without whitespace are readable.
proof fn lemma_scanned_word_readable(u: Seq<char>)
    requires
        no_whitespace(u),
    ensures
        all_readable(scan_word(classify(u)).0),
    decreases u.len(),
{
    let w = classify(u);
    lemma_scan_token_bound(w);
    lemma_scanned_token_readable(u);
    if let Scan::Token(t, n) = scan_token(w) {
        lemma_classify_parts(u, n as int);
        let rest = u.skip(n as int);
        assert(no_whitespace(rest)) by {
            assert forall|i: int| 0 <= i < rest.len() implies !char_is_whitespace(
                #[trigger] rest[i],
            ) by {
                assert(rest[i] == u[i + n]);
            }
        }
        lemma_scanned_word_readable(rest);
        let ts = scan_word(w).0;
        assert forall|i: int| 0 <= i < ts.len() implies readable(#[trigger] ts[i]) by {
            if i > 0 {
                assert(ts[i] == scan_word(classify(rest)).0[i - 1]);
            }
        }
    }
}

proof fn lemma_word_no_whitespace(s: Seq<Classified>)
    ensures
        no_whitespace(plain(s.take(word_len(s) as int))),
    decreases s.len(),
{
    lemma_word_len_bound(s);
    if word_len(s) > 0 {
        lemma_word_no_whitespace(s.drop_first());
        let w = plain(s.take(word_len(s) as int));
        assert forall|i: int| 0 <= i < w.len() implies !char_is_whitespace(#[trigger] w[i]) by {
            if i > 0 {
                assert(w[i] == plain(s.drop_first().take(word_len(s.drop_first()) as int))[i
                    - 1]);
            }
        }
    }
}

/// Every token that tokenising a text gives is readable.
pub proof fn law_tokens_readable(s: Seq<char>)
    ensures
        all_readable(scan_text(classify(s)).0),
        spec_tokanise(s) matches Ok(ts) ==> all_readable(ts),
    decreases s.len(),
{
    if s.len() > 0 {
        lemma_classify_parts(s, 1);
        assert(classify(s).drop_first() == classify(s).skip(1));
        if char_is_whitespace(s[0]) {
            law_tokens_readable(s.drop_first());
            assert(s.drop_first() == s.skip(1));
        } else {
            let cs = classify(s);
            lemma_word_len_bound(cs);
            let k = word_len(cs);
            lemma_classify_parts(s, k as int);
            lemma_word_no_whitespace(cs);
            assert(plain(cs.take(k as int)) == s.take(k as int)) by {
                lemma_classify_parts(s.take(k as int), 0);
            }
            lemma_scanned_word_readable(s.take(k as int));
            law_tokens_readable(s.skip(k as int));
            let a = scan_word(cs.take(k as int)).0;
            let b = scan_text(cs.skip(k as int)).0;
            assert forall|i: int| 0 <= i < a.len() + b.len() implies readable(
                #[trigger] (a + b)[i],
            ) by {
                if i < a.len() {
                    assert((a + b)[i] == a[i]);
                } else {
                    assert((a + b)[i] == b[i - a.len()]);
                }
            }
        }
    }
}


proof fn lemma_word_len_stops(x: Seq<Classified>, c: Classified, y: Seq<Classified>)
    requires
        char_is_whitespace(c.ch),
    ensures
        word_len(x + seq![c] + y) == word_len(x),
        word_len(x) <= x.len(),
    decreases x.len(),
{
    lemma_word_len_bound(x);
    let whole = x + seq![c] + y;
    if x.len() == 0 {
        assert(whole[0] == c);
    } else {
        assert(whole[0] == x[0]);
        if !char_is_whitespace(x[0].ch) {
            lemma_word_len_stops(x.drop_first(), c, y);
            assert(whole.drop_first() == x.drop_first() + seq![c] + y);
        }
    }
}

/// Tokenising two classified texts joined by a whitespace character gives the tokens
/// of the first followed by those of the second, and the first invalid character of
/// the first text, or else of the second.
pub proof fn law_scan_text_split(x: Seq<Classified>, c: Classified, y: Seq<Classified>)
    requires
        char_is_whitespace(c.ch),
    ensures
        scan_text(x + seq![c] + y) == combine_scans(scan_text(x), scan_text(y)),
    decreases x.len(),
{
    let whole = x + seq![c] + y;
    if x.len() == 0 {
        assert(whole[0] == c);
        assert(whole.drop_first() == y);
        lemma_combine_empty(scan_text(y));
    } else if char_is_whitespace(x[0].ch) {
        assert(whole[0] == x[0]);
        assert(whole.drop_first() == x.drop_first() + seq![c] + y);
        law_scan_text_split(x.drop_first(), c, y);
    } else {
        assert(whole[0] == x[0]);
        lemma_word_len_stops(x, c, y);
        let k = word_len(x);
        assert(whole.take(k as int) == x.take(k as int));
        assert(whole.skip(k as int) == x.skip(k as int) + seq![c] + y);
        law_scan_text_split(x.skip(k as int), c, y);
        lemma_combine_assoc(
            scan_word(x.take(k as int)),
            scan_text(x.skip(k as int)),
            scan_text(y),
        );
    }
}

/// What tokenising two texts one after the other gives: the tokens of both if both
/// tokenise, else the first one's error.
pub open spec fn merge_tokanised(
    a: Result<Seq<SpecToken>, Seq<char>>,
    b: Result<Seq<SpecToken>, Seq<char>>,
) -> Result<Seq<SpecToken>, Seq<char>> {
    match (a, b) {
        (Ok(x), Ok(y)) => Ok(x + y),
        (Err(e), _) => Err(e),
        (Ok(_), Err(e)) => Err(e),
    }
}

/// Tokenising two texts joined by a whitespace character: the tokens of both if both
/// tokenise, else the first one's error.
pub proof fn law_tokanise_split(x: Seq<char>, c: char, y: Seq<char>)
    requires
        char_is_whitespace(c),
    ensures
        spec_tokanise(x + seq![c] + y) == merge_tokanised(spec_tokanise(x), spec_tokanise(y)),
{
    lemma_classify_concat(x + seq![c], y);
    lemma_classify_concat(x, seq![c]);
    assert(classify(seq![c]) == seq![classify_char(c)]);
    law_scan_text_split(classify(x), classify_char(c), classify(y));
}

proof fn lemma_word_len_full(w: Seq<Classified>)
    requires
        no_whitespace(plain(w)),
    ensures
        word_len(w) == w.len(),
    decreases w.len(),
{
    if w.len() > 0 {
        assert(plain(w)[0] == w[0].ch);
        assert(no_whitespace(plain(w.drop_first()))) by {
            assert forall|i: int| 0 <= i < w.drop_first().len() implies !char_is_whitespace(
                #[trigger] plain(w.drop_first())[i],
            ) by {
                assert(plain(w.drop_first())[i] == plain(w)[i + 1]);
            }
        }
        lemma_word_len_full(w.drop_first());
    }
}

/// Reading a readable token's text gives the token back.
pub proof fn lemma_readable_scan(t: SpecToken)
    requires
        readable(t),
    ensures
        scan_token(classify(token_text(t))) == Scan::Token(t, token_text(t).len()),
        scan_text(classify(token_text(t))) == (seq![t], None::<char>),
        spec_tokanise(token_text(t)) == Ok::<Seq<SpecToken>, Seq<char>>(seq![t]),
{
    let w = token_text(t);
    let cw = classify(w);
    lemma_classify_parts(w, w.len() as int);
    assert(cw.take(w.len() as int) == cw);
    assert(cw[0] == classify_char(w[0]));
    assert(scan_token(cw) == Scan::Token(t, w.len()));
    lemma_word_len_full(cw);
    assert(cw.skip(w.len() as int) == Seq::<Classified>::empty());
    let empty = Seq::<Classified>::empty();
    assert(scan_word(empty) == (Seq::<SpecToken>::empty(), None::<char>));
    assert(scan_word(cw) == (seq![t], None::<char>)) by {
        assert(seq![t] + Seq::<SpecToken>::empty() == seq![t]);
    }
    assert(scan_text(empty) == (Seq::<SpecToken>::empty(), None::<char>));
    lemma_combine_empty((seq![t], None::<char>));
}

/// Writing readable tokens out separated by spaces and reading the text back gives
/// the same tokens.
pub proof fn law_tokens_round_trip(ts: Seq<SpecToken>)
    requires
        all_readable(ts),
    ensures
        spec_tokanise(join_token_texts(ts)) == Ok::<Seq<SpecToken>, Seq<char>>(ts),
    decreases ts.len(),
{
    if ts.len() == 0 {
        assert(classify(Seq::<char>::empty()) == Seq::<Classified>::empty());
        assert(ts == Seq::<SpecToken>::empty());
    } else if ts.len() == 1 {
        assert(ts == seq![ts[0]]);
        lemma_readable_scan(ts[0]);
    } else {
        let init = ts.drop_last();
        assert(all_readable(init)) by {
            assert forall|i: int| 0 <= i < init.len() implies readable(#[trigger] init[i]) by {
                assert(init[i] == ts[i]);
            }
        }
        law_tokens_round_trip(init);
        assert(readable(ts[ts.len() - 1]));
        lemma_readable_scan(ts.last());
        law_tokanise_split(join_token_texts(init), ' ', token_text(ts.last()));
        assert(init + seq![ts.last()] == ts);
    }
}

/// Writing out the tokens of any text that tokenises, and tokenising that again, gives
/// the same tokens.
pub proof fn law_tokanise_round_trip(s: Seq<char>)
    requires
        spec_tokanise(s) is Ok,
    ensures
        spec_tokanise(join_token_texts(spec_tokanise(s)->Ok_0)) == spec_tokanise(s),
{
    law_tokens_readable(s);
    law_tokens_round_trip(spec_tokanise(s)->Ok_0);
}


/// The whitespace-separated words of `s`, in order (as `str::split_whitespace`
/// gives them).
pub open spec fn words(s: Seq<char>) -> Seq<Seq<char>>
    decreases s.len(),
{
    if s.len() == 0 {
        Seq::empty()
    } else if char_is_whitespace(s[0]) {
        words(s.drop_first())
    } else {
        proof {
            lemma_classify_parts(s, 0);
            lemma_word_len_bound(classify(s));
        }
        let k = word_len(classify(s));
        seq![s.take(k as int)] + words(s.skip(k as int))
    }
}

/// Tokenising the words one after the other: the tokens of all of them if each
/// tokenises, else the error of the first that does not.
pub open spec fn tokanise_words(ws: Seq<Seq<char>>) -> Result<Seq<SpecToken>, Seq<char>>
    decreases ws.len(),
{
    if ws.len() == 0 {
        Ok(Seq::empty())
    } else {
        merge_tokanised(spec_tokanise(ws[0]), tokanise_words(ws.drop_first()))
    }
}

/// The tokeniser's result for what reading a classified text gave.
pub open spec fn scan_result(r: (Seq<SpecToken>, Option<char>)) -> Result<
    Seq<SpecToken>,
    Seq<char>,
> {
    match r.1 {
        Some(c) => Err(crate::tokenize::invalid_char_message(c)),
        None => Ok(r.0),
    }
}

proof fn lemma_scan_result_merge(a: (Seq<SpecToken>, Option<char>), b: (Seq<SpecToken>, Option<char>))
    ensures
        scan_result(combine_scans(a, b)) == merge_tokanised(scan_result(a), scan_result(b)),
{
}

/// Tokenising a text is tokenising each of its whitespace-separated words, one after
/// the other: the tokens of all the words if each tokenises, else the error of the
/// first word that does not (no tokens for a blank text).
pub proof fn law_tokanise_words(s: Seq<char>)
    ensures
        spec_tokanise(s) == tokanise_words(words(s)),
    decreases s.len(),
{
    let cs = classify(s);
    lemma_classify_parts(s, 0);
    assert(spec_tokanise(s) == scan_result(scan_text(cs)));
    if s.len() == 0 {
        assert(cs == Seq::<Classified>::empty());
    } else if char_is_whitespace(s[0]) {
        lemma_classify_parts(s, 1);
        assert(cs.drop_first() == cs.skip(1));
        assert(s.drop_first() == s.skip(1));
        law_tokanise_words(s.drop_first());
    } else {
        lemma_word_len_bound(cs);
        let k = word_len(cs);
        lemma_classify_parts(s, k as int);
        let word = s.take(k as int);
        let rest = s.skip(k as int);
        law_tokanise_words(rest);
        lemma_word_no_whitespace(cs);
        let cw = classify(word);
        lemma_classify_parts(word, 0);
        lemma_word_len_full(cw);
        assert(cw.take(k as int) == cw);
        assert(cw.skip(k as int) == Seq::<Classified>::empty());
        assert(scan_text(Seq::<Classified>::empty()) == (Seq::<SpecToken>::empty(), None::<char>));
        lemma_combine_empty(scan_word(cw));
        assert(scan_text(cw) == scan_word(cw));
        lemma_scan_result_merge(scan_word(cw), scan_text(classify(rest)));
        let ws = words(s);
        assert(ws[0] == word);
        assert(ws.drop_first() == words(rest));
    }
}


/// At most one character of `s` is a decimal point.
pub open spec fn at_most_one_point(s: Seq<char>) -> bool {
    forall|i: int, j: int| 0 <= i < j < s.len() ==> !(#[trigger] s[i] == '.' && #[trigger] s[j] == '.')
}

proof fn lemma_numeral_run_points(u: Seq<char>, point_used: bool)
    requires
        numeral_run(classify(u), point_used) == u.len(),
    ensures
        at_most_one_point(u),
        point_used ==> forall|i: int| 0 <= i < u.len() ==> #[trigger] u[i] != '.',
    decreases u.len(),
{
    if u.len() > 0 {
        let rest = u.drop_first();
        lemma_classify_parts(u, 1);
        assert(classify(u).drop_first() == classify(rest)) by {
            assert(classify(u).drop_first() == classify(u).skip(1));
            assert(rest == u.skip(1));
        }
        assert(classify(u)[0] == classify_char(u[0]));
        lemma_numeral_run_bound(classify(rest), true);
        lemma_numeral_run_bound(classify(rest), point_used);
        lemma_classify_parts(rest, 0);
        if !point_used && u[0] == '.' {
            lemma_numeral_run_points(rest, true);
            assert forall|i: int, j: int| 0 <= i < j < u.len() implies !(#[trigger] u[i] == '.'
                && #[trigger] u[j] == '.') by {
                assert(u[j] == rest[j - 1]);
            }
        } else {
            lemma_numeral_run_points(rest, point_used);
            assert forall|i: int, j: int| 0 <= i < j < u.len() implies !(#[trigger] u[i] == '.'
                && #[trigger] u[j] == '.') by {
                assert(u[j] == rest[j - 1]);
                if i > 0 {
                    assert(u[i] == rest[i - 1]);
                }
            }
            if point_used {
                assert forall|i: int| 0 <= i < u.len() implies #[trigger] u[i] != '.' by {
                    if i > 0 {
                        assert(u[i] == rest[i - 1]);
                    }
                }
            }
        }
    }
}

/// Literal numbers may end with a decimal point ("1.") but not start with one
/// (".1"): every literal of a tokenised text starts with a digit `0`-`9`, holds only
/// digits and `.`, and at most one `.`.
pub proof fn law_literal_shape(s: Seq<char>)
    requires
        spec_tokanise(s) is Ok,
    ensures
        forall|i: int|
            0 <= i < spec_tokanise(s)->Ok_0.len() ==> (#[trigger] spec_tokanise(s)->Ok_0[i] matches SpecToken::Literal(n) ==> {
                &&& n.len() >= 1
                &&& '0' <= n[0] <= '9'
                &&& is_decimal_text(n)
                &&& at_most_one_point(n)
            }),
{
    let ts = spec_tokanise(s)->Ok_0;
    law_tokens_readable(s);
    assert forall|i: int| 0 <= i < ts.len() implies (#[trigger] ts[i] matches SpecToken::Literal(n) ==> {
        &&& n.len() >= 1
        &&& '0' <= n[0] <= '9'
        &&& is_decimal_text(n)
        &&& at_most_one_point(n)
    }) by {
        assert(readable(ts[i]));
        if let SpecToken::Literal(n) = ts[i] {
            let rest = n.drop_first();
            lemma_classify_parts(n, 1);
            assert(classify(n).drop_first() == classify(rest)) by {
                assert(classify(n).drop_first() == classify(n).skip(1));
                assert(rest == n.skip(1));
            }
            lemma_classify_parts(rest, 0);
            lemma_numeral_run_points(rest, false);
            assert(crate::tokenize::is_ascii_digit(n[0]) || n[0] == '.');
            assert forall|a: int, b: int| 0 <= a < b < n.len() implies !(#[trigger] n[a] == '.'
                && #[trigger] n[b] == '.') by {
                assert(n[b] == rest[b - 1]);
                if a > 0 {
                    assert(n[a] == rest[a - 1]);
                }
            }
        }
    }
}


/// A numeral written with the digits `0`-`9` and at most one `.`, starting with a
/// digit.
pub open spec fn is_digit_numeral(n: Seq<char>) -> bool {
    &&& n.len() >= 1
    &&& '0' <= n[0] <= '9'
    &&& forall|i: int| 0 <= i < n.len() ==> ('0' <= #[trigger] n[i] <= '9') || n[i] == '.'
    &&& forall|i: int, j: int|
        0 <= i < j < n.len() ==> !(#[trigger] n[i] == '.' && #[trigger] n[j] == '.')
}

proof fn lemma_digit_run(u: Seq<char>, point_used: bool)
    requires
        forall|i: int| 0 <= i < u.len() ==> ('0' <= #[trigger] u[i] <= '9') || u[i] == '.',
        forall|i: int, j: int|
            0 <= i < j < u.len() ==> !(#[trigger] u[i] == '.' && #[trigger] u[j] == '.'),
        point_used ==> forall|i: int| 0 <= i < u.len() ==> #[trigger] u[i] != '.',
    ensures
        numeral_run(classify(u), point_used) == u.len(),
    decreases u.len(),
{
    if u.len() > 0 {
        let rest = u.drop_first();
        lemma_classify_parts(u, 1);
        assert(classify(u).drop_first() == classify(rest)) by {
            assert(classify(u).drop_first() == classify(u).skip(1));
            assert(rest == u.skip(1));
        }
        assert(classify(u)[0] == classify_char(u[0]));
        assert forall|i: int| 0 <= i < rest.len() implies ('0' <= #[trigger] rest[i] <= '9')
            || rest[i] == '.' by {
            assert(rest[i] == u[i + 1]);
        }
        assert forall|i: int, j: int| 0 <= i < j < rest.len() implies !(#[trigger] rest[i] == '.'
            && #[trigger] rest[j] == '.') by {
            assert(rest[i] == u[i + 1] && rest[j] == u[j + 1]);
        }
        if !point_used && u[0] == '.' {
            assert forall|i: int| 0 <= i < rest.len() implies #[trigger] rest[i] != '.' by {
                assert(rest[i] == u[i + 1]);
            }
            lemma_digit_run(rest, true);
        } else {
            if point_used {
                assert forall|i: int| 0 <= i < rest.len() implies #[trigger] rest[i] != '.' by {
                    assert(rest[i] == u[i + 1]);
                }
            }
            assert(u[0] != '.');
            lemma_digit_run(rest, point_used);
        }
    }
}

/// Every numeral written with the digits `0`-`9` and at most one `.`, starting with a
/// digit, tokenises to itself: a single literal token holding exactly that text.
pub proof fn law_digit_numeral_tokenises(n: Seq<char>)
    requires
        is_digit_numeral(n),
    ensures
        spec_tokanise(n) == Ok::<Seq<SpecToken>, Seq<char>>(seq![SpecToken::Literal(n)]),
{
    let rest = n.drop_first();
    lemma_classify_parts(n, 1);
    assert(classify(n).drop_first() == classify(rest)) by {
        assert(classify(n).drop_first() == classify(n).skip(1));
        assert(rest == n.skip(1));
    }
    assert forall|i: int| 0 <= i < rest.len() implies ('0' <= #[trigger] rest[i] <= '9')
        || rest[i] == '.' by {
        assert(rest[i] == n[i + 1]);
    }
    assert forall|i: int, j: int| 0 <= i < j < rest.len() implies !(#[trigger] rest[i] == '.'
        && #[trigger] rest[j] == '.') by {
        assert(rest[i] == n[i + 1] && rest[j] == n[j + 1]);
    }
    lemma_digit_run(rest, false);
    assert(no_whitespace(n)) by {
        assert forall|i: int| 0 <= i < n.len() implies !char_is_whitespace(#[trigger] n[i]) by {
            assert(('0' <= n[i] <= '9') || n[i] == '.');
        }
    }
    assert(is_decimal_text(n)) by {
        assert forall|i: int| 0 <= i < n.len() implies crate::tokenize::is_ascii_digit(
            #[trigger] n[i],
        ) || n[i] == '.' by {
            assert(('0' <= n[i] <= '9') || n[i] == '.');
        }
    }
    assert(readable(SpecToken::Literal(n)));
    lemma_readable_scan(SpecToken::Literal(n));
}

proof fn lemma_alnum_run_maximal(w: Seq<Classified>)
    ensures
        alnum_run(w) <= w.len(),
        forall|i: int| 0 <= i < alnum_run(w) ==> (#[trigger] w[i]).alphabetic || w[i].numeric,
        alnum_run(w) < w.len() ==> !w[alnum_run(w) as int].alphabetic && !w[alnum_run(
            w,
        ) as int].numeric,
    decreases w.len(),
{
    if w.len() > 0 && (w[0].alphabetic || w[0].numeric) {
        let rest = w.drop_first();
        lemma_alnum_run_maximal(rest);
        assert forall|i: int| 0 <= i < alnum_run(w) implies (#[trigger] w[i]).alphabetic
            || w[i].numeric by {
            if i > 0 {
                assert(w[i] == rest[i - 1]);
            }
        }
        if alnum_run(w) < w.len() {
            assert(w[alnum_run(w) as int] == rest[alnum_run(rest) as int]);
        }
    }
}

/// A variable read from the front of a text is its first character, which is
/// alphabetic, and every alphabetic or numeric character after it: the text goes on,
/// if at all, with a character that is neither alphabetic nor numeric.
pub proof fn law_variable_is_maximal(u: Seq<char>)
    ensures
        scan_token(classify(u)) matches Scan::Token(SpecToken::Variable(v), n) ==> {
            &&& 1 <= n <= u.len()
            &&& v == u.take(n as int)
            &&& char_is_alphabetic(u[0])
            &&& forall|i: int|
                1 <= i < n ==> char_is_alphabetic(#[trigger] u[i]) || char_is_numeric(u[i])
            &&& n < u.len() ==> !char_is_alphabetic(u[n as int]) && !char_is_numeric(
                u[n as int],
            )
        },
{
    let w = classify(u);
    lemma_classify_parts(u, 0);
    lemma_scan_token_bound(w);
    if let Scan::Token(SpecToken::Variable(v), n) = scan_token(w) {
        if u.len() > 0 && w[0].alphabetic {
            let rest = w.drop_first();
            lemma_alnum_run_maximal(rest);
            lemma_classify_parts(u, n as int);
            assert(plain(w.take(n as int)) == u.take(n as int)) by {
                lemma_classify_parts(u.take(n as int), 0);
            }
            assert forall|i: int| 1 <= i < n implies char_is_alphabetic(#[trigger] u[i])
                || char_is_numeric(u[i]) by {
                assert(rest[i - 1] == w[i]);
                assert(w[i] == classify_char(u[i]));
            }
            if n < u.len() {
                assert(rest[n - 1] == w[n as int]);
                assert(w[n as int] == classify_char(u[n as int]));
            }
        }
    }
}


/// The texts of the tokens written one after the other, with nothing between them.
pub open spec fn spelled_tokens(ts: Seq<SpecToken>) -> Seq<char>
    decreases ts.len(),
{
    if ts.len() == 0 {
        Seq::empty()
    } else {
        token_text(ts[0]) + spelled_tokens(ts.drop_first())
    }
}

/// The tokens read from a word spell the word from its start: their texts, one after
/// the other, are the word up to where reading stopped.
pub proof fn law_word_tokens_spell_the_word(u: Seq<char>)
    requires
        no_whitespace(u),
    ensures
        exists|k: int|
            0 <= k <= u.len() && #[trigger] spelled_tokens(scan_word(classify(u)).0) == u.take(k),
    decreases u.len(),
{
    let w = classify(u);
    lemma_scan_token_bound(w);
    lemma_scanned_token_readable(u);
    match scan_token(w) {
        Scan::Token(t, n) => {
            lemma_classify_parts(u, n as int);
            let rest = u.skip(n as int);
            assert(no_whitespace(rest)) by {
                assert forall|i: int| 0 <= i < rest.len() implies !char_is_whitespace(
                    #[trigger] rest[i],
                ) by {
                    assert(rest[i] == u[i + n]);
                }
            }
            law_word_tokens_spell_the_word(rest);
            let ts = scan_word(w).0;
            let k2 = choose|k: int|
                0 <= k <= rest.len() && #[trigger] spelled_tokens(scan_word(classify(rest)).0)
                    == rest.take(k);
            assert(ts[0] == t);
            assert(ts.drop_first() == scan_word(classify(rest)).0);
            assert(spelled_tokens(ts) == u.take(n as int) + rest.take(k2));
            assert(u.take(n as int) + rest.take(k2) == u.take(n + k2));
        },
        Scan::Stop(_, _) => {
            assert(scan_word(w).0 == Seq::<SpecToken>::empty());
            assert(spelled_tokens(scan_word(w).0) == u.take(0));
        },
    }
}

} // verus!
