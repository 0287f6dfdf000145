use vstd::prelude::*;

use crate::implicit::{ends_operand, starts_operand, with_implicit_mult};
use crate::lexical_laws::{
    all_readable,
    law_tokens_readable,
    law_tokens_round_trip,
    merge_tokanised,
    law_tokanise_split,
    lemma_readable_scan,
    readable,
};
use crate::syntax::{
    opening_from_end,
    Outcome,
    SpecParseError,
    SpecTree,
    last_separator,
    lemma_last_separator,
    level_op,
    never_unbalanced,
    paren_balance,
    parse_level,
    spec_parse,
    with_depths,
};
use crate::token::{Operation, SpecToken, join_token_texts, token_text};
use crate::tokenize::spec_tokanise;

verus! {

/// No two neighbouring tokens are an operand's end followed by an operand's start.
pub open spec fn no_implicit_mult(ts: Seq<SpecToken>) -> bool {
    forall|i: int|
        0 <= i < ts.len() - 1 ==> !(ends_operand(#[trigger] ts[i]) && starts_operand(ts[i + 1]))
}

proof fn lemma_implicit_mult_ends(ts: Seq<SpecToken>)
    ensures
        with_implicit_mult(ts).len() >= ts.len(),
        ts.len() > 0 ==> with_implicit_mult(ts).last() == ts.last(),
    decreases ts.len(),
{
    if ts.len() >= 2 {
        lemma_implicit_mult_ends(ts.drop_last());
    }
}

/// After implicit multiplications are made explicit, no two neighbouring tokens are an
/// operand's end followed by an operand's start.
pub proof fn law_implicit_mult_complete(ts: Seq<SpecToken>)
    ensures
        no_implicit_mult(with_implicit_mult(ts)),
    decreases ts.len(),
{
    if ts.len() >= 2 {
        let init = ts.drop_last();
        law_implicit_mult_complete(init);
        lemma_implicit_mult_ends(init);
        let prev = with_implicit_mult(init);
        let r = with_implicit_mult(ts);
        assert(init.last() == ts[ts.len() - 2]);
        if ends_operand(ts[ts.len() - 2]) && starts_operand(ts.last()) {
            assert forall|i: int|
                0 <= i < r.len() - 1 implies !(ends_operand(#[trigger] r[i]) && starts_operand(
                r[i + 1],
            )) by {
                if i < prev.len() - 1 {
                    assert(r[i] == prev[i] && r[i + 1] == prev[i + 1]);
                }
            }
        } else {
            assert forall|i: int|
                0 <= i < r.len() - 1 implies !(ends_operand(#[trigger] r[i]) && starts_operand(
                r[i + 1],
            )) by {
                if i < prev.len() - 1 {
                    assert(r[i] == prev[i] && r[i + 1] == prev[i + 1]);
                }
            }
        }
    }
}

/// Tokens with no implicit multiplication left are unchanged by making implicit
/// multiplications explicit.
pub proof fn law_implicit_mult_fixed_point(ts: Seq<SpecToken>)
    requires
        no_implicit_mult(ts),
    ensures
        with_implicit_mult(ts) == ts,
    decreases ts.len(),
{
    if ts.len() >= 2 {
        let init = ts.drop_last();
        assert(no_implicit_mult(init)) by {
            assert forall|i: int| 0 <= i < init.len() - 1 implies !(ends_operand(
                #[trigger] init[i],
            ) && starts_operand(init[i + 1])) by {
                assert(init[i] == ts[i] && init[i + 1] == ts[i + 1]);
            }
        }
        law_implicit_mult_fixed_point(init);
        assert(!(ends_operand(ts[ts.len() - 2]) && starts_operand(ts[ts.len() - 1])));
        assert(init.push(ts.last()) == ts);
    }
}

/// Making implicit multiplications explicit a second time changes nothing.
pub proof fn law_implicit_mult_idempotent(ts: Seq<SpecToken>)
    ensures
        with_implicit_mult(with_implicit_mult(ts)) == with_implicit_mult(ts),
{
    law_implicit_mult_complete(ts);
    law_implicit_mult_fixed_point(with_implicit_mult(ts));
}


/// Whether the tree has an equation node anywhere.
pub open spec fn has_equation(t: SpecTree) -> bool
    decreases t,
{
    match t {
        SpecTree::Var(_) => false,
        SpecTree::Num(_) => false,
        SpecTree::Op(_, l, r) => has_equation(*l) || has_equation(*r),
        SpecTree::Eq(_, _) => true,
    }
}

/// Reading tokens never builds an equation node: `=` is not an operator of the
/// reader.
pub proof fn law_parse_level_no_equation(ts: Seq<(SpecToken, int)>, d: int, level: nat)
    ensures
        parse_level(ts, d, level) matches Outcome::Tree(t) ==> !has_equation(t),
    decreases ts.len(), 4 - level,
{
    if level >= 4 {
        if ts.len() >= 2 {
            law_parse_level_no_equation(ts.subrange(1, ts.len() - 1), d + 1, 0);
        }
    } else {
        let op = level_op(level);
        lemma_last_separator(ts, op, d);
        match last_separator(ts, op, d) {
            None => law_parse_level_no_equation(ts, d, level + 1),
            Some(k) => {
                law_parse_level_no_equation(ts.take(k), d, level);
                law_parse_level_no_equation(ts.skip(k + 1), d, level + 1);
            },
        }
    }
}

/// A parsed text never holds an equation node.
pub proof fn law_parse_no_equation(s: Seq<char>)
    ensures
        spec_parse(s) matches Outcome::Tree(t) ==> !has_equation(t),
{
    if let Ok(ts) = spec_tokanise(s) {
        law_parse_level_no_equation(
            with_depths(with_implicit_mult(ts)),
            0,
            0,
        );
    }
}


proof fn lemma_implicit_mult_readable(ts: Seq<SpecToken>)
    requires
        all_readable(ts),
        readable(SpecToken::Op(Operation::Mult)),
    ensures
        all_readable(with_implicit_mult(ts)),
    decreases ts.len(),
{
    if ts.len() >= 2 {
        let init = ts.drop_last();
        assert(all_readable(init)) by {
            assert forall|i: int| 0 <= i < init.len() implies readable(#[trigger] init[i]) by {
                assert(init[i] == ts[i]);
            }
        }
        lemma_implicit_mult_readable(init);
        let prev = with_implicit_mult(init);
        let r = with_implicit_mult(ts);
        assert(readable(ts[ts.len() - 1]));
        assert forall|i: int| 0 <= i < r.len() implies readable(#[trigger] r[i]) by {
            if i < prev.len() {
                assert(r[i] == prev[i]);
            }
        }
    }
}

/// Writing a text's implicit multiplications out as `*` does not change what it
/// parses to: the text's tokens, with every implicit multiplication made explicit and
/// written out separated by spaces, parse as the text does.
pub proof fn law_explicit_mult_same_parse(s: Seq<char>)
    requires
        spec_tokanise(s) is Ok,
    ensures
        spec_parse(join_token_texts(with_implicit_mult(spec_tokanise(s)->Ok_0))) == spec_parse(s),
{
    let ts = spec_tokanise(s)->Ok_0;
    law_tokens_readable(s);
    assert(readable(SpecToken::Op(Operation::Mult))) by {
        assert(token_text(SpecToken::Op(Operation::Mult)) == seq!['*']);
    }
    lemma_implicit_mult_readable(ts);
    law_tokens_round_trip(with_implicit_mult(ts));
    law_implicit_mult_idempotent(ts);
}


/// The tokens with their depths raised by `k`.
pub open spec fn shift_depths(xs: Seq<(SpecToken, int)>, k: int) -> Seq<(SpecToken, int)> {
    xs.map_values(|p: (SpecToken, int)| (p.0, p.1 + k))
}

/// An outcome with the depths named in a depth error raised by one.
pub open spec fn shift_outcome(o: Outcome) -> Outcome {
    match o {
        Outcome::Failed(SpecParseError::Depth { expected, found, token }) => Outcome::Failed(
            SpecParseError::Depth { expected: expected + 1, found: found + 1, token },
        ),
        other => other,
    }
}

proof fn lemma_shift_parts(xs: Seq<(SpecToken, int)>, a: int, b: int)
    requires
        0 <= a <= b <= xs.len(),
    ensures
        shift_depths(xs, 1).subrange(a, b) == shift_depths(xs.subrange(a, b), 1),
        shift_depths(xs, 1).len() == xs.len(),
{
    assert(shift_depths(xs, 1).subrange(a, b) =~= shift_depths(xs.subrange(a, b), 1));
}

proof fn lemma_last_separator_shift(xs: Seq<(SpecToken, int)>, op: Operation, d: int)
    ensures
        last_separator(shift_depths(xs, 1), op, d + 1) == last_separator(xs, op, d),
    decreases xs.len(),
{
    if xs.len() > 0 {
        lemma_shift_parts(xs, 0, xs.len() - 1);
        assert(shift_depths(xs, 1).drop_last() == shift_depths(xs.drop_last(), 1));
        lemma_last_separator_shift(xs.drop_last(), op, d);
    }
}

/// Reading tokens one parenthesis deeper, at one depth more, gives the same tree, and
/// the same failure with its depths raised by one.
pub proof fn lemma_parse_level_shift(xs: Seq<(SpecToken, int)>, d: int, level: nat)
    requires
        0 <= d,
        d + xs.len() <= usize::MAX,
    ensures
        parse_level(shift_depths(xs, 1), d + 1, level) == shift_outcome(parse_level(xs, d, level)),
    decreases xs.len(), 4 - level,
{
    let ys = shift_depths(xs, 1);
    lemma_shift_parts(xs, 0, xs.len() as int);
    if level >= 4 {
        if xs.len() >= 2 {
            lemma_shift_parts(xs, 1, xs.len() - 1);
            lemma_parse_level_shift(xs.subrange(1, xs.len() - 1), d + 1, 0);
        }
    } else {
        let op = level_op(level);
        lemma_last_separator_shift(xs, op, d);
        lemma_last_separator(xs, op, d);
        match last_separator(xs, op, d) {
            None => lemma_parse_level_shift(xs, d, level + 1),
            Some(k) => {
                lemma_shift_parts(xs, 0, k);
                lemma_shift_parts(xs, k + 1, xs.len() as int);
                assert(ys.take(k) == shift_depths(xs.take(k), 1));
                assert(ys.skip(k + 1) == shift_depths(xs.skip(k + 1), 1));
                lemma_parse_level_shift(xs.take(k), d, level);
                lemma_parse_level_shift(xs.skip(k + 1), d, level + 1);
            },
        }
    }
}

/// The parenthesis balance of two token sequences one after the other.
proof fn lemma_paren_balance_concat(a: Seq<SpecToken>, b: Seq<SpecToken>)
    ensures
        paren_balance(a + b) == paren_balance(a) + paren_balance(b),
    decreases b.len(),
{
    if b.len() == 0 {
        assert(a + b == a);
    } else {
        lemma_paren_balance_concat(a, b.drop_last());
        assert((a + b).drop_last() == a + b.drop_last());
        assert((a + b).last() == b.last());
    }
}

/// The tokens inside one more pair of parentheses.
pub open spec fn parenthesised(u: Seq<SpecToken>) -> Seq<SpecToken> {
    seq![SpecToken::OpenPeren] + u + seq![SpecToken::ClosePeren]
}

proof fn lemma_paren_balance_single(t: SpecToken)
    ensures
        paren_balance(seq![t]) == match t {
            SpecToken::OpenPeren => 1int,
            SpecToken::ClosePeren => -1int,
            _ => 0int,
        },
{
    let one = seq![t];
    assert(one.drop_last() =~= Seq::<SpecToken>::empty());
    assert(one.last() == t);
    assert(paren_balance(Seq::<SpecToken>::empty()) == 0);
}

proof fn lemma_parenthesised_balance(u: Seq<SpecToken>, k: int)
    requires
        0 <= k <= u.len(),
    ensures
        paren_balance(parenthesised(u).take(k + 1)) == 1 + paren_balance(u.take(k)),
        paren_balance(parenthesised(u)) == paren_balance(u),
{
    let w = parenthesised(u);
    assert(w.take(k + 1) == seq![SpecToken::OpenPeren] + u.take(k));
    lemma_paren_balance_concat(seq![SpecToken::OpenPeren], u.take(k));
    lemma_paren_balance_concat(seq![SpecToken::OpenPeren], u);
    lemma_paren_balance_concat(seq![SpecToken::OpenPeren] + u, seq![SpecToken::ClosePeren]);
    lemma_paren_balance_single(SpecToken::OpenPeren);
    lemma_paren_balance_single(SpecToken::ClosePeren);
}

proof fn lemma_parenthesised_unbalanced(u: Seq<SpecToken>)
    requires
        never_unbalanced(u),
    ensures
        never_unbalanced(parenthesised(u)),
{
    let w = parenthesised(u);
    assert forall|k: int| 0 <= k <= w.len() implies paren_balance(#[trigger] w.take(k)) >= 0 by {
        if k == 0 {
            assert(w.take(0) == Seq::<SpecToken>::empty());
        } else if k <= u.len() + 1 {
            lemma_parenthesised_balance(u, k - 1);
            assert(paren_balance(u.take(k - 1)) >= 0);
        } else {
            lemma_parenthesised_balance(u, 0);
            assert(w.take(k) == w);
            assert(u.take(u.len() as int) == u);
            assert(paren_balance(u.take(u.len() as int)) >= 0);
        }
    }
}

proof fn lemma_parenthesised_depths(u: Seq<SpecToken>)
    ensures
        with_depths(parenthesised(u)) == seq![(SpecToken::OpenPeren, 1int)] + shift_depths(
            with_depths(u),
            1,
        ) + seq![(SpecToken::ClosePeren, paren_balance(u))],
{
    let w = parenthesised(u);
    let rhs = seq![(SpecToken::OpenPeren, 1int)] + shift_depths(with_depths(u), 1) + seq![
        (SpecToken::ClosePeren, paren_balance(u)),
    ];
    assert forall|i: int| 0 <= i < w.len() implies #[trigger] with_depths(w)[i] == rhs[i] by {
        if i == 0 {
            lemma_parenthesised_balance(u, 0);
            assert(u.take(0) == Seq::<SpecToken>::empty());
        } else if i <= u.len() {
            lemma_parenthesised_balance(u, i);
            assert(w[i] == u[i - 1]);
        } else {
            lemma_parenthesised_balance(u, 0);
            assert(w.take(i + 1) == w);
        }
    }
    assert(with_depths(w) =~= rhs);
}

proof fn lemma_no_separator(ws: Seq<(SpecToken, int)>, op: Operation, d: int)
    requires
        forall|i: int| 0 <= i < ws.len() ==> #[trigger] ws[i] != (SpecToken::Op(op), d),
    ensures
        last_separator(ws, op, d) is None,
    decreases ws.len(),
{
    if ws.len() > 0 {
        assert(ws.last() == ws[ws.len() - 1]);
        lemma_no_separator(ws.drop_last(), op, d);
    }
}

proof fn lemma_parse_levels_without_separator(ws: Seq<(SpecToken, int)>, d: int, level: nat)
    requires
        level <= 4,
        forall|i: int| 0 <= i < ws.len() ==> (#[trigger] ws[i]).1 != d || !(ws[i].0 is Op),
    ensures
        parse_level(ws, d, level) == parse_level(ws, d, 4),
    decreases 4 - level,
{
    if level < 4 {
        lemma_no_separator(ws, level_op(level), d);
        lemma_parse_levels_without_separator(ws, d, level + 1);
    }
}

/// Tokens that read as a tree read as the same tree inside one more pair of
/// parentheses (as long as the tokens can be held, their number within `usize`).
pub proof fn law_parse_tokens_parenthesised(u: Seq<SpecToken>)
    requires
        u.len() <= usize::MAX,
        never_unbalanced(u),
        parse_level(with_depths(u), 0, 0) is Tree,
    ensures
        never_unbalanced(parenthesised(u)),
        parse_level(with_depths(parenthesised(u)), 0, 0) == parse_level(with_depths(u), 0, 0),
{
    lemma_parenthesised_unbalanced(u);
    lemma_parenthesised_depths(u);
    let inner = shift_depths(with_depths(u), 1);
    let ws = with_depths(parenthesised(u));
    lemma_shift_parts(with_depths(u), 0, u.len() as int);
    assert forall|i: int| 0 <= i < ws.len() implies (#[trigger] ws[i]).1 != 0 || !(
    ws[i].0 is Op) by {
        if 1 <= i <= u.len() {
            assert(ws[i] == inner[i - 1]);
            assert(u.take(i) == u.take(i - 1 + 1));
            assert(paren_balance(u.take(i)) >= 0);
        }
    }
    lemma_parse_levels_without_separator(ws, 0, 0);
    assert(ws.subrange(1, ws.len() - 1) == inner);
    lemma_parse_level_shift(with_depths(u), 0, 0);
}

/// Putting `(` in front of the tokens and `)` after them adds nothing else when implicit
/// multiplications are made explicit.
proof fn lemma_implicit_mult_parenthesised(u: Seq<SpecToken>)
    ensures
        with_implicit_mult(parenthesised(u)) == parenthesised(with_implicit_mult(u)),
{
    lemma_implicit_mult_open(u);
    let v = seq![SpecToken::OpenPeren] + u;
    assert(parenthesised(u) == v.push(SpecToken::ClosePeren));
    assert(v.push(SpecToken::ClosePeren).drop_last() == v);
    assert(with_implicit_mult(parenthesised(u)) == with_implicit_mult(v).push(SpecToken::ClosePeren));
    assert(seq![SpecToken::OpenPeren] + with_implicit_mult(u) + seq![SpecToken::ClosePeren]
        == (seq![SpecToken::OpenPeren] + with_implicit_mult(u)).push(SpecToken::ClosePeren));
}

proof fn lemma_implicit_mult_open(u: Seq<SpecToken>)
    ensures
        with_implicit_mult(seq![SpecToken::OpenPeren] + u) == seq![SpecToken::OpenPeren]
            + with_implicit_mult(u),
    decreases u.len(),
{
    let v = seq![SpecToken::OpenPeren] + u;
    if u.len() == 0 {
        assert(v =~= seq![SpecToken::OpenPeren]);
        assert(seq![SpecToken::OpenPeren] + with_implicit_mult(u) =~= seq![SpecToken::OpenPeren]);
    } else if u.len() == 1 {
        assert(v.drop_last() =~= seq![SpecToken::OpenPeren]);
        assert(v[0] == SpecToken::OpenPeren);
        assert(v.last() == u[0]);
        assert(v.len() == 2);
        assert(with_implicit_mult(v.drop_last()) == seq![SpecToken::OpenPeren]);
        assert(!ends_operand(v[v.len() - 2]));
        assert(with_implicit_mult(v) == seq![SpecToken::OpenPeren].push(u[0]));
        assert(seq![SpecToken::OpenPeren].push(u[0]) =~= seq![SpecToken::OpenPeren] + u);
    } else {
        lemma_implicit_mult_open(u.drop_last());
        assert(v.drop_last() == seq![SpecToken::OpenPeren] + u.drop_last());
        assert(v[v.len() - 2] == u[u.len() - 2]);
        assert(v.last() == u.last());
        let p = with_implicit_mult(u.drop_last());
        assert((seq![SpecToken::OpenPeren] + p) + seq![SpecToken::Op(Operation::Mult), u.last()]
            == seq![SpecToken::OpenPeren] + (p + seq![SpecToken::Op(Operation::Mult), u.last()]));
        assert((seq![SpecToken::OpenPeren] + p).push(u.last()) == seq![SpecToken::OpenPeren] + p.push(
            u.last(),
        ));
        if ends_operand(u[u.len() - 2]) && starts_operand(u.last()) {
            assert(with_implicit_mult(v) == (seq![SpecToken::OpenPeren] + p) + seq![
                SpecToken::Op(Operation::Mult),
                u.last(),
            ]);
        } else {
            assert(with_implicit_mult(v) == (seq![SpecToken::OpenPeren] + p).push(u.last()));
        }
    }
}

/// A text that parses to a tree parses to the same tree inside one more pair of
/// parentheses: `( ` in front of it and ` )` after it (as long as its tokens can be
/// held, their number within `usize`).
pub proof fn law_parse_parenthesised(s: Seq<char>)
    requires
        spec_parse(s) is Tree,
        with_implicit_mult(spec_tokanise(s)->Ok_0).len() <= usize::MAX,
    ensures
        spec_parse(seq!['(', ' '] + s + seq![' ', ')']) == spec_parse(s),
{
    let ts = spec_tokanise(s)->Ok_0;
    let open_text = token_text(SpecToken::OpenPeren);
    let close_text = token_text(SpecToken::ClosePeren);
    assert(readable(SpecToken::OpenPeren));
    assert(readable(SpecToken::ClosePeren));
    lemma_readable_scan(SpecToken::OpenPeren);
    lemma_readable_scan(SpecToken::ClosePeren);
    law_tokanise_split(s, ' ', close_text);
    law_tokanise_split(open_text, ' ', s + seq![' '] + close_text);
    assert(seq!['(', ' '] + s + seq![' ', ')'] == open_text + seq![' '] + (s + seq![' ']
        + close_text));
    assert(seq![SpecToken::OpenPeren] + (ts + seq![SpecToken::ClosePeren]) == parenthesised(ts));
    lemma_implicit_mult_parenthesised(ts);
    law_parse_tokens_parenthesised(with_implicit_mult(ts));
}


/// A text that parses to a tree parses to the same tree with `(` put right in front of
/// it and `)` right after it, whenever those two characters read as brackets of their
/// own around the text's tokens. (They need not: in `a \u{663}` the numeral U+0663 is no
/// decimal literal and is dropped at the end of its word, but in `(a \u{663})` it takes the
/// word's `)` with it, and the text fails with `Invalid char: )`.) The number of its
/// tokens is within `usize`.
pub proof fn law_parse_bracketed(s: Seq<char>)
    requires
        spec_parse(s) is Tree,
        with_implicit_mult(spec_tokanise(s)->Ok_0).len() <= usize::MAX,
        spec_tokanise(seq!['('] + s + seq![')']) == Ok::<Seq<SpecToken>, Seq<char>>(
            parenthesised(spec_tokanise(s)->Ok_0),
        ),
    ensures
        spec_parse(seq!['('] + s + seq![')']) == spec_parse(s),
{
    let ts = spec_tokanise(s)->Ok_0;
    lemma_implicit_mult_parenthesised(ts);
    law_parse_tokens_parenthesised(with_implicit_mult(ts));
}


/// Whether the token can stand alone as an operand: a number or a variable.
pub open spec fn is_operand_token(t: SpecToken) -> bool {
    t is Literal || t is Variable
}

/// The tree of a single operand token.
pub open spec fn operand_leaf(t: SpecToken) -> SpecTree {
    match t {
        SpecToken::Literal(s) => SpecTree::Num(s),
        SpecToken::Variable(s) => SpecTree::Var(s),
        _ => SpecTree::Num(Seq::empty()),
    }
}

/// The operands joined by `op`, every token at depth `d`: `x1 op x2 op ... op xn`.
pub open spec fn operand_chain(xs: Seq<SpecToken>, op: Operation, d: int) -> Seq<
    (SpecToken, int),
>
    decreases xs.len(),
{
    if xs.len() <= 1 {
        xs.map_values(|t: SpecToken| (t, d))
    } else {
        operand_chain(xs.drop_last(), op, d) + seq![(SpecToken::Op(op), d), (xs.last(), d)]
    }
}

/// The operands combined by `op` from the left: `((x1 op x2) op x3) ... op xn`.
pub open spec fn fold_operands_left(op: Operation, xs: Seq<SpecToken>) -> SpecTree
    decreases xs.len(),
{
    if xs.len() <= 1 {
        operand_leaf(xs[0])
    } else {
        SpecTree::Op(
            op,
            Box::new(fold_operands_left(op, xs.drop_last())),
            Box::new(operand_leaf(xs.last())),
        )
    }
}

/// The precedence level at which the reader splits at `op`.
pub open spec fn op_level(op: Operation) -> nat {
    match op {
        Operation::Neg => 0,
        Operation::Add => 1,
        Operation::Mult => 2,
        Operation::Div => 3,
    }
}

proof fn lemma_operand_chain_shape(xs: Seq<SpecToken>, op: Operation, d: int)
    requires
        xs.len() >= 1,
        forall|i: int| 0 <= i < xs.len() ==> is_operand_token(#[trigger] xs[i]),
    ensures
        operand_chain(xs, op, d).len() == 2 * xs.len() - 1,
        operand_chain(xs, op, d).last() == (xs.last(), d),
        forall|i: int|
            0 <= i < operand_chain(xs, op, d).len() ==> (#[trigger] operand_chain(xs, op, d)[i]).1
                == d && (operand_chain(xs, op, d)[i].0 == SpecToken::Op(op) || is_operand_token(
                operand_chain(xs, op, d)[i].0,
            )),
    decreases xs.len(),
{
    let ch = operand_chain(xs, op, d);
    if xs.len() == 1 {
        assert(ch[0] == (xs[0], d));
    } else {
        let init = xs.drop_last();
        assert forall|i: int| 0 <= i < init.len() implies is_operand_token(#[trigger] init[i]) by {
            assert(init[i] == xs[i]);
        }
        lemma_operand_chain_shape(init, op, d);
        let prev = operand_chain(init, op, d);
        assert(is_operand_token(xs[xs.len() - 1]));
        assert forall|i: int| 0 <= i < ch.len() implies (#[trigger] ch[i]).1 == d && (ch[i].0
            == SpecToken::Op(op) || is_operand_token(ch[i].0)) by {
            if i < prev.len() {
                assert(ch[i] == prev[i]);
            }
        }
    }
}

/// Operands joined by one operator at one depth always read as a tree: the operands
/// combined from the left, `((x1 op x2) op x3) ... op xn`.
pub proof fn law_operand_chain_folds_left(xs: Seq<SpecToken>, op: Operation, d: int)
    requires
        xs.len() >= 1,
        forall|i: int| 0 <= i < xs.len() ==> is_operand_token(#[trigger] xs[i]),
    ensures
        parse_level(operand_chain(xs, op, d), d, 0) == Outcome::Tree(fold_operands_left(op, xs)),
{
    lemma_chain_at_levels(xs, op, d, 0);
}

proof fn lemma_chain_at_levels(xs: Seq<SpecToken>, op: Operation, d: int, level: nat)
    requires
        xs.len() >= 1,
        forall|i: int| 0 <= i < xs.len() ==> is_operand_token(#[trigger] xs[i]),
        level <= op_level(op),
    ensures
        parse_level(operand_chain(xs, op, d), d, level) == Outcome::Tree(
            fold_operands_left(op, xs),
        ),
    decreases xs.len(), op_level(op) - level,
{
    let ch = operand_chain(xs, op, d);
    lemma_operand_chain_shape(xs, op, d);
    if xs.len() == 1 {
        lemma_parse_levels_without_separator(ch, d, level);
        assert(ch[0] == (xs[0], d));
    } else if level < op_level(op) {
        assert(level_op(level) != op);
        lemma_no_separator(ch, level_op(level), d);
        lemma_chain_at_levels(xs, op, d, level + 1);
    } else {
        assert(level_op(level) == op);
        let init = xs.drop_last();
        assert forall|i: int| 0 <= i < init.len() implies is_operand_token(#[trigger] init[i]) by {
            assert(init[i] == xs[i]);
        }
        let prev = operand_chain(init, op, d);
        lemma_operand_chain_shape(init, op, d);
        let k = prev.len() as int;
        assert(ch.drop_last() == prev.push((SpecToken::Op(op), d)));
        assert(ch.last() != (SpecToken::Op(op), d));
        assert(ch.drop_last().last() == (SpecToken::Op(op), d));
        assert(ch.drop_last().len() == k + 1);
        assert(last_separator(ch.drop_last(), op, d) == Some(k));
        assert(last_separator(ch, op, d) == Some(k));
        assert(ch.take(k) == prev);
        assert(ch.skip(k + 1) == seq![(xs.last(), d)]);
        lemma_chain_at_levels(init, op, d, level);
        let single = seq![(xs.last(), d)];
        lemma_parse_levels_without_separator(single, d, level + 1);
        assert(single[0] == (xs.last(), d));
        assert(parse_level(single, d, 4) == Outcome::Tree(operand_leaf(xs.last())));
    }
}


proof fn lemma_suffix_balance(ts: Seq<SpecToken>, j: int)
    requires
        0 <= j < ts.len(),
    ensures
        paren_balance(ts.skip(j)) == paren_balance(ts.drop_last().skip(j)) + match ts.last() {
            SpecToken::OpenPeren => 1int,
            SpecToken::ClosePeren => -1int,
            _ => 0int,
        },
{
    assert(ts.skip(j).drop_last() == ts.drop_last().skip(j));
    assert(ts.skip(j).last() == ts.last());
}

proof fn lemma_opening_from_end(ts: Seq<SpecToken>, depth: int)
    requires
        depth >= 1,
    ensures
        match opening_from_end(ts, depth) {
            Some(i) => 0 <= i < ts.len() && ts[i] is OpenPeren && paren_balance(ts.skip(i))
                == depth && forall|j: int|
                i < j < ts.len() ==> paren_balance(#[trigger] ts.skip(j)) != depth,
            None => forall|j: int| 0 <= j < ts.len() ==> paren_balance(#[trigger] ts.skip(j)) != depth,
        },
    decreases ts.len(),
{
    if ts.len() > 0 {
        let init = ts.drop_last();
        let n = ts.len() as int;
        assert(ts.skip(n - 1) == seq![ts.last()]);
        lemma_paren_balance_single(ts.last());
        let delta = match ts.last() {
            SpecToken::OpenPeren => 1int,
            SpecToken::ClosePeren => -1int,
            _ => 0int,
        };
        assert forall|j: int| 0 <= j < n - 1 implies paren_balance(#[trigger] ts.skip(j))
            == paren_balance(init.skip(j)) + delta by {
            lemma_suffix_balance(ts, j);
        }
        match ts.last() {
            SpecToken::ClosePeren => {
                lemma_opening_from_end(init, depth + 1);
                if let Some(i) = opening_from_end(init, depth + 1) {
                    assert(ts[i] == init[i]);
                    assert(paren_balance(ts.skip(i)) == paren_balance(init.skip(i)) - 1);
                    assert forall|j: int| i < j < ts.len() implies paren_balance(
                        #[trigger] ts.skip(j),
                    ) != depth by {
                        if j < n - 1 {
                            assert(paren_balance(ts.skip(j)) == paren_balance(init.skip(j)) - 1);
                        }
                    }
                } else {
                    assert forall|j: int| 0 <= j < ts.len() implies paren_balance(
                        #[trigger] ts.skip(j),
                    ) != depth by {
                        if j < n - 1 {
                            assert(paren_balance(ts.skip(j)) == paren_balance(init.skip(j)) - 1);
                        }
                    }
                }
            },
            SpecToken::OpenPeren => {
                if depth - 1 == 0 {
                    assert(ts[n - 1] == ts.last());
                } else {
                    lemma_opening_from_end(init, depth - 1);
                    if let Some(i) = opening_from_end(init, depth - 1) {
                        assert(ts[i] == init[i]);
                        assert(paren_balance(ts.skip(i)) == paren_balance(init.skip(i)) + 1);
                        assert forall|j: int| i < j < ts.len() implies paren_balance(
                            #[trigger] ts.skip(j),
                        ) != depth by {
                            if j < n - 1 {
                                assert(paren_balance(ts.skip(j)) == paren_balance(init.skip(j))
                                    + 1);
                            }
                        }
                    } else {
                        assert forall|j: int| 0 <= j < ts.len() implies paren_balance(
                            #[trigger] ts.skip(j),
                        ) != depth by {
                            if j < n - 1 {
                                assert(paren_balance(ts.skip(j)) == paren_balance(init.skip(j))
                                    + 1);
                            }
                        }
                    }
                }
            },
            _ => {
                lemma_opening_from_end(init, depth);
                if let Some(i) = opening_from_end(init, depth) {
                    assert(ts[i] == init[i]);
                    assert(paren_balance(ts.skip(i)) == paren_balance(init.skip(i)));
                    assert forall|j: int| i < j < ts.len() implies paren_balance(
                        #[trigger] ts.skip(j),
                    ) != depth by {
                        if j < n - 1 {
                            assert(paren_balance(ts.skip(j)) == paren_balance(init.skip(j)));
                        }
                    }
                } else {
                    assert forall|j: int| 0 <= j < ts.len() implies paren_balance(
                        #[trigger] ts.skip(j),
                    ) != depth by {
                        if j < n - 1 {
                            assert(paren_balance(ts.skip(j)) == paren_balance(init.skip(j)));
                        }
                    }
                }
            },
        }
    }
}

/// The opening bracket found for a closing bracket taken off the end is the last
/// position from which the tokens open one more parenthesis than they close (the
/// number of `(` minus the number of `)` from there to the end is 1); it is a `(`.
/// There is none exactly when no position has that count.
pub proof fn law_opening_bracket_is_last_open_suffix(ts: Seq<SpecToken>)
    ensures
        match opening_from_end(ts, 1) {
            Some(i) => 0 <= i < ts.len() && ts[i] is OpenPeren && paren_balance(ts.skip(i)) == 1
                && forall|j: int| i < j < ts.len() ==> paren_balance(#[trigger] ts.skip(j)) != 1,
            None => forall|j: int| 0 <= j < ts.len() ==> paren_balance(#[trigger] ts.skip(j)) != 1,
        },
{
    lemma_opening_from_end(ts, 1);
}


/// The operator that binds looser splits first: with `lo` binding looser than `hi`,
/// `a lo b hi c` reads as `a lo (b hi c)` and `a hi b lo c` as `(a hi b) lo c`.
pub proof fn law_looser_operator_splits_first(
    a: SpecToken,
    b: SpecToken,
    c: SpecToken,
    lo: Operation,
    hi: Operation,
    d: int,
)
    requires
        is_operand_token(a),
        is_operand_token(b),
        is_operand_token(c),
        op_level(lo) < op_level(hi),
    ensures
        parse_level(
            seq![(a, d), (SpecToken::Op(lo), d), (b, d), (SpecToken::Op(hi), d), (c, d)],
            d,
            0,
        ) == Outcome::Tree(
            SpecTree::Op(
                lo,
                Box::new(operand_leaf(a)),
                Box::new(SpecTree::Op(hi, Box::new(operand_leaf(b)), Box::new(operand_leaf(c)))),
            ),
        ),
        parse_level(
            seq![(a, d), (SpecToken::Op(hi), d), (b, d), (SpecToken::Op(lo), d), (c, d)],
            d,
            0,
        ) == Outcome::Tree(
            SpecTree::Op(
                lo,
                Box::new(SpecTree::Op(hi, Box::new(operand_leaf(a)), Box::new(operand_leaf(b)))),
                Box::new(operand_leaf(c)),
            ),
        ),
{
    let bc = seq![b, c];
    let ab = seq![a, b];
    assert(bc.drop_last() == seq![b] && bc.last() == c && ab.drop_last() == seq![a] && ab.last() == b);
    assert(operand_chain(seq![b], hi, d) == seq![(b, d)]);
    assert(operand_chain(seq![a], hi, d) == seq![(a, d)]);
    assert(operand_chain(bc, hi, d) == seq![(b, d), (SpecToken::Op(hi), d), (c, d)]);
    assert(operand_chain(ab, hi, d) == seq![(a, d), (SpecToken::Op(hi), d), (b, d)]);
    assert(fold_operands_left(hi, seq![b]) == operand_leaf(b));
    assert(fold_operands_left(hi, seq![a]) == operand_leaf(a));
    assert forall|i: int| 0 <= i < bc.len() implies is_operand_token(#[trigger] bc[i]) by {}
    assert forall|i: int| 0 <= i < ab.len() implies is_operand_token(#[trigger] ab[i]) by {}
    let first = seq![(a, d), (SpecToken::Op(lo), d), (b, d), (SpecToken::Op(hi), d), (c, d)];
    let second = seq![(a, d), (SpecToken::Op(hi), d), (b, d), (SpecToken::Op(lo), d), (c, d)];
    let l = op_level(lo);
    lemma_below_level(first, d, lo, hi, 0);
    lemma_below_level(second, d, lo, hi, 0);
    assert(level_op(l) == lo);
    // a lo (b hi c)
    assert(first.drop_last().drop_last().drop_last() == seq![(a, d), (SpecToken::Op(lo), d)]);
    assert(last_separator(first, lo, d) == Some(1int)) by {
        reveal_with_fuel(last_separator, 5);
    }
    assert(first.take(1) == seq![(a, d)]);
    assert(first.skip(2) == operand_chain(bc, hi, d));
    lemma_parse_levels_without_separator(seq![(a, d)], d, l);
    assert(seq![(a, d)][0] == (a, d));
    lemma_chain_at_levels(bc, hi, d, l + 1);
    // (a hi b) lo c
    assert(last_separator(second, lo, d) == Some(3int)) by {
        reveal_with_fuel(last_separator, 3);
    }
    assert(second.take(3) == operand_chain(ab, hi, d));
    assert(second.skip(4) == seq![(c, d)]);
    lemma_chain_at_levels(ab, hi, d, l);
    lemma_parse_levels_without_separator(seq![(c, d)], d, l + 1);
    assert(seq![(c, d)][0] == (c, d));
}

proof fn lemma_below_level(
    ws: Seq<(SpecToken, int)>,
    d: int,
    lo: Operation,
    hi: Operation,
    level: nat,
)
    requires
        level <= op_level(lo) < op_level(hi),
        forall|i: int|
            0 <= i < ws.len() ==> (#[trigger] ws[i]).0 == SpecToken::Op(lo) || ws[i].0
                == SpecToken::Op(hi) || is_operand_token(ws[i].0),
    ensures
        parse_level(ws, d, level) == parse_level(ws, d, op_level(lo)),
    decreases op_level(lo) - level,
{
    if level < op_level(lo) {
        assert(level_op(level) != lo && level_op(level) != hi);
        lemma_no_separator(ws, level_op(level), d);
        lemma_below_level(ws, d, lo, hi, level + 1);
    }
}


/// The `*` that making implicit multiplication explicit puts where `x` meets `y`: one
/// when the last token of `x` can end an operand and the first of `y` can start one.
pub open spec fn junction_mult(x: Seq<SpecToken>, y: Seq<SpecToken>) -> Seq<SpecToken> {
    if x.len() > 0 && y.len() > 0 && ends_operand(x.last()) && starts_operand(y[0]) {
        seq![SpecToken::Op(Operation::Mult)]
    } else {
        Seq::empty()
    }
}

/// Making implicit multiplication explicit works piece by piece: on two token
/// sequences one after the other it gives the result on the first, a `*` where they
/// meet if the first ends an operand and the second starts one, and the result on the
/// second. With a single token left alone, this says that exactly one `*` goes between
/// each such pair of neighbours and nothing else changes.
pub proof fn law_implicit_mult_concat(x: Seq<SpecToken>, y: Seq<SpecToken>)
    ensures
        with_implicit_mult(x + y) == with_implicit_mult(x) + junction_mult(x, y)
            + with_implicit_mult(y),
        x.len() < 2 ==> with_implicit_mult(x) == x,
    decreases y.len(),
{
    if y.len() == 0 {
        assert(x + y == x);
        assert(with_implicit_mult(x) + Seq::<SpecToken>::empty() + y == with_implicit_mult(x));
    } else if x.len() == 0 {
        assert(x + y == y);
        assert(Seq::<SpecToken>::empty() + Seq::<SpecToken>::empty() + with_implicit_mult(y)
            == with_implicit_mult(y));
    } else {
        let yl = y.drop_last();
        let l = y.last();
        let z = x + yl;
        law_implicit_mult_concat(x, yl);
        assert((x + y).drop_last() == z);
        assert((x + y).last() == l);
        assert((x + y).len() >= 2);
        let cond = ends_operand((x + y)[(x + y).len() - 2]) && starts_operand(l);
        let tail = if cond {
            seq![SpecToken::Op(Operation::Mult), l]
        } else {
            seq![l]
        };
        assert(with_implicit_mult(x + y) == with_implicit_mult(z) + tail) by {
            if cond {
            } else {
                assert(with_implicit_mult(z).push(l) == with_implicit_mult(z) + seq![l]);
            }
        }
        if yl.len() == 0 {
            assert(z == x);
            assert((x + y)[(x + y).len() - 2] == x.last());
            assert(y == seq![l]);
            assert(with_implicit_mult(y) == seq![l]);
            assert(junction_mult(x, yl) == Seq::<SpecToken>::empty());
            assert(with_implicit_mult(x) + Seq::<SpecToken>::empty() + with_implicit_mult(yl)
                == with_implicit_mult(x));
            if cond {
                assert(junction_mult(x, y) == seq![SpecToken::Op(Operation::Mult)]);
                assert(with_implicit_mult(x) + seq![SpecToken::Op(Operation::Mult), l]
                    == with_implicit_mult(x) + seq![SpecToken::Op(Operation::Mult)] + seq![l]);
            } else {
                assert(junction_mult(x, y) == Seq::<SpecToken>::empty());
                assert(with_implicit_mult(x) + seq![l] == with_implicit_mult(x)
                    + Seq::<SpecToken>::empty() + seq![l]);
            }
        } else {
            assert((x + y)[(x + y).len() - 2] == y[y.len() - 2]);
            assert(yl[0] == y[0]);
            assert(junction_mult(x, yl) == junction_mult(x, y));
            assert(with_implicit_mult(y) == with_implicit_mult(yl) + tail) by {
                if !cond {
                    assert(with_implicit_mult(yl).push(l) == with_implicit_mult(yl) + seq![l]);
                }
            }
            let j = junction_mult(x, y);
            assert(with_implicit_mult(x) + j + with_implicit_mult(yl) + tail
                == with_implicit_mult(x) + j + (with_implicit_mult(yl) + tail));
        }
    }
}


/// Writing tokens out puts exactly one space between neighbours: a single token is
/// its text, and two non-empty runs of tokens one after the other are written as the
/// first, a space, and the second.
pub proof fn law_tokens_written_with_single_spaces(x: Seq<SpecToken>, y: Seq<SpecToken>)
    ensures
        join_token_texts(Seq::empty()) == Seq::<char>::empty(),
        x.len() == 1 ==> join_token_texts(x) == token_text(x[0]),
        x.len() > 0 && y.len() > 0 ==> join_token_texts(x + y) == join_token_texts(x) + seq![' ']
            + join_token_texts(y),
    decreases y.len(),
{
    if x.len() > 0 && y.len() > 0 {
        let yl = y.drop_last();
        assert((x + y).drop_last() == x + yl);
        assert((x + y).last() == y.last());
        if yl.len() == 0 {
            assert(x + yl == x);
            assert(y == seq![y.last()]);
        } else {
            law_tokens_written_with_single_spaces(x, yl);
            assert(join_token_texts(x) + seq![' '] + join_token_texts(yl) + seq![' '] + token_text(
                y.last(),
            ) == join_token_texts(x) + seq![' '] + (join_token_texts(yl) + seq![' '] + token_text(
                y.last(),
            )));
        }
    }
}

} // verus!
