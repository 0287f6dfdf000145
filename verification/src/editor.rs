use vstd::prelude::*;

use crate::unicode::chars_of;

verus! {

/// The pieces in which the input box shows its text: the text between the letters
/// `a`, not highlighted, with each `a` as a highlighted piece of its own between them
/// (so the first and last pieces are never highlighted, and may be empty).
pub open spec fn highlight_pieces(s: Seq<char>) -> Seq<(Seq<char>, bool)>
    decreases s.len(),
{
    if s.len() == 0 {
        seq![(Seq::empty(), false)]
    } else {
        let p = highlight_pieces(s.drop_last());
        if s.last() == 'a' {
            p + seq![(seq!['a'], true), (Seq::empty(), false)]
        } else {
            p.update(p.len() - 1, (p.last().0.push(s.last()), false))
        }
    }
}

proof fn lemma_highlight_pieces_last(s: Seq<char>)
    ensures
        highlight_pieces(s).len() >= 1,
        highlight_pieces(s).last().1 == false,
    decreases s.len(),
{
    if s.len() > 0 {
        lemma_highlight_pieces_last(s.drop_last());
    }
}

/// The models of highlighted pieces.
pub open spec fn view_pieces(v: Seq<(String, bool)>) -> Seq<(Seq<char>, bool)> {
    v.map_values(|p: (String, bool)| (p.0@, p.1))
}

/// Cuts the text into the pieces the input box shows: the text between the letters
/// `a`, and each `a` highlighted.
pub fn highlight_segments(text: &str) -> (r: Vec<(String, bool)>)
    ensures
        view_pieces(r@) == highlight_pieces(text@),
{
    let chars = chars_of(text);
    let mut out: Vec<(String, bool)> = Vec::new();
    let mut current = String::new();
    assert(chars@.take(0) == Seq::<char>::empty());
    for i in 0..chars.len()
        invariant
            chars@ == text@,
            view_pieces(out@).push((current@, false)) == highlight_pieces(chars@.take(i as int)),
    {
        let c = chars[i];
        let ghost prefix = chars@.take(i as int);
        assert(chars@.take(i + 1).drop_last() == prefix);
        assert(chars@.take(i + 1).last() == c);
        proof {
            lemma_highlight_pieces_last(prefix);
        }
        if c == 'a' {
            let mut done = String::new();
            std::mem::swap(&mut done, &mut current);
            let ghost before = out@;
            out.push((done, false));
            let mut a = String::new();
            a.push('a');
            out.push((a, true));
            assert(view_pieces(out@) == view_pieces(before).push((done@, false)).push(
                (seq!['a'], true),
            ));
            assert(view_pieces(out@).push((current@, false)) =~= highlight_pieces(
                chars@.take(i + 1),
            ));
        } else {
            let ghost old_current = current@;
            current.push(c);
            assert(view_pieces(out@).push((current@, false)) =~= highlight_pieces(
                chars@.take(i + 1),
            ));
        }
    }
    assert(chars@.take(chars.len() as int) == chars@);
    let ghost before = out@;
    out.push((current, false));
    assert(view_pieces(out@) == view_pieces(before).push((current@, false)));
    out
}

/// What the window edits: the input text, the saved variables, and whether the
/// variables are being edited.
pub struct Editor {
    pub text_box_text: String,
    pub variables: Vec<String>,
    pub vars_editing: bool,
}

impl Default for Editor {
    fn default() -> (e: Self)
        ensures
            e.text_box_text@ == Seq::<char>::empty(),
            e.variables@ == Seq::<String>::empty(),
            !e.vars_editing,
    {
        Editor { text_box_text: String::new(), variables: Vec::new(), vars_editing: false }
    }
}

impl Editor {
    /// Saves the input text as a new variable, after the others.
    pub fn add_as_variable(&mut self)
        ensures
            final(self).variables@ == old(self).variables@.push(old(self).text_box_text),
            final(self).text_box_text == old(self).text_box_text,
            final(self).vars_editing == old(self).vars_editing,
    {
        let text = self.text_box_text.clone();
        self.variables.push(text);
    }

    /// Appends the variable at `index` to the input text.
    pub fn append_variable(&mut self, index: usize)
        requires
            index < old(self).variables.len(),
        ensures
            final(self).text_box_text@ == old(self).text_box_text@ + old(
                self,
            ).variables@[index as int]@,
            final(self).variables == old(self).variables,
            final(self).vars_editing == old(self).vars_editing,
    {
        let var = self.variables[index].clone();
        self.text_box_text.append(var.as_str());
    }
}


/// The texts of the pieces, one after the other.
pub open spec fn joined_pieces(ps: Seq<(Seq<char>, bool)>) -> Seq<char>
    decreases ps.len(),
{
    if ps.len() == 0 {
        Seq::empty()
    } else {
        joined_pieces(ps.drop_last()) + ps.last().0
    }
}

/// The input box shows its text unchanged, cut into pieces: the pieces together are
/// the text, every highlighted piece is a single `a`, and no other piece holds an `a`.
pub proof fn law_highlight_pieces(s: Seq<char>)
    ensures
        joined_pieces(highlight_pieces(s)) == s,
        forall|i: int|
            0 <= i < highlight_pieces(s).len() && (#[trigger] highlight_pieces(s)[i]).1 ==> highlight_pieces(s)[i].0
                == seq!['a'],
        forall|i: int, j: int|
            0 <= i < highlight_pieces(s).len() && !highlight_pieces(s)[i].1 && 0 <= j
                < highlight_pieces(s)[i].0.len() ==> #[trigger] highlight_pieces(s)[i].0[j] != 'a',
    decreases s.len(),
{
    let hp = highlight_pieces(s);
    if s.len() == 0 {
        assert(hp == seq![(Seq::<char>::empty(), false)]);
        assert(hp.drop_last() == Seq::<(Seq<char>, bool)>::empty());
        assert(hp.last().0 == Seq::<char>::empty());
        assert(joined_pieces(hp.drop_last()) == Seq::<char>::empty());
        assert(joined_pieces(hp) == Seq::<char>::empty() + Seq::<char>::empty());
        assert(Seq::<char>::empty() + Seq::<char>::empty() == Seq::<char>::empty());
    } else {
        let init = s.drop_last();
        let c = s.last();
        let p = highlight_pieces(init);
        law_highlight_pieces(init);
        lemma_highlight_pieces_last(init);
        if c == 'a' {
            let q = p + seq![(seq!['a'], true)];
            assert(hp == q.push((Seq::<char>::empty(), false)));
            assert(hp.drop_last() == q);
            assert(q.drop_last() == p);
            assert(hp.last() == (Seq::<char>::empty(), false));
            assert(q.last() == (seq!['a'], true));
            assert(joined_pieces(q) == joined_pieces(p) + seq!['a']);
            assert(joined_pieces(hp) == joined_pieces(q) + Seq::<char>::empty());
            assert(joined_pieces(hp) == joined_pieces(p) + seq!['a'] + Seq::<char>::empty());
            assert(init.push(c) == s);
            assert(joined_pieces(p) + seq!['a'] + Seq::<char>::empty() == init.push(c));
            assert forall|i: int| 0 <= i < hp.len() && (#[trigger] hp[i]).1 implies hp[i].0
                == seq!['a'] by {
                if i < p.len() {
                    assert(hp[i] == p[i]);
                }
            }
            assert forall|i: int, j: int| 0 <= i < hp.len() && !hp[i].1 && 0 <= j
                < hp[i].0.len() implies #[trigger] hp[i].0[j] != 'a' by {
                if i < p.len() {
                    assert(hp[i] == p[i]);
                }
            }
        } else {
            let last = p.last();
            assert(hp == p.update(p.len() - 1, (last.0.push(c), false)));
            assert(hp.drop_last() == p.drop_last());
            assert(hp.last() == (last.0.push(c), false));
            assert(joined_pieces(p) == joined_pieces(p.drop_last()) + last.0);
            assert(joined_pieces(hp) == joined_pieces(p.drop_last()) + last.0.push(c));
            assert(joined_pieces(p.drop_last()) + last.0.push(c) == (joined_pieces(p.drop_last())
                + last.0).push(c));
            assert(init.push(c) == s);
            assert forall|i: int| 0 <= i < hp.len() && (#[trigger] hp[i]).1 implies hp[i].0
                == seq!['a'] by {
                if i < p.len() - 1 {
                    assert(hp[i] == p[i]);
                }
            }
            assert forall|i: int, j: int| 0 <= i < hp.len() && !hp[i].1 && 0 <= j
                < hp[i].0.len() implies #[trigger] hp[i].0[j] != 'a' by {
                if i < p.len() - 1 {
                    assert(hp[i] == p[i]);
                } else {
                    assert(!p[p.len() - 1].1);
                    if j < last.0.len() {
                        assert(hp[i].0[j] == last.0[j]);
                    }
                }
            }
        }
    }
}

} // verus!
