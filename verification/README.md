# math_manipulator

A verified reader of arithmetic expressions, and the window of the Math Manipulator
program around it.

- `src/unicode.rs`: the character classes of std (`char::is_whitespace`,
  `is_alphabetic`, `is_numeric`) that the tokeniser reads by, and `String::push`.
  Whitespace is stated in full, and alphabetic and numeric in full on ASCII.
- `src/token.rs`: operators and tokens, their models, and how they are written out.
- `src/tokenize.rs`: the tokeniser over classified characters, `tokanise_classified`,
  and over text, `tokanise_string`, against `spec_tokanise`.
- `src/implicit.rs`: `insert_impl_mult`, which makes `2x` into `2 * x`.
- `src/syntax.rs`: the expression tree, the parenthesis depths, and the precedence
  reader `SyntaxTree::parse` against `spec_parse`.
- `src/editor.rs`: what the window's clicks change, and the pieces in which the
  input text is highlighted.
- `src/lexical_laws.rs`, `src/laws.rs`: properties proved of the specifications above.
- `app/`: the egui window (`main`), and in `app/float_eq.rs` the floating-point side
  of numbers: `FloatEq`, and tokens and parse errors written with `f32` values.

The library keeps numbers as the numerals they were written as. The window, like the
original program's, reads no expressions, so `app/float_eq.rs` is not called from it.
