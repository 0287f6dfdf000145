use vstd::prelude::*;

verus! {

/// Whether `c` has the Unicode `White_Space` property, which `char::is_whitespace`
/// tests: tab, line feed, vertical tab, form feed, carriage return, space, next line,
/// no-break space, ogham space mark, the spaces U+2000 to U+200A, line separator,
/// paragraph separator, narrow no-break space, medium mathematical space and
/// ideographic space.
pub open spec fn char_is_whitespace(c: char) -> bool {
    ||| '\u{9}' <= c <= '\u{d}'
    ||| c == ' '
    ||| c == '\u{85}'
    ||| c == '\u{a0}'
    ||| c == '\u{1680}'
    ||| '\u{2000}' <= c <= '\u{200a}'
    ||| c == '\u{2028}'
    ||| c == '\u{2029}'
    ||| c == '\u{202f}'
    ||| c == '\u{205f}'
    ||| c == '\u{3000}'
}

/// Whether a character beyond ASCII has the Unicode `Alphabetic` property
/// (what `char::is_alphabetic` gives for it).
pub uninterp spec fn alphabetic_beyond_ascii(c: char) -> bool;

/// Whether a character beyond ASCII is in one of the Unicode general categories
/// `Nd`, `Nl` or `No` (what `char::is_numeric` gives for it).
pub uninterp spec fn numeric_beyond_ascii(c: char) -> bool;

/// Whether `c` has the Unicode `Alphabetic` property (`char::is_alphabetic`): among
/// ASCII characters exactly the letters `a`-`z` and `A`-`Z` have it.
pub open spec fn char_is_alphabetic(c: char) -> bool {
    if c <= '\u{7f}' {
        ('a' <= c <= 'z') || ('A' <= c <= 'Z')
    } else {
        alphabetic_beyond_ascii(c)
    }
}

/// Whether `c` is in one of the Unicode general categories for numbers, `Nd`, `Nl`
/// or `No` (`char::is_numeric`): among ASCII characters exactly the digits `0`-`9`.
pub open spec fn char_is_numeric(c: char) -> bool {
    if c <= '\u{7f}' {
        '0' <= c <= '9'
    } else {
        numeric_beyond_ascii(c)
    }
}

/// Calls `char::is_whitespace`. Trusted: its result is whether the character has the
/// Unicode `White_Space` property, the 25 characters listed in `char_is_whitespace`.
#[verifier::external_body]
pub(crate) fn is_whitespace(c: char) -> (b: bool)
    ensures
        b == char_is_whitespace(c),
{
    c.is_whitespace()
}

/// Calls `char::is_alphabetic`. Trusted: on ASCII its result is whether the character
/// is a letter `a`-`z` or `A`-`Z`; beyond ASCII it is `alphabetic_beyond_ascii(c)`, a
/// function of the character alone (the Unicode tables are not restated).
#[verifier::external_body]
pub(crate) fn is_alphabetic(c: char) -> (b: bool)
    ensures
        b == char_is_alphabetic(c),
        c > '\u{7f}' ==> b == alphabetic_beyond_ascii(c),
{
    c.is_alphabetic()
}

/// Calls `char::is_numeric`. Trusted: on ASCII its result is whether the character is
/// a digit `0`-`9`; beyond ASCII it is `numeric_beyond_ascii(c)`, a function of the
/// character alone (the Unicode tables are not restated).
#[verifier::external_body]
pub(crate) fn is_numeric(c: char) -> (b: bool)
    ensures
        b == char_is_numeric(c),
        c > '\u{7f}' ==> b == numeric_beyond_ascii(c),
{
    c.is_numeric()
}

/// Trusted: std's `String::push` appends `ch` at the end of the string, as its
/// documentation says; nothing is claimed of the allocation.
pub assume_specification[ String::push ](string: &mut String, ch: char)
    ensures
        final(string)@ == old(string)@.push(ch),
;

/// The characters of `s`, in order.
pub fn chars_of(s: &str) -> (v: Vec<char>)
    ensures
        v@ == s@,
{
    let mut v: Vec<char> = Vec::new();
    for c in it: s.chars()
        invariant
            v@ == it.seq().take(it.index() as int),
    {
        v.push(c);
    }
    v
}

} // verus!
