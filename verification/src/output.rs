//! Display helpers for configuration strings.
use crate::text::{chars_of, string_of};
use vstd::prelude::*;

verus! {

/// The Unicode superscript form of an ASCII digit; other characters are unchanged.
pub open spec fn superscript_of(c: char) -> char {
    if c == '0' {
        '⁰'
    } else if c == '1' {
        '¹'
    } else if c == '2' {
        '²'
    } else if c == '3' {
        '³'
    } else if c == '4' {
        '⁴'
    } else if c == '5' {
        '⁵'
    } else if c == '6' {
        '⁶'
    } else if c == '7' {
        '⁷'
    } else if c == '8' {
        '⁸'
    } else if c == '9' {
        '⁹'
    } else {
        c
    }
}

/// Map an ASCII digit to its Unicode superscript equivalent.
pub fn superscript_digit(d: char) -> (r: char)
    ensures
        r == superscript_of(d),
{
    match d {
        '0' => '⁰',
        '1' => '¹',
        '2' => '²',
        '3' => '³',
        '4' => '⁴',
        '5' => '⁵',
        '6' => '⁶',
        '7' => '⁷',
        '8' => '⁸',
        '9' => '⁹',
        other => other,
    }
}

/// Digits that follow a subshell letter (up to the next space) become
/// superscripts; every other character is kept. `after` tells whether a
/// subshell letter has been seen since the last space.
pub open spec fn superscripted(s: Seq<char>, after: bool) -> Seq<char>
    decreases s.len(),
{
    if s.len() == 0 {
        Seq::empty()
    } else {
        let c = s[0];
        let rest = s.drop_first();
        if c == 's' || c == 'p' || c == 'd' || c == 'f' {
            seq![c] + superscripted(rest, true)
        } else if '0' <= c <= '9' && after {
            seq![superscript_of(c)] + superscripted(rest, true)
        } else if c == ' ' {
            seq![c] + superscripted(rest, false)
        } else {
            seq![c] + superscripted(rest, after)
        }
    }
}

/// Renders subshell occupancies as Unicode superscripts for display,
/// e.g. "1s2 2s2 2p6" → "1s² 2s² 2p⁶". The principal quantum number (the
/// leading digit of each term) is left as an ordinary digit.
pub fn superscript_electrons(config: &str) -> (r: String)
    ensures
        r@ == superscripted(config@, false),
{
    let s = chars_of(config);
    let mut out: Vec<char> = Vec::new();
    let mut after_subshell = false;
    let mut i: usize = 0;
    assert(s@.subrange(0, s@.len() as int) =~= s@);
    assert(out@ + superscripted(s@, false) =~= superscripted(s@, false));
    while i < s.len()
        invariant
            i <= s.len(),
            s@ == config@,
            out@ + superscripted(s@.subrange(i as int, s@.len() as int), after_subshell)
                == superscripted(config@, false),
        decreases s.len() - i,
    {
        let ghost rest = s@.subrange(i as int, s@.len() as int);
        assert(rest.drop_first() =~= s@.subrange(i + 1, s@.len() as int));
        let ch = s[i];
        if ch == 's' || ch == 'p' || ch == 'd' || ch == 'f' {
            after_subshell = true;
            out.push(ch);
        } else if '0' <= ch && ch <= '9' && after_subshell {
            out.push(superscript_digit(ch));
        } else if ch == ' ' {
            after_subshell = false;
            out.push(ch);
        } else {
            out.push(ch);
        }
        i = i + 1;
    }
    string_of(&out)
}

} // verus!
