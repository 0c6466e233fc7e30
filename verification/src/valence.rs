//! Valence-electron derivation from an electron-configuration string.
use crate::text::{chars_of, decimal, digit_char};
use vstd::prelude::*;

verus! {

/// The Unicode `White_Space` property, which `char::is_whitespace` tests:
/// U+0009–U+000D, U+0020, U+0085, U+00A0, U+1680, U+2000–U+200A, U+2028,
/// U+2029, U+202F, U+205F and U+3000.
pub open spec fn spec_is_whitespace(c: char) -> bool {
    ||| c == ' '
    ||| ('\u{9}' <= c && c <= '\u{d}')
    ||| c == '\u{85}'
    ||| c == '\u{a0}'
    ||| c == '\u{1680}'
    ||| ('\u{2000}' <= c && c <= '\u{200a}')
    ||| c == '\u{2028}'
    ||| c == '\u{2029}'
    ||| c == '\u{202f}'
    ||| c == '\u{205f}'
    ||| c == '\u{3000}'
}

/// Whether `c` is whitespace, as `char::is_whitespace` decides it.
fn is_whitespace(c: char) -> (b: bool)
    ensures
        b == spec_is_whitespace(c),
{
    c == ' ' || ('\u{9}' <= c && c <= '\u{d}') || c == '\u{85}' || c == '\u{a0}' || c == '\u{1680}' || (
    '\u{2000}' <= c && c <= '\u{200a}') || c == '\u{2028}' || c == '\u{2029}' || c == '\u{202f}' || c
        == '\u{205f}' || c == '\u{3000}'
}

/// The value of `s` read as a decimal `u8` by `str::parse::<u8>`: an optional
/// `+` followed by one or more ASCII digits, with a value of at most 255.
pub open spec fn parse_u8_spec(s: Seq<char>) -> Option<u8> {
    let digits = if s.len() > 0 && s[0] == '+' {
        s.drop_first()
    } else {
        s
    };
    if digits.len() == 0 || !all_digits(digits) || digits_value(digits) > 255 {
        None
    } else {
        Some(digits_value(digits) as u8)
    }
}

/// Every character is an ASCII digit.
pub open spec fn all_digits(s: Seq<char>) -> bool {
    forall|i: int| 0 <= i < s.len() ==> '0' <= #[trigger] s[i] <= '9'
}

/// The decimal value of a string of ASCII digits.
pub open spec fn digits_value(s: Seq<char>) -> nat
    decreases s.len(),
{
    if s.len() == 0 {
        0
    } else {
        digits_value(s.drop_last()) * 10 + ((s.last() as int) - ('0' as int)) as nat
    }
}

/// The value of a digit string is at least that of any prefix.
proof fn lemma_digits_prefix_le(s: Seq<char>, i: int)
    requires
        all_digits(s),
        0 <= i <= s.len(),
    ensures
        digits_value(s.subrange(0, i)) <= digits_value(s),
    decreases s.len(),
{
    if i < s.len() {
        let p = s.drop_last();
        assert(all_digits(p)) by {
            assert forall|k: int| 0 <= k < p.len() implies '0' <= #[trigger] p[k] <= '9' by {
                assert(p[k] == s[k]);
            }
        }
        lemma_digits_prefix_le(p, i);
        assert(p.subrange(0, i) =~= s.subrange(0, i));
        assert('0' <= s[s.len() - 1] <= '9');
    } else {
        assert(s.subrange(0, i) =~= s);
    }
}

/// Read `s` as a decimal `u8` the way `str::parse::<u8>` does: an optional
/// `+` followed by one or more ASCII digits, with a value of at most 255.
fn parse_u8(s: &Vec<char>) -> (r: Option<u8>)
    ensures
        r == parse_u8_spec(s@),
{
    let n = s.len();
    let start: usize = if n > 0 && s[0] == '+' {
        1
    } else {
        0
    };
    let ghost digits = s@.subrange(start as int, n as int);
    assert(digits =~= (if s@.len() > 0 && s@[0] == '+' {
        s@.drop_first()
    } else {
        s@
    }));
    if start == n {
        return None;
    }
    let mut v: u16 = 0;
    let mut i: usize = start;
    assert(s@.subrange(start as int, start as int) =~= Seq::<char>::empty());
    while i < n
        invariant
            start <= i <= n == s@.len(),
            start < n,
            digits == s@.subrange(start as int, n as int),
            digits == (if s@.len() > 0 && s@[0] == '+' {
                s@.drop_first()
            } else {
                s@
            }),
            all_digits(s@.subrange(start as int, i as int)),
            v == digits_value(s@.subrange(start as int, i as int)),
            v <= 255,
        decreases n - i,
    {
        let c = s[i];
        let ghost prefix = s@.subrange(start as int, i + 1);
        assert(prefix.drop_last() =~= s@.subrange(start as int, i as int));
        assert(prefix.last() == c);
        assert(digits[i - start] == c);
        if !('0' <= c && c <= '9') {
            assert(!all_digits(digits));
            return None;
        }
        let d: u16 = ((c as u32) - ('0' as u32)) as u16;
        let nv: u16 = v * 10 + d;
        assert(nv == digits_value(prefix));
        assert(all_digits(prefix)) by {
            assert forall|k: int| 0 <= k < prefix.len() implies '0' <= #[trigger] prefix[k] <= '9' by {
                if k < prefix.len() - 1 {
                    assert(prefix[k] == s@.subrange(start as int, i as int)[k]);
                }
            }
        }
        if nv > 255 {
            proof {
                if all_digits(digits) {
                    lemma_digits_prefix_le(digits, i + 1 - start);
                    assert(digits.subrange(0, i + 1 - start) =~= prefix);
                }
            }
            return None;
        }
        v = nv;
        i = i + 1;
    }
    assert(s@.subrange(start as int, n as int) =~= digits);
    Some(v as u8)
}

/// Group-based valence fallback: main-group elements only; groups 3..=12 give 0.
pub open spec fn fallback_of(group: int) -> int {
    if group <= 2 {
        group
    } else if group >= 13 {
        group - 10
    } else {
        0
    }
}

/// Group-based valence fallback when the configuration cannot be parsed.
/// Main-group elements only; transition metals (groups 3..=12) return 0.
pub fn group_to_valence_fallback(group: u8) -> (r: u8)
    ensures
        r == fallback_of(group as int),
{
    if group <= 2 {
        group
    } else if group >= 13 {
        group - 10
    } else {
        0
    }
}

/// Whether `group` is a d-block transition metal (groups 3..=12).
pub fn is_transition_metal(group: u8) -> (b: bool)
    ensures
        b == (3 <= group <= 12),
{
    3 <= group && group <= 12
}

/// `s` with leading whitespace removed.
pub open spec fn trim_start(s: Seq<char>) -> Seq<char>
    decreases s.len(),
{
    if s.len() > 0 && spec_is_whitespace(s[0]) {
        trim_start(s.drop_first())
    } else {
        s
    }
}

/// `s` with trailing whitespace removed.
pub open spec fn trim_end(s: Seq<char>) -> Seq<char>
    decreases s.len(),
{
    if s.len() > 0 && spec_is_whitespace(s.last()) {
        trim_end(s.drop_last())
    } else {
        s
    }
}

/// `s` with surrounding whitespace removed (`str::trim`).
pub open spec fn trim(s: Seq<char>) -> Seq<char> {
    trim_end(trim_start(s))
}

/// Index of the first `c` in `s`, if any.
pub open spec fn index_of(s: Seq<char>, c: char) -> Option<int>
    decreases s.len(),
{
    if s.len() == 0 {
        None
    } else if s[0] == c {
        Some(0)
    } else {
        match index_of(s.drop_first(), c) {
            Some(i) => Some(i + 1),
            None => None,
        }
    }
}

/// The configuration with surrounding whitespace and a leading `"[Xx]"`
/// noble-gas core removed.
pub open spec fn strip_core(config: Seq<char>) -> Seq<char> {
    let t = trim(config);
    if t.len() > 0 && t[0] == '[' {
        let rest = t.drop_first();
        match index_of(rest, ']') {
            Some(c) => trim(rest.subrange(c + 1, rest.len() as int)),
            None => t,
        }
    } else {
        t
    }
}

/// Length of the leading run of non-whitespace characters.
pub open spec fn word_len(s: Seq<char>) -> nat
    decreases s.len(),
{
    if s.len() == 0 || spec_is_whitespace(s[0]) {
        0
    } else {
        1 + word_len(s.drop_first())
    }
}

/// The whitespace-separated words of `s` (`str::split_whitespace`).
pub open spec fn words(s: Seq<char>) -> Seq<Seq<char>>
    decreases s.len(),
{
    if s.len() == 0 {
        Seq::empty()
    } else if spec_is_whitespace(s[0]) {
        words(s.drop_first())
    } else {
        let k = word_len(s);
        proof {
            lemma_word_len(s);
        }
        seq![s.subrange(0, k as int)] + words(s.subrange(k as int, s.len() as int))
    }
}

/// A `"<n><s|p|d|f><count>"` token read as `(n, count)`.
pub open spec fn parse_subshell_spec(t: Seq<char>) -> Option<(u8, u8)> {
    if t.len() < 2 || !('0' <= t[0] <= '9') || !(t[1] == 's' || t[1] == 'p' || t[1] == 'd' || t[1]
        == 'f') {
        None
    } else {
        let count = t.subrange(2, t.len() as int);
        if count.len() == 0 {
            None
        } else {
            match parse_u8_spec(count) {
                Some(c) => Some((((t[0] as int) - ('0' as int)) as u8, c)),
                None => None,
            }
        }
    }
}

/// The parseable subshell tokens among `ws`, in order.
pub open spec fn parsed_subshells(ws: Seq<Seq<char>>) -> Seq<(u8, u8)>
    decreases ws.len(),
{
    if ws.len() == 0 {
        Seq::empty()
    } else {
        let rest = parsed_subshells(ws.drop_last());
        match parse_subshell_spec(ws.last()) {
            Some(p) => rest.push(p),
            None => rest,
        }
    }
}

/// Largest principal quantum number among parsed subshells.
pub open spec fn max_shell(ps: Seq<(u8, u8)>) -> int
    decreases ps.len(),
{
    if ps.len() == 0 {
        0
    } else {
        let m = max_shell(ps.drop_last());
        if ps.last().0 > m {
            ps.last().0 as int
        } else {
            m
        }
    }
}

/// Sum of the electron counts of the subshells in shell `n`.
pub open spec fn count_in_shell(ps: Seq<(u8, u8)>, n: int) -> int
    decreases ps.len(),
{
    if ps.len() == 0 {
        0
    } else {
        count_in_shell(ps.drop_last(), n) + if ps.last().0 == n {
            ps.last().1 as int
        } else {
            0
        }
    }
}

/// The electrons in the highest principal shell of a configuration string,
/// or the group fallback when nothing parseable remains.
pub open spec fn valence_of(config: Seq<char>, group: int) -> int {
    let stripped = strip_core(config);
    let ps = parsed_subshells(words(stripped));
    if stripped.len() == 0 || ps.len() == 0 {
        fallback_of(group)
    } else {
        count_in_shell(ps, max_shell(ps))
    }
}

/// Whether the summed count of `parse_valence_electrons` fits a `u8`.
pub open spec fn valence_fits(config: Seq<char>) -> bool {
    let ps = parsed_subshells(words(strip_core(config)));
    count_in_shell(ps, max_shell(ps)) <= 255
}

pub proof fn lemma_word_len(s: Seq<char>)
    ensures
        word_len(s) <= s.len(),
        s.len() > 0 && !spec_is_whitespace(s[0]) ==> word_len(s) >= 1,
        forall|i: int| 0 <= i < word_len(s) ==> !spec_is_whitespace(#[trigger] s[i]),
        word_len(s) < s.len() ==> spec_is_whitespace(s[word_len(s) as int]),
    decreases s.len(),
{
    if s.len() > 0 && !spec_is_whitespace(s[0]) {
        lemma_word_len(s.drop_first());
        assert forall|i: int| 0 <= i < word_len(s) implies !spec_is_whitespace(#[trigger] s[i]) by {
            if i > 0 {
                assert(s[i] == s.drop_first()[i - 1]);
            }
        }
        if word_len(s) < s.len() {
            assert(s[word_len(s) as int] == s.drop_first()[word_len(s) - 1]);
        }
    }
}

proof fn lemma_count_prefix(ps: Seq<(u8, u8)>, k: int, n: int)
    requires
        0 <= k <= ps.len(),
    ensures
        count_in_shell(ps.subrange(0, k), n) <= count_in_shell(ps, n),
    decreases ps.len(),
{
    if k == ps.len() {
        assert(ps.subrange(0, k) =~= ps);
    } else {
        assert(ps.drop_last().subrange(0, k) =~= ps.subrange(0, k));
        lemma_count_prefix(ps.drop_last(), k, n);
    }
}

fn trim_vec(s: &Vec<char>) -> (r: Vec<char>)
    ensures
        r@ == trim(s@),
{
    let mut lo: usize = 0;
    assert(s@.subrange(0, s@.len() as int) =~= s@);
    while lo < s.len() && is_whitespace(s[lo])
        invariant
            lo <= s.len(),
            trim_start(s@) == trim_start(s@.subrange(lo as int, s@.len() as int)),
        decreases s.len() - lo,
    {
        assert(s@.subrange(lo as int, s@.len() as int).drop_first() =~= s@.subrange(
            lo + 1,
            s@.len() as int,
        ));
        lo = lo + 1;
    }
    let ghost started = s@.subrange(lo as int, s@.len() as int);
    assert(trim_start(s@) == started) by {
        if lo == 0 {
            assert(started =~= s@);
        }
    }
    let mut hi: usize = s.len();
    while hi > lo && is_whitespace(s[hi - 1])
        invariant
            lo <= hi <= s.len(),
            trim_end(started) == trim_end(s@.subrange(lo as int, hi as int)),
        decreases hi - lo,
    {
        assert(s@.subrange(lo as int, hi as int).drop_last() =~= s@.subrange(
            lo as int,
            hi - 1,
        ));
        hi = hi - 1;
    }
    let mut r: Vec<char> = Vec::new();
    let mut i: usize = lo;
    while i < hi
        invariant
            lo <= i <= hi,
            hi <= s.len(),
            r@ == s@.subrange(lo as int, i as int),
        decreases hi - i,
    {
        r.push(s[i]);
        i = i + 1;
    }
    proof {
        let t = s@.subrange(lo as int, hi as int);
        if hi > lo {
            assert(!spec_is_whitespace(t.last()));
        }
        assert(trim_end(t) == t);
    }
    r
}

fn sub_vec(s: &Vec<char>, from: usize, to: usize) -> (r: Vec<char>)
    requires
        from <= to <= s.len(),
    ensures
        r@ == s@.subrange(from as int, to as int),
{
    let mut r: Vec<char> = Vec::new();
    let mut i: usize = from;
    while i < to
        invariant
            from <= i <= to,
            to <= s.len(),
            r@ == s@.subrange(from as int, i as int),
        decreases to - i,
    {
        r.push(s[i]);
        i = i + 1;
    }
    r
}

fn strip_noble_gas_prefix(config: &Vec<char>) -> (r: Vec<char>)
    ensures
        r@ == strip_core(config@),
{
    let trimmed = trim_vec(config);
    if trimmed.len() > 0 && trimmed[0] == '[' {
        let rest = sub_vec(&trimmed, 1, trimmed.len());
        assert(rest@ =~= trimmed@.drop_first());
        let mut i: usize = 0;
        assert(rest@.subrange(0, rest@.len() as int) =~= rest@);
        while i < rest.len()
            invariant
                i <= rest.len(),
                trimmed@ == trim(config@),
                trimmed@.len() > 0 && trimmed@[0] == '[',
                rest@ == trimmed@.drop_first(),
                index_of(rest@, ']') == (match index_of(rest@.subrange(i as int, rest@.len() as int), ']') {
                    Some(k) => Some(k + i),
                    None => None::<int>,
                }),
            decreases rest.len() - i,
        {
            proof {
                assert(rest@.subrange(i as int, rest@.len() as int).drop_first() =~= rest@.subrange(
                    i + 1,
                    rest@.len() as int,
                ));
            }
            if rest[i] == ']' {
                assert(rest@.subrange(i as int, rest@.len() as int)[0] == ']');
                assert(index_of(rest@, ']') == Some(i as int));
                let tail = sub_vec(&rest, i + 1, rest.len());
                return trim_vec(&tail);
            }
            i = i + 1;
        }
        return trimmed;
    }
    trimmed
}

fn split_words(s: &Vec<char>) -> (r: Vec<Vec<char>>)
    ensures
        r@.len() == words(s@).len(),
        forall|k: int| 0 <= k < r@.len() ==> #[trigger] r@[k]@ == words(s@)[k],
{
    let mut out: Vec<Vec<char>> = Vec::new();
    let ghost mut acc: Seq<Seq<char>> = Seq::empty();
    let mut i: usize = 0;
    assert(s@.subrange(0, s@.len() as int) =~= s@);
    assert(acc + words(s@) =~= words(s@));
    while i < s.len()
        invariant
            i <= s.len(),
            out@.len() == acc.len(),
            forall|k: int| 0 <= k < acc.len() ==> #[trigger] out@[k]@ == acc[k],
            acc + words(s@.subrange(i as int, s@.len() as int)) == words(s@),
        decreases s.len() - i,
    {
        let ghost rest = s@.subrange(i as int, s@.len() as int);
        if is_whitespace(s[i]) {
            assert(rest.drop_first() =~= s@.subrange(i + 1, s@.len() as int));
            i = i + 1;
        } else {
            let mut j: usize = i;
            assert(rest =~= s@.subrange(j as int, s@.len() as int));
            while j < s.len() && !is_whitespace(s[j])
                invariant
                    i <= j <= s.len(),
                    rest == s@.subrange(i as int, s@.len() as int),
                    word_len(rest) == (j - i) + word_len(s@.subrange(j as int, s@.len() as int)),
                decreases s.len() - j,
            {
                assert(s@.subrange(j as int, s@.len() as int).drop_first() =~= s@.subrange(
                    j + 1,
                    s@.len() as int,
                ));
                j = j + 1;
            }
            let w = sub_vec(s, i, j);
            out.push(w);
            proof {
                lemma_word_len(rest);
                assert(word_len(s@.subrange(j as int, s@.len() as int)) == 0);
                assert(rest.subrange(0, (j - i) as int) =~= w@);
                assert(rest.subrange((j - i) as int, rest.len() as int) =~= s@.subrange(
                    j as int,
                    s@.len() as int,
                ));
                let old_acc = acc;
                acc = acc.push(w@);
                assert(old_acc + (seq![w@] + words(s@.subrange(j as int, s@.len() as int))) =~= acc
                    + words(s@.subrange(j as int, s@.len() as int)));
            }
            i = j;
        }
    }
    proof {
        assert(words(s@.subrange(i as int, s@.len() as int)) =~= Seq::<Seq<char>>::empty());
        assert(acc + Seq::<Seq<char>>::empty() =~= acc);
    }
    out
}

/// Parse a single `"<n><spdf><count>"` token, e.g. `"3p5"` -> `(3, 5)`.
fn parse_subshell(token: &Vec<char>) -> (r: Option<(u8, u8)>)
    ensures
        r == parse_subshell_spec(token@),
{
    if token.len() < 2 {
        return None;
    }
    let c0 = token[0];
    if !('0' <= c0 && c0 <= '9') {
        return None;
    }
    let n = (c0 as u32 - '0' as u32) as u8;
    let sub = token[1];
    if !(sub == 's' || sub == 'p' || sub == 'd' || sub == 'f') {
        return None;
    }
    let count = sub_vec(token, 2, token.len());
    if count.len() == 0 {
        return None;
    }
    match parse_u8(&count) {
        Some(c) => Some((n, c)),
        None => None,
    }
}

/// The highest-shell valence count, or `None` when it exceeds `u8::MAX`.
pub fn try_parse_valence_electrons(config: &str, group: u8) -> (r: Option<u8>)
    ensures
        r matches Some(v) ==> v == valence_of(config@, group as int),
        r is None <==> !(valence_fits(config@) || strip_core(config@).len() == 0
            || parsed_subshells(words(strip_core(config@))).len() == 0),
{
    let chars = chars_of(config);
    let stripped = strip_noble_gas_prefix(&chars);
    if stripped.len() == 0 {
        return Some(group_to_valence_fallback(group));
    }
    let tokens = split_words(&stripped);
    let mut subshells: Vec<(u8, u8)> = Vec::new();
    let mut i: usize = 0;
    while i < tokens.len()
        invariant
            i <= tokens.len(),
            tokens@.len() == words(stripped@).len(),
            forall|k: int| 0 <= k < tokens@.len() ==> #[trigger] tokens@[k]@ == words(stripped@)[k],
            subshells@ == parsed_subshells(words(stripped@).subrange(0, i as int)),
        decreases tokens.len() - i,
    {
        proof {
            assert(words(stripped@).subrange(0, i + 1).drop_last() =~= words(stripped@).subrange(
                0,
                i as int,
            ));
            assert(tokens@[i as int]@ == words(stripped@)[i as int]);
        }
        match parse_subshell(&tokens[i]) {
            Some(p) => subshells.push(p),
            None => {},
        }
        i = i + 1;
    }
    assert(words(stripped@).subrange(0, i as int) =~= words(stripped@));
    if subshells.len() == 0 {
        return Some(group_to_valence_fallback(group));
    }
    let mut max_n: u8 = 0;
    let mut k: usize = 0;
    while k < subshells.len()
        invariant
            k <= subshells.len(),
            max_n == max_shell(subshells@.subrange(0, k as int)),
        decreases subshells.len() - k,
    {
        proof {
            assert(subshells@.subrange(0, k + 1).drop_last() =~= subshells@.subrange(0, k as int));
        }
        if subshells[k].0 > max_n {
            max_n = subshells[k].0;
        }
        k = k + 1;
    }
    assert(subshells@.subrange(0, k as int) =~= subshells@);
    let mut total: u64 = 0;
    let mut m: usize = 0;
    while m < subshells.len()
        invariant
            m <= subshells.len(),
            total == count_in_shell(subshells@.subrange(0, m as int), max_n as int),
            total <= 255,
            max_n == max_shell(subshells@),
            subshells@ == parsed_subshells(words(strip_core(config@))),
        decreases subshells.len() - m,
    {
        proof {
            assert(subshells@.subrange(0, m + 1).drop_last() =~= subshells@.subrange(0, m as int));
        }
        if subshells[m].0 == max_n {
            total = total + subshells[m].1 as u64;
        }
        m = m + 1;
        if total > 255 {
            proof {
                lemma_count_prefix(subshells@, m as int, max_n as int);
            }
            return None;
        }
    }
    assert(subshells@.subrange(0, m as int) =~= subshells@);
    Some(total as u8)
}

/// Parse the count of electrons in the highest principal shell from a
/// configuration like `"1s2 2s2 2p6 3s1"` or `"[Ne] 3s2 3p3"`.
///
/// Falls back to [`group_to_valence_fallback`] when the string is empty (after
/// stripping a noble-gas prefix) or has no parseable subshell tokens.
pub fn parse_valence_electrons(config: &str, group: u8) -> (r: u8)
    requires
        valence_fits(config@),
    ensures
        r == valence_of(config@, group as int),
{
    match try_parse_valence_electrons(config, group) {
        Some(v) => v,
        None => 0,
    }
}

/// A run of non-whitespace characters is one word long.
proof fn lemma_word_len_plain(t: Seq<char>)
    requires
        forall|i: int| 0 <= i < t.len() ==> !spec_is_whitespace(#[trigger] t[i]),
    ensures
        word_len(t) == t.len(),
    decreases t.len(),
{
    if t.len() > 0 {
        let r = t.drop_first();
        assert forall|i: int| 0 <= i < r.len() implies !spec_is_whitespace(#[trigger] r[i]) by {
            assert(r[i] == t[i + 1]);
        }
        lemma_word_len_plain(r);
    }
}

/// A non-empty text without whitespace is a single word.
pub(crate) proof fn lemma_words_plain(t: Seq<char>)
    requires
        t.len() > 0,
        forall|i: int| 0 <= i < t.len() ==> !spec_is_whitespace(#[trigger] t[i]),
    ensures
        words(t) == seq![t],
{
    lemma_word_len_plain(t);
    assert(t.subrange(0, t.len() as int) =~= t);
    assert(t.subrange(t.len() as int, t.len() as int) =~= Seq::<char>::empty());
    assert(words(Seq::<char>::empty()) == Seq::<Seq<char>>::empty());
    assert(seq![t] + Seq::<Seq<char>>::empty() =~= seq![t]);
}

/// A word that starts in text ending with whitespace ends inside it.
proof fn lemma_word_len_concat(a: Seq<char>, b: Seq<char>)
    requires
        a.len() > 0,
        spec_is_whitespace(a.last()),
    ensures
        word_len(a + b) == word_len(a),
        word_len(a) < a.len(),
    decreases a.len(),
{
    if !spec_is_whitespace(a[0]) {
        assert(a.len() >= 2);
        let r = a.drop_first();
        assert(r.last() == a.last());
        lemma_word_len_concat(r, b);
        assert((a + b).drop_first() =~= r + b);
        assert((a + b)[0] == a[0]);
    }
}

/// Splitting after whitespace splits the words.
pub(crate) proof fn lemma_words_concat(a: Seq<char>, b: Seq<char>)
    requires
        a.len() > 0,
        spec_is_whitespace(a.last()),
    ensures
        words(a + b) == words(a) + words(b),
    decreases a.len(),
{
    let x = a + b;
    assert(x[0] == a[0]);
    if spec_is_whitespace(a[0]) {
        if a.len() == 1 {
            assert(x.drop_first() =~= b);
            assert(a.drop_first() =~= Seq::<char>::empty());
            assert(words(Seq::<char>::empty()) == Seq::<Seq<char>>::empty());
            assert(Seq::<Seq<char>>::empty() + words(b) =~= words(b));
        } else {
            let r = a.drop_first();
            assert(r.last() == a.last());
            lemma_words_concat(r, b);
            assert(x.drop_first() =~= r + b);
        }
    } else {
        lemma_word_len_concat(a, b);
        lemma_word_len(a);
        let k = word_len(a);
        let rest = a.subrange(k as int, a.len() as int);
        assert(rest.last() == a.last());
        lemma_words_concat(rest, b);
        assert(x.subrange(0, k as int) =~= a.subrange(0, k as int));
        assert(x.subrange(k as int, x.len() as int) =~= rest + b);
        assert(seq![a.subrange(0, k as int)] + (words(rest) + words(b)) =~= (seq![a.subrange(0, k as int)]
            + words(rest)) + words(b));
    }
}

/// Trailing whitespace does not change the first word's length.
proof fn lemma_word_len_push_ws(x: Seq<char>, c: char)
    requires
        spec_is_whitespace(c),
    ensures
        word_len(x.push(c)) == word_len(x),
    decreases x.len(),
{
    if x.len() > 0 && !spec_is_whitespace(x[0]) {
        lemma_word_len_push_ws(x.drop_first(), c);
        assert(x.push(c).drop_first() =~= x.drop_first().push(c));
    }
    if x.len() == 0 {
        assert(x.push(c)[0] == c);
    }
}

/// Trailing whitespace adds no word.
pub(crate) proof fn lemma_words_trailing(x: Seq<char>, c: char)
    requires
        spec_is_whitespace(c),
    ensures
        words(x.push(c)) == words(x),
    decreases x.len(),
{
    let y = x.push(c);
    if x.len() == 0 {
        assert(y[0] == c);
        assert(y.drop_first() =~= Seq::<char>::empty());
        assert(words(Seq::<char>::empty()) == Seq::<Seq<char>>::empty());
        assert(words(y) == words(y.drop_first()));
    } else if spec_is_whitespace(x[0]) {
        assert(y[0] == x[0]);
        assert(y.drop_first() =~= x.drop_first().push(c));
        lemma_words_trailing(x.drop_first(), c);
    } else {
        assert(y[0] == x[0]);
        lemma_word_len_push_ws(x, c);
        lemma_word_len(x);
        let k = word_len(x);
        let rest = x.subrange(k as int, x.len() as int);
        lemma_words_trailing(rest, c);
        assert(y.subrange(0, k as int) =~= x.subrange(0, k as int));
        assert(y.subrange(k as int, y.len() as int) =~= rest.push(c));
        assert(words(y) == seq![y.subrange(0, k as int)] + words(y.subrange(k as int, y.len() as int)));
        assert(words(x) == seq![x.subrange(0, k as int)] + words(rest));
    }
}

/// A decimal digit's character.
pub(crate) proof fn lemma_digit_char(d: int)
    requires
        0 <= d < 10,
    ensures
        '0' <= digit_char(d) <= '9',
        (digit_char(d) as int) - ('0' as int) == d,
{
}

/// The decimal text of `n` is a non-empty run of digits worth `n`.
pub(crate) proof fn lemma_decimal_digits(n: nat)
    ensures
        decimal(n).len() >= 1,
        all_digits(decimal(n)),
        digits_value(decimal(n)) == n,
    decreases n,
{
    if n < 10 {
        lemma_digit_char(n as int);
        let s = decimal(n);
        assert(s.drop_last() =~= Seq::<char>::empty());
        assert(digits_value(Seq::<char>::empty()) == 0);
        assert(digits_value(s) == digits_value(s.drop_last()) * 10 + ((s.last() as int) - ('0' as int)) as nat);
    } else {
        lemma_decimal_digits(n / 10);
        lemma_digit_char((n % 10) as int);
        let d = decimal(n / 10);
        let s = decimal(n);
        assert(s == d.push(digit_char((n % 10) as int)));
        assert(s.drop_last() =~= d);
        vstd::arithmetic::div_mod::lemma_fundamental_div_mod(n as int, 10);
        assert(digits_value(s) == digits_value(d) * 10 + ((s.last() as int) - ('0' as int)) as nat);
        assert forall|i: int| 0 <= i < s.len() implies '0' <= #[trigger] s[i] <= '9' by {
            if i < d.len() {
                assert(s[i] == d[i]);
            }
        }
    }
}

/// The decimal text of a byte reads back as that byte.
pub(crate) proof fn lemma_parse_decimal(n: nat)
    requires
        n <= 255,
    ensures
        parse_u8_spec(decimal(n)) == Some(n as u8),
{
    lemma_decimal_digits(n);
    let s = decimal(n);
    assert('0' <= s[0] <= '9');
}

/// The sum of all parsed counts.
pub open spec fn counts_sum(ps: Seq<(u8, u8)>) -> int
    decreases ps.len(),
{
    if ps.len() == 0 {
        0
    } else {
        counts_sum(ps.drop_last()) + ps.last().1 as int
    }
}

/// One shell's count is at most the sum of all counts.
pub(crate) proof fn lemma_count_le_sum(ps: Seq<(u8, u8)>, n: int)
    ensures
        count_in_shell(ps, n) <= counts_sum(ps),
    decreases ps.len(),
{
    if ps.len() > 0 {
        lemma_count_le_sum(ps.drop_last(), n);
    }
}

} // verus!
