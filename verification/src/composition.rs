//! Elemental composition: element symbol -> atom count, kept ordered by symbol
//! (the byte order of the symbols' UTF-8, which is their code-point order).
use crate::text::chars_of;
use crate::formula_text::{binary_formula, binary_formula_of, crossover_of, crossover_subscripts};
use crate::species::{Species, SpeciesModel};
use vstd::prelude::*;

verus! {

/// Lexicographic order of two strings by code point (the order of `String`).
pub open spec fn str_lt(a: Seq<char>, b: Seq<char>) -> bool
    decreases a.len(),
{
    if a.len() == 0 {
        b.len() > 0
    } else if b.len() == 0 {
        false
    } else if a[0] != b[0] {
        a[0] < b[0]
    } else {
        str_lt(a.drop_first(), b.drop_first())
    }
}

pub proof fn lemma_str_lt_irreflexive(a: Seq<char>)
    ensures
        !str_lt(a, a),
    decreases a.len(),
{
    if a.len() > 0 {
        lemma_str_lt_irreflexive(a.drop_first());
    }
}

pub proof fn lemma_str_lt_total(a: Seq<char>, b: Seq<char>)
    ensures
        a != b ==> str_lt(a, b) || str_lt(b, a),
        !(str_lt(a, b) && str_lt(b, a)),
    decreases a.len(),
{
    if a.len() > 0 && b.len() > 0 {
        if a[0] == b[0] {
            lemma_str_lt_total(a.drop_first(), b.drop_first());
            if a.drop_first() == b.drop_first() {
                assert(a =~= seq![a[0]] + a.drop_first());
                assert(b =~= seq![b[0]] + b.drop_first());
            }
        } else {
        }
    } else if a.len() == 0 && b.len() == 0 {
        assert(a =~= b);
    }
}

pub proof fn lemma_str_lt_transitive(a: Seq<char>, b: Seq<char>, c: Seq<char>)
    requires
        str_lt(a, b),
        str_lt(b, c),
    ensures
        str_lt(a, c),
    decreases a.len(),
{
    if a.len() > 0 && b.len() > 0 && c.len() > 0 {
        if a[0] == b[0] && b[0] == c[0] {
            lemma_str_lt_transitive(a.drop_first(), b.drop_first(), c.drop_first());
        } else if a[0] == c[0] {
            if (b[0] as u32) == (c[0] as u32) {
                assert(b[0] == c[0]);
            }
        }
    }
}

/// Whether `a` orders before `b`.
pub fn str_less(a: &str, b: &str) -> (r: bool)
    ensures
        r == str_lt(a@, b@),
{
    let va = chars_of(a);
    let vb = chars_of(b);
    let mut i: usize = 0;
    assert(va@.subrange(0, va@.len() as int) =~= va@);
    assert(vb@.subrange(0, vb@.len() as int) =~= vb@);
    while i < va.len() && i < vb.len() && va[i] == vb[i]
        invariant
            i <= va.len(),
            i <= vb.len(),
            str_lt(a@, b@) == str_lt(va@.subrange(i as int, va@.len() as int), vb@.subrange(
                i as int,
                vb@.len() as int,
            )),
            va@ == a@,
            vb@ == b@,
        decreases va.len() - i,
    {
        proof {
            assert(va@.subrange(i as int, va@.len() as int).drop_first() =~= va@.subrange(
                i + 1,
                va@.len() as int,
            ));
            assert(vb@.subrange(i as int, vb@.len() as int).drop_first() =~= vb@.subrange(
                i + 1,
                vb@.len() as int,
            ));
        }
        i = i + 1;
    }
    if i == va.len() {
        i < vb.len()
    } else if i == vb.len() {
        false
    } else {
        let ca = va[i];
        let cb = vb[i];
        assert(va@.subrange(i as int, va@.len() as int)[0] == ca);
        assert(vb@.subrange(i as int, vb@.len() as int)[0] == cb);
        ca < cb
    }
}

/// The entries `(symbol, count)` are strictly increasing by symbol.
pub open spec fn sorted_entries(s: Seq<(Seq<char>, i64)>) -> bool {
    forall|i: int, j: int| 0 <= i < j < s.len() ==> str_lt(#[trigger] s[i].0, #[trigger] s[j].0)
}

/// The count recorded for `k`, if any (the first entry with that symbol).
pub open spec fn lookup(s: Seq<(Seq<char>, i64)>, k: Seq<char>) -> Option<i64>
    decreases s.len(),
{
    if s.len() == 0 {
        None
    } else if s[0].0 == k {
        Some(s[0].1)
    } else {
        lookup(s.drop_first(), k)
    }
}

/// Where `k` goes in `s`: before the first entry that does not order before it.
pub open spec fn slot(s: Seq<(Seq<char>, i64)>, k: Seq<char>) -> int
    decreases s.len(),
{
    if s.len() == 0 {
        0
    } else if !str_lt(s[0].0, k) {
        0
    } else {
        1 + slot(s.drop_first(), k)
    }
}

/// `s` with `k` mapped to `v`: the entry replaced when present, else inserted
/// at its ordered place.
pub open spec fn with_entry(s: Seq<(Seq<char>, i64)>, k: Seq<char>, v: i64) -> Seq<
    (Seq<char>, i64),
> {
    let p = slot(s, k);
    if p < s.len() && s[p].0 == k {
        s.update(p, (k, v))
    } else {
        s.insert(p, (k, v))
    }
}

/// `s` without the entry for `k`.
pub open spec fn without_entry(s: Seq<(Seq<char>, i64)>, k: Seq<char>) -> Seq<(Seq<char>, i64)> {
    let p = slot(s, k);
    if p < s.len() && s[p].0 == k {
        s.remove(p)
    } else {
        s
    }
}

/// An elemental composition: element symbol -> atom count, ordered by symbol.
#[derive(Debug, Clone, PartialEq, Eq)]
pub struct Composition {
    entries: Vec<(String, i64)>,
}

impl View for Composition {
    type V = Seq<(Seq<char>, i64)>;

    closed spec fn view(&self) -> Seq<(Seq<char>, i64)> {
        self.entries@.map_values(|e: (String, i64)| (e.0@, e.1))
    }
}

proof fn lemma_slot_bounds(s: Seq<(Seq<char>, i64)>, k: Seq<char>)
    ensures
        0 <= slot(s, k) <= s.len(),
        forall|i: int| 0 <= i < slot(s, k) ==> str_lt(#[trigger] s[i].0, k),
        slot(s, k) < s.len() ==> !str_lt(s[slot(s, k)].0, k),
    decreases s.len(),
{
    if s.len() > 0 && str_lt(s[0].0, k) {
        lemma_slot_bounds(s.drop_first(), k);
        assert forall|i: int| 0 <= i < slot(s, k) implies str_lt(#[trigger] s[i].0, k) by {
            if i > 0 {
                assert(s[i] == s.drop_first()[i - 1]);
            }
        }
    }
}

/// In a sorted sequence the lookup of `k` is found exactly at its slot.
proof fn lemma_lookup_sorted(s: Seq<(Seq<char>, i64)>, k: Seq<char>)
    requires
        sorted_entries(s),
    ensures
        lookup(s, k) == (if slot(s, k) < s.len() && s[slot(s, k)].0 == k {
            Some(s[slot(s, k)].1)
        } else {
            None
        }),
    decreases s.len(),
{
    lemma_slot_bounds(s, k);
    if s.len() > 0 {
        assert(sorted_entries(s.drop_first())) by {
            assert forall|i: int, j: int| 0 <= i < j < s.drop_first().len() implies str_lt(
                #[trigger] s.drop_first()[i].0,
                #[trigger] s.drop_first()[j].0,
            ) by {
                assert(s.drop_first()[i] == s[i + 1]);
                assert(s.drop_first()[j] == s[j + 1]);
            }
        }
        lemma_lookup_sorted(s.drop_first(), k);
        if s[0].0 == k {
            lemma_str_lt_irreflexive(k);
        } else if !str_lt(s[0].0, k) {
            // every later key is greater than s[0].0 and hence than k
            lemma_str_lt_total(s[0].0, k);
            if lookup(s.drop_first(), k) is Some {
                lemma_lookup_found(s.drop_first(), k);
                let j = choose|j: int| 0 <= j < s.drop_first().len() && s.drop_first()[j].0 == k && Some(s.drop_first()[j].1) == lookup(s.drop_first(), k);
                assert(s.drop_first()[j] == s[j + 1]);
                assert(str_lt(s[0].0, s[j + 1].0));
                lemma_str_lt_total(k, s[0].0);
            }
        }
    }
}

/// `lookup` finds an entry carrying the symbol when it returns a count, and
/// no entry carries the symbol when it returns `None`.
pub proof fn lemma_lookup_found_pub(s: Seq<(Seq<char>, i64)>, k: Seq<char>)
    ensures
        lookup(s, k) is Some ==> exists|j: int| 0 <= j < s.len() && s[j].0 == k && Some(s[j].1) == lookup(s, k),
        lookup(s, k) is None ==> forall|j: int| 0 <= j < s.len() ==> s[j].0 != k,
{
    lemma_lookup_found(s, k);
}

proof fn lemma_lookup_found(s: Seq<(Seq<char>, i64)>, k: Seq<char>)
    ensures
        lookup(s, k) is Some ==> exists|j: int| 0 <= j < s.len() && s[j].0 == k && Some(s[j].1) == lookup(s, k),
        lookup(s, k) is None ==> forall|j: int| 0 <= j < s.len() ==> s[j].0 != k,
    decreases s.len(),
{
    if s.len() > 0 {
        lemma_lookup_found(s.drop_first(), k);
        if s[0].0 != k {
            if lookup(s, k) is Some {
                let j = choose|j: int| 0 <= j < s.drop_first().len() && s.drop_first()[j].0 == k && Some(s.drop_first()[j].1) == lookup(s.drop_first(), k);
                assert(s[j + 1] == s.drop_first()[j]);
            } else {
                assert forall|j: int| 0 <= j < s.len() implies s[j].0 != k by {
                    if j > 0 {
                        assert(s[j] == s.drop_first()[j - 1]);
                    }
                }
            }
        }
    }
}

/// Setting an entry keeps the entries ordered, and afterwards the symbol maps
/// to the new count while every other symbol keeps its count.
pub proof fn law_with_entry(s: Seq<(Seq<char>, i64)>, k: Seq<char>, v: i64)
    requires
        sorted_entries(s),
    ensures
        sorted_entries(with_entry(s, k, v)),
        lookup(with_entry(s, k, v), k) == Some(v),
        forall|k2: Seq<char>| k2 != k ==> lookup(with_entry(s, k, v), k2) == lookup(s, k2),
{
    lemma_slot_bounds(s, k);
    let p = slot(s, k);
    let t = with_entry(s, k, v);
    if p < s.len() && s[p].0 == k {
        assert forall|i: int, j: int| 0 <= i < j < t.len() implies str_lt(
            #[trigger] t[i].0,
            #[trigger] t[j].0,
        ) by {}
    } else {
        assert forall|i: int, j: int| 0 <= i < j < t.len() implies str_lt(
            #[trigger] t[i].0,
            #[trigger] t[j].0,
        ) by {
            if j == p {
                assert(t[i] == s[i]);
            } else if i == p {
                assert(t[j] == s[j - 1]);
                lemma_str_lt_total(s[p].0, k);
                if j - 1 > p {
                    assert(str_lt(s[p].0, s[j - 1].0));
                    lemma_str_lt_transitive(k, s[p].0, s[j - 1].0);
                }
            } else if i < p && j > p {
                assert(t[i] == s[i]);
                assert(t[j] == s[j - 1]);
            } else if j < p {
            } else {
                assert(t[i] == s[i - 1]);
                assert(t[j] == s[j - 1]);
            }
        }
    }
    lemma_str_lt_irreflexive(k);
    assert forall|i: int| 0 <= i < p implies str_lt(#[trigger] t[i].0, k) by {
        assert(t[i] == s[i]);
    }
    lemma_slot_is(t, k, p);
    lemma_lookup_sorted(t, k);
    assert forall|k2: Seq<char>| k2 != k implies lookup(with_entry(s, k, v), k2) == lookup(s, k2) by {
        lemma_lookup_found(s, k2);
        lemma_lookup_found(t, k2);
        lemma_lookup_unique(s, k2);
        lemma_lookup_unique(t, k2);
        if lookup(s, k2) is Some {
            let j = choose|j: int| 0 <= j < s.len() && s[j].0 == k2 && Some(s[j].1) == lookup(s, k2);
            if p < s.len() && s[p].0 == k {
                assert(t[j] == s[j]);
            } else if j < p {
                assert(t[j] == s[j]);
            } else {
                assert(t[j + 1] == s[j]);
            }
        } else if lookup(t, k2) is Some {
            let j = choose|j: int| 0 <= j < t.len() && t[j].0 == k2 && Some(t[j].1) == lookup(t, k2);
            if p < s.len() && s[p].0 == k {
                assert(t[j] == s[j]);
            } else if j < p {
                assert(t[j] == s[j]);
            } else if j > p {
                assert(t[j] == s[j - 1]);
            }
        }
    }
}

proof fn lemma_slot_is(s: Seq<(Seq<char>, i64)>, k: Seq<char>, p: int)
    requires
        0 <= p <= s.len(),
        forall|i: int| 0 <= i < p ==> str_lt(#[trigger] s[i].0, k),
        p < s.len() ==> !str_lt(s[p].0, k),
    ensures
        slot(s, k) == p,
    decreases s.len(),
{
    if s.len() > 0 && p > 0 {
        assert(str_lt(s[0].0, k));
        assert forall|i: int| 0 <= i < p - 1 implies str_lt(#[trigger] s.drop_first()[i].0, k) by {
            assert(s.drop_first()[i] == s[i + 1]);
        }
        lemma_slot_is(s.drop_first(), k, p - 1);
    }
}

/// In sorted entries a symbol occurs at most once, and lookup finds its count.
pub(crate) proof fn lemma_lookup_unique(s: Seq<(Seq<char>, i64)>, k: Seq<char>)
    requires
        sorted_entries(s),
    ensures
        forall|j: int| 0 <= j < s.len() && s[j].0 == k ==> lookup(s, k) == Some(#[trigger] s[j].1),
    decreases s.len(),
{
    if s.len() > 0 {
        assert(sorted_entries(s.drop_first())) by {
            assert forall|i: int, j: int| 0 <= i < j < s.drop_first().len() implies str_lt(
                #[trigger] s.drop_first()[i].0,
                #[trigger] s.drop_first()[j].0,
            ) by {
                assert(s.drop_first()[i] == s[i + 1]);
                assert(s.drop_first()[j] == s[j + 1]);
            }
        }
        lemma_lookup_unique(s.drop_first(), k);
        assert forall|j: int| 0 <= j < s.len() && s[j].0 == k implies lookup(s, k) == Some(
            #[trigger] s[j].1,
        ) by {
            if j > 0 {
                assert(s[j] == s.drop_first()[j - 1]);
                if s[0].0 == k {
                    assert(str_lt(s[0].0, s[j].0));
                    lemma_str_lt_irreflexive(k);
                }
            }
        }
    }
}

impl Composition {
    /// The entries are ordered by symbol, each symbol once.
    pub open spec fn wf(&self) -> bool {
        sorted_entries(self@)
    }

    /// An empty composition.
    pub fn new() -> (c: Composition)
        ensures
            c@ == Seq::<(Seq<char>, i64)>::empty(),
            c.wf(),
    {
        Composition { entries: Vec::new() }
    }

    /// The number of distinct elements.
    pub fn len(&self) -> (n: usize)
        ensures
            n == self@.len(),
    {
        self.entries.len()
    }

    /// The `i`-th entry in symbol order.
    pub fn entry(&self, i: usize) -> (e: (String, i64))
        requires
            i < self@.len(),
        ensures
            e.0@ == self@[i as int].0,
            e.1 == self@[i as int].1,
    {
        let (k, v) = &self.entries[i];
        (k.clone(), *v)
    }

    /// All entries, in symbol order.
    pub fn pairs(&self) -> (v: Vec<(String, i64)>)
        ensures
            v@.len() == self@.len(),
            forall|j: int|
                0 <= j < v@.len() ==> (#[trigger] v@[j]).0@ == self@[j].0 && v@[j].1 == self@[j].1,
    {
        let mut out: Vec<(String, i64)> = Vec::new();
        let mut i: usize = 0;
        while i < self.entries.len()
            invariant
                i <= self.entries.len(),
                out@.len() == i,
                forall|j: int|
                    0 <= j < i ==> (#[trigger] out@[j]).0@ == self@[j].0 && out@[j].1 == self@[j].1,
            decreases self.entries.len() - i,
        {
            let e = self.entry(i);
            out.push(e);
            i = i + 1;
        }
        out
    }

    /// A copy holding the same entries.
    pub fn duplicate(&self) -> (c: Composition)
        ensures
            c@ == self@,
    {
        let c = Composition { entries: self.pairs() };
        assert(c@ =~= self@);
        c
    }

    /// The count for `symbol`, if present.
    pub fn get(&self, symbol: &str) -> (r: Option<i64>)
        ensures
            r == lookup(self@, symbol@),
    {
        let mut i: usize = 0;
        assert(self@.subrange(0, self@.len() as int) =~= self@);
        while i < self.entries.len()
            invariant
                i <= self.entries.len(),
                lookup(self@, symbol@) == lookup(self@.subrange(i as int, self@.len() as int), symbol@),
            decreases self.entries.len() - i,
        {
            assert(self@.subrange(i as int, self@.len() as int).drop_first() =~= self@.subrange(
                i + 1,
                self@.len() as int,
            ));
            if crate::text::str_eq(self.entries[i].0.as_str(), symbol) {
                return Some(self.entries[i].1);
            }
            i = i + 1;
        }
        None
    }

    /// Whether `symbol` is present.
    pub fn contains_key(&self, symbol: &str) -> (b: bool)
        ensures
            b == (lookup(self@, symbol@) is Some),
    {
        self.get(symbol).is_some()
    }

    fn find_slot(&self, symbol: &str) -> (p: usize)
        ensures
            p == slot(self@, symbol@),
    {
        let mut i: usize = 0;
        assert(self@.subrange(0, self@.len() as int) =~= self@);
        while i < self.entries.len()
            invariant
                i <= self.entries.len(),
                slot(self@, symbol@) == i + slot(self@.subrange(i as int, self@.len() as int), symbol@),
            decreases self.entries.len() - i,
        {
            assert(self@.subrange(i as int, self@.len() as int).drop_first() =~= self@.subrange(
                i + 1,
                self@.len() as int,
            ));
            if !str_less(self.entries[i].0.as_str(), symbol) {
                return i;
            }
            i = i + 1;
        }
        i
    }

    /// Maps `symbol` to `count`, replacing any previous count.
    pub fn insert(&mut self, symbol: String, count: i64)
        ensures
            final(self)@ == with_entry(old(self)@, symbol@, count),
    {
        let p = self.find_slot(symbol.as_str());
        proof {
            lemma_slot_bounds(self@, symbol@);
        }
        if p < self.entries.len() && crate::text::str_eq(self.entries[p].0.as_str(), symbol.as_str()) {
            self.entries.set(p, (symbol, count));
            proof {
                assert(self@ =~= with_entry(old(self)@, symbol@, count));
            }
        } else {
            self.entries.insert(p, (symbol, count));
            proof {
                assert(self@ =~= with_entry(old(self)@, symbol@, count));
            }
        }
    }

    /// Removes the entry for `symbol`, if any.
    pub fn remove(&mut self, symbol: &str)
        ensures
            final(self)@ == without_entry(old(self)@, symbol@),
    {
        let p = self.find_slot(symbol);
        proof {
            lemma_slot_bounds(self@, symbol@);
        }
        if p < self.entries.len() && crate::text::str_eq(self.entries[p].0.as_str(), symbol) {
            self.entries.remove(p);
            proof {
                assert(self@ =~= without_entry(old(self)@, symbol@));
            }
        }
    }

    /// A composition from `(symbol, count)` pairs, later pairs overriding earlier ones.
    pub fn from_pairs(pairs: &[(&str, i64)]) -> (c: Composition)
        ensures
            c.wf(),
            c@ == entries_from_pairs(pairs@, pairs@.len() as int),
    {
        let mut c = Composition::new();
        let mut i: usize = 0;
        while i < pairs.len()
            invariant
                i <= pairs.len(),
                c.wf(),
                c@ == entries_from_pairs(pairs@, i as int),
            decreases pairs.len() - i,
        {
            let (k, v) = pairs[i];
            let ks = crate::text::string_of(&chars_of(k));
            proof {
                law_with_entry(c@, ks@, v);
            }
            c.insert(ks, v);
            i = i + 1;
        }
        c
    }
}

/// The entries built from the first `k` pairs, each setting its symbol's
/// count (a later pair replaces an earlier one).
pub open spec fn entries_from_pairs(pairs: Seq<(&str, i64)>, k: int) -> Seq<(Seq<char>, i64)>
    decreases k,
{
    if k <= 0 {
        Seq::empty()
    } else {
        with_entry(entries_from_pairs(pairs, k - 1), pairs[k - 1].0@, pairs[k - 1].1)
    }
}

/// How many atoms of `s` the entries hold (0 when absent).
pub open spec fn count_in(c: Seq<(Seq<char>, i64)>, s: Seq<char>) -> int {
    match lookup(c, s) {
        Some(v) => v as int,
        None => 0,
    }
}

/// Every count multiplied by `n`.
pub open spec fn scale_entries(c: Seq<(Seq<char>, i64)>, n: i64) -> Seq<(Seq<char>, i64)> {
    c.map_values(|e: (Seq<char>, i64)| (e.0, (e.1 * n) as i64))
}

/// Every count times `n` stays within `i64`.
pub open spec fn scale_fits(c: Seq<(Seq<char>, i64)>, n: i64) -> bool {
    forall|i: int| 0 <= i < c.len() ==> i64::MIN <= (#[trigger] c[i]).1 * n <= i64::MAX
}

/// What merging `a` and `b` maps `s` to: absent when both lack it, else the
/// sum of the two counts.
pub open spec fn merged(a: Seq<(Seq<char>, i64)>, b: Seq<(Seq<char>, i64)>, s: Seq<char>) -> Option<i64> {
    if lookup(a, s) is None && lookup(b, s) is None {
        None
    } else {
        Some((count_in(a, s) + count_in(b, s)) as i64)
    }
}

/// Every summed count of a merge stays within `i64`.
pub open spec fn merge_fits(a: Seq<(Seq<char>, i64)>, b: Seq<(Seq<char>, i64)>) -> bool {
    forall|s: Seq<char>| i64::MIN <= #[trigger] count_in(a, s) + count_in(b, s) <= i64::MAX
}

/// Looking up in a sequence extended by one entry.
proof fn lemma_lookup_push(t: Seq<(Seq<char>, i64)>, x: (Seq<char>, i64), k: Seq<char>)
    ensures
        lookup(t.push(x), k) == (if lookup(t, k) is Some {
            lookup(t, k)
        } else if x.0 == k {
            Some(x.1)
        } else {
            None
        }),
    decreases t.len(),
{
    if t.len() > 0 {
        assert(t.push(x).drop_first() =~= t.drop_first().push(x));
        assert(t.push(x)[0] == t[0]);
        lemma_lookup_push(t.drop_first(), x, k);
    } else {
        assert(t.push(x).drop_first() =~= Seq::<(Seq<char>, i64)>::empty());
        assert(t.push(x)[0] == x);
        assert(lookup(Seq::<(Seq<char>, i64)>::empty(), k) is None);
    }
}

/// Looking up in a scaled sequence scales the count.
proof fn lemma_lookup_scaled(c: Seq<(Seq<char>, i64)>, n: i64, k: Seq<char>)
    ensures
        lookup(scale_entries(c, n), k) == (match lookup(c, k) {
            Some(v) => Some((v * n) as i64),
            None => None,
        }),
    decreases c.len(),
{
    if c.len() > 0 {
        assert(scale_entries(c, n).drop_first() =~= scale_entries(c.drop_first(), n));
        lemma_lookup_scaled(c.drop_first(), n, k);
    }
}

/// Every count multiplied by `n`.
pub fn scaled(comp: &Composition, n: i64) -> (r: Composition)
    requires
        comp.wf(),
        scale_fits(comp@, n),
    ensures
        r.wf(),
        r@ == scale_entries(comp@, n),
        forall|s: Seq<char>| #[trigger] count_in(r@, s) == count_in(comp@, s) * n,
        forall|s: Seq<char>| (#[trigger] lookup(r@, s)) is Some == lookup(comp@, s) is Some,
{
    let mut out: Vec<(String, i64)> = Vec::new();
    let mut i: usize = 0;
    while i < comp.entries.len()
        invariant
            i <= comp@.len(),
            scale_fits(comp@, n),
            out@.len() == i,
            forall|j: int|
                0 <= j < i ==> (#[trigger] out@[j]).0@ == comp@[j].0 && out@[j].1 == comp@[j].1 * n,
        decreases comp@.len() - i,
    {
        let (k, v) = comp.entry(i);
        assert(i64::MIN <= comp@[i as int].1 * n <= i64::MAX);
        out.push((k, v * n));
        i = i + 1;
    }
    let r = Composition { entries: out };
    assert(r@ =~= scale_entries(comp@, n));
    assert forall|s: Seq<char>| #[trigger] count_in(r@, s) == count_in(comp@, s) * n by {
        lemma_lookup_scaled(comp@, n, s);
        lemma_lookup_found(comp@, s);
    }
    assert forall|s: Seq<char>| (#[trigger] lookup(r@, s)) is Some == lookup(comp@, s) is Some by {
        lemma_lookup_scaled(comp@, n, s);
    }
    r
}

/// The merge of `a` and `b`: the ordered entries that map each symbol as
/// [`merged`] says.
pub open spec fn merge_of(a: Seq<(Seq<char>, i64)>, b: Seq<(Seq<char>, i64)>) -> Seq<(Seq<char>, i64)> {
    choose|r: Seq<(Seq<char>, i64)>| sorted_entries(r) && forall|s: Seq<char>| #[trigger] lookup(r, s) == merged(a, b, s)
}

/// The tail of sorted entries is sorted.
proof fn lemma_sorted_tail(x: Seq<(Seq<char>, i64)>)
    requires
        sorted_entries(x),
        x.len() > 0,
    ensures
        sorted_entries(x.drop_first()),
{
    assert forall|i: int, j: int| 0 <= i < j < x.drop_first().len() implies str_lt(
        #[trigger] x.drop_first()[i].0,
        #[trigger] x.drop_first()[j].0,
    ) by {
        assert(x.drop_first()[i] == x[i + 1]);
        assert(x.drop_first()[j] == x[j + 1]);
    }
}

/// Ordered entries are determined by what they map each symbol to.
pub proof fn lemma_sorted_ext(x: Seq<(Seq<char>, i64)>, y: Seq<(Seq<char>, i64)>)
    requires
        sorted_entries(x),
        sorted_entries(y),
        forall|s: Seq<char>| #[trigger] lookup(x, s) == lookup(y, s),
    ensures
        x == y,
    decreases x.len() + y.len(),
{
    if x.len() == 0 && y.len() == 0 {
        assert(x =~= y);
    } else if x.len() == 0 {
        assert(lookup(y, y[0].0) is Some);
        assert(lookup(x, y[0].0) is None);
    } else if y.len() == 0 {
        assert(lookup(x, x[0].0) is Some);
        assert(lookup(y, x[0].0) is None);
    } else {
        let k = x[0].0;
        let m = y[0].0;
        assert(lookup(x, k) == Some(x[0].1));
        assert(lookup(y, m) == Some(y[0].1));
        lemma_lookup_found(y, k);
        lemma_lookup_found(x, m);
        let j = choose|j: int| 0 <= j < y.len() && y[j].0 == k && Some(y[j].1) == lookup(y, k);
        let i = choose|i: int| 0 <= i < x.len() && x[i].0 == m && Some(x[i].1) == lookup(x, m);
        if j > 0 {
            assert(str_lt(y[0].0, y[j].0));
            if i > 0 {
                assert(str_lt(x[0].0, x[i].0));
                lemma_str_lt_transitive(m, k, m);
                lemma_str_lt_irreflexive(m);
            } else {
                lemma_str_lt_irreflexive(m);
            }
        }
        assert(j == 0);
        assert(x[0] == y[0]);
        lemma_sorted_tail(x);
        lemma_sorted_tail(y);
        lemma_lookup_unique(x, k);
        lemma_lookup_unique(y, k);
        assert forall|s: Seq<char>| #[trigger] lookup(x.drop_first(), s) == lookup(y.drop_first(), s) by {
            if s == k {
                lemma_lookup_found(x.drop_first(), s);
                lemma_lookup_found(y.drop_first(), s);
                if lookup(x.drop_first(), s) is Some {
                    let t = choose|t: int| 0 <= t < x.drop_first().len() && x.drop_first()[t].0 == s && Some(x.drop_first()[t].1) == lookup(x.drop_first(), s);
                    assert(x[t + 1].0 == k);
                    assert(str_lt(x[0].0, x[t + 1].0));
                    lemma_str_lt_irreflexive(k);
                }
                if lookup(y.drop_first(), s) is Some {
                    let t = choose|t: int| 0 <= t < y.drop_first().len() && y.drop_first()[t].0 == s && Some(y.drop_first()[t].1) == lookup(y.drop_first(), s);
                    assert(y[t + 1].0 == k);
                    assert(str_lt(y[0].0, y[t + 1].0));
                    lemma_str_lt_irreflexive(k);
                }
            } else {
                assert(lookup(x, s) == lookup(x.drop_first(), s));
                assert(lookup(y, s) == lookup(y.drop_first(), s));
            }
        }
        lemma_sorted_ext(x.drop_first(), y.drop_first());
        assert(x =~= y) by {
            assert forall|t: int| 0 <= t < x.len() implies x[t] == y[t] by {
                if t > 0 {
                    assert(x[t] == x.drop_first()[t - 1]);
                    assert(y[t] == y.drop_first()[t - 1]);
                }
            }
        }
    }
}

/// A well-formed result of a merge is [`merge_of`] its arguments.
proof fn lemma_is_merge_of(r: Seq<(Seq<char>, i64)>, a: Seq<(Seq<char>, i64)>, b: Seq<(Seq<char>, i64)>)
    requires
        sorted_entries(r),
        forall|s: Seq<char>| #[trigger] lookup(r, s) == merged(a, b, s),
    ensures
        r == merge_of(a, b),
{
    let m = merge_of(a, b);
    assert(sorted_entries(m) && forall|s: Seq<char>| #[trigger] lookup(m, s) == merged(a, b, s));
    assert forall|s: Seq<char>| #[trigger] lookup(r, s) == lookup(m, s) by {
        assert(lookup(r, s) == merged(a, b, s));
        assert(lookup(m, s) == merged(a, b, s));
    }
    lemma_sorted_ext(r, m);
}

/// Adds `b`'s counts into `a`, element by element.
pub fn merge(a: Composition, b: Composition) -> (r: Composition)
    requires
        a.wf(),
        b.wf(),
        merge_fits(a@, b@),
    ensures
        r.wf(),
        forall|s: Seq<char>| #[trigger] lookup(r@, s) == merged(a@, b@, s),
        r@ == merge_of(a@, b@),
{
    let mut out = a;
    let ghost a0 = out@;
    let mut j: usize = 0;
    assert forall|s: Seq<char>| #[trigger] lookup(out@, s) == merged(a0, b@.subrange(0, 0), s) by {
        assert(b@.subrange(0, 0) =~= Seq::<(Seq<char>, i64)>::empty());
    }
    while j < b.entries.len()
        invariant
            j <= b@.len(),
            out.wf(),
            b.wf(),
            merge_fits(a0, b@),
            forall|s: Seq<char>| #[trigger] lookup(out@, s) == merged(a0, b@.subrange(0, j as int), s),
        decreases b@.len() - j,
    {
        let (sym, c) = b.entry(j);
        let cur: i64 = match out.get(sym.as_str()) {
            Some(v) => v,
            None => 0,
        };
        proof {
            lemma_lookup_unique(b@, sym@);
            lemma_lookup_found(b@.subrange(0, j as int), sym@);
            if lookup(b@.subrange(0, j as int), sym@) is Some {
                let t = choose|t: int|
                    0 <= t < j && b@.subrange(0, j as int)[t].0 == sym@ && Some(
                        b@.subrange(0, j as int)[t].1,
                    ) == lookup(b@.subrange(0, j as int), sym@);
                assert(b@[t].0 == sym@);
                assert(str_lt(b@[t].0, b@[j as int].0));
                lemma_str_lt_irreflexive(sym@);
            }
            assert(i64::MIN <= count_in(a0, sym@) + count_in(b@, sym@) <= i64::MAX);
            assert(count_in(b@, sym@) == c);
        }
        let total: i64 = cur + c;
        proof {
            law_with_entry(out@, sym@, total);
        }
        let ghost before = out@;
        out.insert(sym, total);
        proof {
            assert(b@.subrange(0, j + 1) =~= b@.subrange(0, j as int).push(b@[j as int]));
            assert forall|s: Seq<char>| #[trigger] lookup(out@, s) == merged(
                a0,
                b@.subrange(0, j + 1),
                s,
            ) by {
                lemma_lookup_push(b@.subrange(0, j as int), b@[j as int], s);
                assert(lookup(before, s) == merged(a0, b@.subrange(0, j as int), s));
                assert(lookup(before, sym@) == merged(a0, b@.subrange(0, j as int), sym@));
            }
        }
        j = j + 1;
    }
    assert(b@.subrange(0, b@.len() as int) =~= b@);
    proof {
        lemma_is_merge_of(out@, a0, b@);
    }
    out
}

/// A charge, or the default when the species carries none.
pub open spec fn charge_or(c: Option<i8>, default: int) -> int {
    match c {
        Some(v) => v as int,
        None => default,
    }
}

/// The crossover subscripts of a cation/anion pair; a missing charge counts
/// as +1 for the cation and −1 for the anion.
pub open spec fn ionic_subs(cation: SpeciesModel, anion: SpeciesModel) -> (int, int) {
    crossover_of(charge_or(cation.charge, 1), charge_or(anion.charge, -1))
}

/// The display formula of the ionic compound of a cation/anion pair.
pub open spec fn ionic_formula(cation: SpeciesModel, anion: SpeciesModel) -> Seq<char> {
    let subs = ionic_subs(cation, anion);
    binary_formula_of(cation.symbol, subs.0, anion.symbol, subs.1, anion.is_polyatomic)
}

/// The two scaled parts of an ionic compound's composition.
pub open spec fn ionic_parts(cation: SpeciesModel, anion: SpeciesModel) -> (
    Seq<(Seq<char>, i64)>,
    Seq<(Seq<char>, i64)>,
) {
    let subs = ionic_subs(cation, anion);
    (scale_entries(cation.composition, subs.0 as i64), scale_entries(anion.composition, subs.1 as i64))
}

/// Building the ionic compound of the pair stays within `i64`.
pub open spec fn ionic_fits(cation: SpeciesModel, anion: SpeciesModel) -> bool {
    let subs = ionic_subs(cation, anion);
    &&& scale_fits(cation.composition, subs.0 as i64)
    &&& scale_fits(anion.composition, subs.1 as i64)
    &&& merge_fits(ionic_parts(cation, anion).0, ionic_parts(cation, anion).1)
}

/// Assemble an ionic compound from a cation/anion pair: crossover their
/// charges into subscripts, scale and merge their compositions, and build the
/// display formula. Returns the formula, the composition and the two
/// subscripts (by which the caller weighs the compound).
pub fn ionic_compound(cation: &Species, anion: &Species) -> (r: (String, Composition, i64, i64))
    requires
        cation.wf(),
        anion.wf(),
        ionic_fits(cation@, anion@),
    ensures
        r.0@ == ionic_formula(cation@, anion@),
        r.1.wf(),
        r.1@ == merge_of(ionic_parts(cation@, anion@).0, ionic_parts(cation@, anion@).1),
        r.2 == ionic_subs(cation@, anion@).0,
        r.3 == ionic_subs(cation@, anion@).1,
{
    let cation_charge: i64 = match cation.charge {
        Some(c) => c as i64,
        None => 1,
    };
    let anion_charge: i64 = match anion.charge {
        Some(c) => c as i64,
        None => -1,
    };
    let (cation_sub, anion_sub) = crossover_subscripts(cation_charge, anion_charge);
    let composition = merge(
        scaled(&cation.composition, cation_sub),
        scaled(&anion.composition, anion_sub),
    );
    let formula = binary_formula(
        cation.symbol.as_str(),
        cation_sub,
        anion.symbol.as_str(),
        anion_sub,
        anion.is_polyatomic,
    );
    (formula, composition, cation_sub, anion_sub)
}

/// Every count lies in `0..=2²⁰`.
pub open spec fn counts_bounded(c: Seq<(Seq<char>, i64)>) -> bool {
    forall|i: int| 0 <= i < c.len() ==> 0 <= (#[trigger] c[i]).1 <= 0x10_0000
}

/// Scaling bounded counts by at most 2²⁰ in magnitude stays within `i64`, and
/// so does merging two such scaled compositions.
pub proof fn lemma_bounded_scale_merge(a: Seq<(Seq<char>, i64)>, na: i64, b: Seq<(Seq<char>, i64)>, nb: i64)
    requires
        counts_bounded(a),
        counts_bounded(b),
        -0x10_0000 <= na <= 0x10_0000,
        -0x10_0000 <= nb <= 0x10_0000,
    ensures
        scale_fits(a, na),
        scale_fits(b, nb),
        merge_fits(scale_entries(a, na), scale_entries(b, nb)),
{
    assert forall|i: int| 0 <= i < a.len() implies i64::MIN <= (#[trigger] a[i]).1 * na <= i64::MAX by {
        let x = a[i].1;
        assert(-0x100_0000_0000 <= x * na <= 0x100_0000_0000) by (nonlinear_arith)
            requires
                0 <= x <= 0x10_0000,
                -0x10_0000 <= na <= 0x10_0000,
        ;
    }
    assert forall|i: int| 0 <= i < b.len() implies i64::MIN <= (#[trigger] b[i]).1 * nb <= i64::MAX by {
        let x = b[i].1;
        assert(-0x100_0000_0000 <= x * nb <= 0x100_0000_0000) by (nonlinear_arith)
            requires
                0 <= x <= 0x10_0000,
                -0x10_0000 <= nb <= 0x10_0000,
        ;
    }
    assert forall|s: Seq<char>| i64::MIN <= #[trigger] count_in(scale_entries(a, na), s) + count_in(
        scale_entries(b, nb),
        s,
    ) <= i64::MAX by {
        lemma_lookup_scaled(a, na, s);
        lemma_lookup_scaled(b, nb, s);
        lemma_lookup_found(a, s);
        lemma_lookup_found(b, s);
        let xa = count_in(a, s);
        let xb = count_in(b, s);
        assert(0 <= xa <= 0x10_0000);
        assert(0 <= xb <= 0x10_0000);
        assert(-0x100_0000_0000 <= xa * na <= 0x100_0000_0000) by (nonlinear_arith)
            requires
                0 <= xa <= 0x10_0000,
                -0x10_0000 <= na <= 0x10_0000,
        ;
        assert(-0x100_0000_0000 <= xb * nb <= 0x100_0000_0000) by (nonlinear_arith)
            requires
                0 <= xb <= 0x10_0000,
                -0x10_0000 <= nb <= 0x10_0000,
        ;
    }
}

/// `a` with `b[0..j]`'s counts added in, entry by entry.
pub open spec fn merge_fold(a: Seq<(Seq<char>, i64)>, b: Seq<(Seq<char>, i64)>, j: int) -> Seq<(Seq<char>, i64)>
    decreases j,
{
    if j <= 0 {
        a
    } else {
        let prev = merge_fold(a, b, j - 1);
        with_entry(prev, b[j - 1].0, (count_in(prev, b[j - 1].0) + b[j - 1].1) as i64)
    }
}

/// Folding `b` into `a` keeps the entries ordered and maps each symbol as
/// [`merged`] says of `a` and `b[0..j]`.
proof fn lemma_merge_fold(a: Seq<(Seq<char>, i64)>, b: Seq<(Seq<char>, i64)>, j: int)
    requires
        sorted_entries(a),
        sorted_entries(b),
        merge_fits(a, b),
        0 <= j <= b.len(),
    ensures
        sorted_entries(merge_fold(a, b, j)),
        forall|s: Seq<char>| #[trigger] lookup(merge_fold(a, b, j), s) == merged(a, b.subrange(0, j), s),
    decreases j,
{
    if j == 0 {
        assert forall|s: Seq<char>| #[trigger] lookup(merge_fold(a, b, j), s) == merged(a, b.subrange(0, j), s) by {
            assert(b.subrange(0, 0) =~= Seq::<(Seq<char>, i64)>::empty());
        }
    } else {
        lemma_merge_fold(a, b, j - 1);
        let prev = merge_fold(a, b, j - 1);
        let sym = b[j - 1].0;
        let pre = b.subrange(0, j - 1);
        lemma_lookup_unique(b, sym);
        lemma_lookup_found(pre, sym);
        if lookup(pre, sym) is Some {
            let t = choose|t: int| 0 <= t < pre.len() && pre[t].0 == sym && Some(pre[t].1) == lookup(pre, sym);
            assert(b[t].0 == sym);
            assert(str_lt(b[t].0, b[j - 1].0));
            lemma_str_lt_irreflexive(sym);
        }
        assert(lookup(prev, sym) == merged(a, pre, sym));
        assert(count_in(b, sym) == b[j - 1].1);
        assert(i64::MIN <= count_in(a, sym) + count_in(b, sym) <= i64::MAX);
        let total = (count_in(prev, sym) + b[j - 1].1) as i64;
        law_with_entry(prev, sym, total);
        assert(b.subrange(0, j) =~= pre.push(b[j - 1]));
        assert forall|s: Seq<char>| #[trigger] lookup(merge_fold(a, b, j), s) == merged(a, b.subrange(0, j), s) by {
            lemma_lookup_push(pre, b[j - 1], s);
            assert(lookup(prev, s) == merged(a, pre, s));
        }
    }
}

/// Ordered compositions whose merge fits have a merge.
pub proof fn lemma_merge_exists(a: Seq<(Seq<char>, i64)>, b: Seq<(Seq<char>, i64)>)
    requires
        sorted_entries(a),
        sorted_entries(b),
        merge_fits(a, b),
    ensures
        sorted_entries(merge_of(a, b)),
        forall|s: Seq<char>| #[trigger] lookup(merge_of(a, b), s) == merged(a, b, s),
{
    lemma_merge_fold(a, b, b.len() as int);
    assert(b.subrange(0, b.len() as int) =~= b);
    let w = merge_fold(a, b, b.len() as int);
    assert(sorted_entries(w) && forall|s: Seq<char>| #[trigger] lookup(w, s) == merged(a, b, s));
}

/// Scaling keeps the entries ordered.
pub proof fn lemma_scale_sorted(c: Seq<(Seq<char>, i64)>, n: i64)
    requires
        sorted_entries(c),
    ensures
        sorted_entries(scale_entries(c, n)),
{
    assert forall|i: int, j: int| 0 <= i < j < scale_entries(c, n).len() implies str_lt(
        #[trigger] scale_entries(c, n)[i].0,
        #[trigger] scale_entries(c, n)[j].0,
    ) by {
        assert(scale_entries(c, n)[i].0 == c[i].0);
        assert(scale_entries(c, n)[j].0 == c[j].0);
    }
}

/// Scaled and merged compositions count each symbol as the scaled sum:
/// `count(merge(a·na, b·nb), s) == na·count(a, s) + nb·count(b, s)`.
pub proof fn law_merge_counts(a: Seq<(Seq<char>, i64)>, na: i64, b: Seq<(Seq<char>, i64)>, nb: i64, s: Seq<char>)
    requires
        sorted_entries(a),
        sorted_entries(b),
        scale_fits(a, na),
        scale_fits(b, nb),
        merge_fits(scale_entries(a, na), scale_entries(b, nb)),
    ensures
        count_in(merge_of(scale_entries(a, na), scale_entries(b, nb)), s) == na * count_in(a, s) + nb
            * count_in(b, s),
{
    let sa = scale_entries(a, na);
    let sb = scale_entries(b, nb);
    let m = merge_of(sa, sb);
    lemma_lookup_scaled(a, na, s);
    lemma_lookup_scaled(b, nb, s);
    lemma_lookup_found(a, s);
    lemma_lookup_found(b, s);
    if lookup(a, s) is Some {
        let j = choose|j: int| 0 <= j < a.len() && a[j].0 == s && Some(a[j].1) == lookup(a, s);
        assert(i64::MIN <= a[j].1 * na <= i64::MAX);
    }
    if lookup(b, s) is Some {
        let j = choose|j: int| 0 <= j < b.len() && b[j].0 == s && Some(b[j].1) == lookup(b, s);
        assert(i64::MIN <= b[j].1 * nb <= i64::MAX);
    }
    assert(i64::MIN <= count_in(sa, s) + count_in(sb, s) <= i64::MAX);
    lemma_scale_sorted(a, na);
    lemma_scale_sorted(b, nb);
    lemma_merge_exists(sa, sb);
    assert(lookup(m, s) == merged(sa, sb, s));
    assert(count_in(a, s) * na == na * count_in(a, s)) by (nonlinear_arith);
    assert(count_in(b, s) * nb == nb * count_in(b, s)) by (nonlinear_arith);
}

} // verus!
