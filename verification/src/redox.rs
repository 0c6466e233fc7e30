//! Oxidation-state analysis of a solved reaction: redox verdict,
//! oxidising/reducing agents, per-element changes, and a template narrative.
use crate::composition::{law_with_entry, lookup, sorted_entries, str_lt, with_entry, Composition};
use crate::oxidation_state::{
    oxidation_fits, oxidation_fits_exec, oxidation_of, oxidation_state, same_comp,
};
use crate::reaction_solver::{BalancedTerm, ReactionResult};
use crate::text::{chars_of, decimal, decimal_chars, extend_chars, str_eq, string_of};
use vstd::prelude::*;

verus! {

/// A composition's entries: `(symbol, count)`.
pub type Entries = Seq<(Seq<char>, i64)>;

/// The direction an element's oxidation state moved across a reaction.
#[derive(Debug, Clone, Copy, PartialEq, Eq, Structural)]
pub enum OxidationChange {
    Oxidised,
    Reduced,
    Unchanged,
}

/// One element's oxidation-state change from a reactant term to a product term.
#[derive(Debug, Clone, PartialEq, Eq)]
pub struct ElementRedox {
    pub symbol: String,
    pub before: i64,
    pub after: i64,
    pub change: OxidationChange,
    pub reactant_formula: String,
    pub product_formula: String,
}

/// Redox analysis of a solved reaction. `oxidation_states` holds, for each
/// term whose states resolved, its formula and the states, in term order; as
/// a map, a later entry for the same formula overrides an earlier one.
#[derive(Debug, Clone, PartialEq, Eq)]
pub struct RedoxAnalysis {
    pub is_redox: bool,
    pub oxidising_agent: Option<String>,
    pub reducing_agent: Option<String>,
    pub changes: Vec<ElementRedox>,
    pub oxidation_states: Vec<(String, Composition)>,
    pub indeterminate: Vec<String>,
    pub narrative: Vec<String>,
}

/// An element's change as plain values: symbol, before, after, direction,
/// reactant formula, product formula.
pub type ChangeModel = (Seq<char>, i64, i64, OxidationChange, Seq<char>, Seq<char>);

/// A change's plain values.
pub open spec fn change_model(c: ElementRedox) -> ChangeModel {
    (c.symbol@, c.before, c.after, c.change, c.reactant_formula@, c.product_formula@)
}

/// The terms' formulas and entries.
pub open spec fn term_pairs(v: Seq<BalancedTerm>) -> Seq<(Seq<char>, Entries)> {
    v.map_values(|t: BalancedTerm| (t.formula@, t.composition@))
}

/// The terms whose oxidation states resolve, with those states, in order.
pub open spec fn resolved_of(t: Seq<(Seq<char>, Entries)>) -> Seq<(Seq<char>, Entries)>
    decreases t.len(),
{
    if t.len() == 0 {
        Seq::empty()
    } else {
        let prev = resolved_of(t.drop_last());
        match oxidation_of(t.last().1) {
            Some(st) => prev.push((t.last().0, st)),
            None => prev,
        }
    }
}

/// The formulas of the terms whose oxidation states do not resolve, in order.
pub open spec fn unresolved_of(t: Seq<(Seq<char>, Entries)>) -> Seq<Seq<char>>
    decreases t.len(),
{
    if t.len() == 0 {
        Seq::empty()
    } else {
        let prev = unresolved_of(t.drop_last());
        match oxidation_of(t.last().1) {
            Some(_) => prev,
            None => prev.push(t.last().0),
        }
    }
}

/// The states recorded for a formula: the last resolved term with it.
pub open spec fn state_for(pairs: Seq<(Seq<char>, Entries)>, f: Seq<char>) -> Option<Entries>
    decreases pairs.len(),
{
    if pairs.len() == 0 {
        None
    } else if pairs.last().0 == f {
        Some(pairs.last().1)
    } else {
        state_for(pairs.drop_last(), f)
    }
}

/// The occurrences of `sym` across the terms: each term (whose formula has
/// recorded states holding `sym`) with the element's state there, in order.
pub open spec fn occ_of(t: Seq<(Seq<char>, Entries)>, pairs: Seq<(Seq<char>, Entries)>, sym: Seq<char>) -> Seq<(Seq<char>, i64)>
    decreases t.len(),
{
    if t.len() == 0 {
        Seq::empty()
    } else {
        let prev = occ_of(t.drop_last(), pairs, sym);
        match state_for(pairs, t.last().0) {
            Some(st) => match lookup(st, sym) {
                Some(v) => prev.push((t.last().0, v)),
                None => prev,
            },
            None => prev,
        }
    }
}

/// `acc` with every symbol of `st[0..j]` added (as a sorted symbol set).
pub open spec fn add_keys(acc: Entries, st: Entries, j: int) -> Entries
    decreases j,
{
    if j <= 0 {
        acc
    } else {
        with_entry(add_keys(acc, st, j - 1), st[j - 1].0, 0)
    }
}

/// The sorted set of symbols that the terms' recorded states hold.
pub open spec fn keys_of(t: Seq<(Seq<char>, Entries)>, pairs: Seq<(Seq<char>, Entries)>) -> Entries
    decreases t.len(),
{
    if t.len() == 0 {
        Seq::empty()
    } else {
        let prev = keys_of(t.drop_last(), pairs);
        match state_for(pairs, t.last().0) {
            Some(st) => add_keys(prev, st, st.len() as int),
            None => prev,
        }
    }
}

/// Every occurrence carries the same state.
pub open spec fn uniform(o: Seq<(Seq<char>, i64)>) -> bool {
    forall|i: int| 0 <= i < o.len() ==> #[trigger] o[i].1 == o[0].1
}

/// The formulas of the occurrences.
pub open spec fn occ_formulas(o: Seq<(Seq<char>, i64)>) -> Seq<Seq<char>> {
    o.map_values(|x: (Seq<char>, i64)| x.0)
}

/// Walking the reactant symbols `keys[0..i]` in order: the changes found, and
/// the formulas flagged because one side holds conflicting states. A symbol
/// without occurrences on either side is passed over.
pub open spec fn scan_changes(
    keys: Entries,
    rt: Seq<(Seq<char>, Entries)>,
    pt: Seq<(Seq<char>, Entries)>,
    pairs: Seq<(Seq<char>, Entries)>,
    i: int,
) -> (Seq<ChangeModel>, Seq<Seq<char>>)
    decreases i,
{
    if i <= 0 {
        (Seq::empty(), Seq::empty())
    } else {
        let prev = scan_changes(keys, rt, pt, pairs, i - 1);
        let sym = keys[i - 1].0;
        let ro = occ_of(rt, pairs, sym);
        let po = occ_of(pt, pairs, sym);
        if po.len() == 0 || ro.len() == 0 {
            prev
        } else if !uniform(ro) || !uniform(po) {
            (prev.0, prev.1 + occ_formulas(ro) + occ_formulas(po))
        } else if ro[0].1 == po[0].1 {
            prev
        } else {
            let dir = if po[0].1 > ro[0].1 {
                OxidationChange::Oxidised
            } else {
                OxidationChange::Reduced
            };
            (prev.0.push((sym, ro[0].1, po[0].1, dir, ro[0].0, po[0].0)), prev.1)
        }
    }
}

/// The first change in the given direction.
pub open spec fn first_with(ch: Seq<ChangeModel>, d: OxidationChange) -> Option<ChangeModel>
    decreases ch.len(),
{
    if ch.len() == 0 {
        None
    } else if ch[0].3 == d {
        Some(ch[0])
    } else {
        first_with(ch.drop_first(), d)
    }
}

/// `s` without repeats, each kept where it first occurs.
pub open spec fn dedup(s: Seq<Seq<char>>) -> Seq<Seq<char>>
    decreases s.len(),
{
    if s.len() == 0 {
        Seq::empty()
    } else {
        let prev = dedup(s.drop_last());
        if prev.contains(s.last()) {
            prev
        } else {
            prev.push(s.last())
        }
    }
}

/// A signed integer as `+n`, `0` or `−n` (U+2212 MINUS SIGN).
pub open spec fn signed_of(n: int) -> Seq<char> {
    if n > 0 {
        "+"@ + decimal(n as nat)
    } else if n < 0 {
        "\u{2212}"@ + decimal((-n) as nat)
    } else {
        "0"@
    }
}

/// The sentence explaining one change.
pub open spec fn change_sentence(c: ChangeModel) -> Seq<char> {
    let verb = if c.3 == OxidationChange::Oxidised {
        "oxidised"@
    } else {
        "reduced"@
    };
    let dir = if c.3 == OxidationChange::Oxidised {
        "increases"@
    } else {
        "decreases"@
    };
    c.4 + " is "@ + verb + " because "@ + c.0 + "'s oxidation state "@ + dir + " from "@ + signed_of(
        c.1 as int,
    ) + " in "@ + c.4 + " to "@ + signed_of(c.2 as int) + " in "@ + c.5 + "."@
}

/// The sentence naming the oxidising agent.
pub open spec fn oxidising_sentence(ox: ChangeModel, red: ChangeModel) -> Seq<char> {
    ox.4 + " is the oxidising agent — it oxidises "@ + red.4
        + " and is itself reduced, its oxidation state decreasing from "@ + signed_of(ox.1 as int)
        + " to "@ + signed_of(ox.2 as int) + "."@
}

/// The sentence naming the reducing agent.
pub open spec fn reducing_sentence(ox: ChangeModel, red: ChangeModel) -> Seq<char> {
    red.4 + " is the reducing agent — it reduces "@ + ox.4
        + " and is itself oxidised, its oxidation state increasing from "@ + signed_of(red.1 as int)
        + " to "@ + signed_of(red.2 as int) + "."@
}

/// The narrative: one sentence per change and, when both agents are known,
/// one naming each; a single fixed sentence when nothing changes.
pub open spec fn narrative_of(ch: Seq<ChangeModel>) -> Seq<Seq<char>> {
    if ch.len() == 0 {
        seq!["This is a non-redox reaction — no oxidation states change."@]
    } else {
        let per = ch.map_values(|c: ChangeModel| change_sentence(c));
        match (first_with(ch, OxidationChange::Reduced), first_with(ch, OxidationChange::Oxidised)) {
            (Some(ox), Some(red)) => per + seq![oxidising_sentence(ox, red), reducing_sentence(ox, red)],
            _ => per,
        }
    }
}

/// The analysis as plain values: verdict, oxidising agent, reducing agent,
/// changes, recorded states, indeterminate formulas, narrative.
pub type AnalysisModel = (
    bool,
    Option<Seq<char>>,
    Option<Seq<char>>,
    Seq<ChangeModel>,
    Seq<(Seq<char>, Entries)>,
    Seq<Seq<char>>,
    Seq<Seq<char>>,
);

/// An analysis' plain values.
pub open spec fn analysis_model(a: RedoxAnalysis) -> AnalysisModel {
    (
        a.is_redox,
        match a.oxidising_agent {
            Some(s) => Some(s@),
            None => None,
        },
        match a.reducing_agent {
            Some(s) => Some(s@),
            None => None,
        },
        a.changes@.map_values(|c: ElementRedox| change_model(c)),
        a.oxidation_states@.map_values(|p: (String, Composition)| (p.0@, p.1@)),
        a.indeterminate@.map_values(|s: String| s@),
        a.narrative@.map_values(|s: String| s@),
    )
}

/// The redox analysis of a solved reaction.
pub open spec fn analysis_of(r: ReactionResult) -> AnalysisModel {
    if !r.feasible || r.products@.len() == 0 {
        (false, None, None, Seq::empty(), Seq::empty(), Seq::empty(), Seq::empty())
    } else {
        let rt = term_pairs(r.reactants@);
        let pt = term_pairs(r.products@);
        let pairs = resolved_of(rt + pt);
        let keys = keys_of(rt, pairs);
        let scan = scan_changes(keys, rt, pt, pairs, keys.len() as int);
        let ch = scan.0;
        (
            ch.len() > 0,
            match first_with(ch, OxidationChange::Reduced) {
                Some(c) => Some(c.4),
                None => None,
            },
            match first_with(ch, OxidationChange::Oxidised) {
                Some(c) => Some(c.4),
                None => None,
            },
            ch,
            pairs,
            dedup(unresolved_of(rt + pt) + scan.1),
            narrative_of(ch),
        )
    }
}

/// Every term's composition is well formed and its oxidation states compute
/// without overflow.
pub open spec fn redox_fits(r: ReactionResult) -> bool {
    &&& forall|i: int| 0 <= i < r.reactants@.len() ==> (#[trigger] r.reactants@[i]).composition.wf()
        && oxidation_fits(r.reactants@[i].composition@)
    &&& forall|i: int| 0 <= i < r.products@.len() ==> (#[trigger] r.products@[i]).composition.wf()
        && oxidation_fits(r.products@[i].composition@)
}

/// The recorded states' plain values.
pub open spec fn pairs_model(v: Seq<(String, Composition)>) -> Seq<(Seq<char>, Entries)> {
    v.map_values(|p: (String, Composition)| (p.0@, p.1@))
}

/// The strings' plain values.
pub open spec fn strings_model(v: Seq<String>) -> Seq<Seq<char>> {
    v.map_values(|s: String| s@)
}

/// Appends the characters of `s`.
fn push_str(text: &mut Vec<char>, s: &str)
    ensures
        final(text)@ == old(text)@ + s@,
{
    let c = chars_of(s);
    extend_chars(text, &c);
}

/// Render a signed integer as `+n` / `0` / `−n`, using the Unicode minus sign
/// (U+2212), not the ASCII hyphen.
fn signed(n: i64) -> (s: Vec<char>)
    ensures
        s@ == signed_of(n as int),
{
    if n > 0 {
        let mut t = chars_of("+");
        let d = decimal_chars(n as u64);
        extend_chars(&mut t, &d);
        t
    } else if n < 0 {
        let mut t = chars_of("\u{2212}");
        let m: u64 = (0i128 - (n as i128)) as u64;
        let d = decimal_chars(m);
        extend_chars(&mut t, &d);
        t
    } else {
        chars_of("0")
    }
}

/// The index of the last recorded entry for formula `f`.
fn state_index(pairs: &Vec<(String, Composition)>, f: &str) -> (r: Option<usize>)
    ensures
        match r {
            Some(i) => i < pairs@.len() && pairs@[i as int].0@ == f@ && state_for(pairs_model(pairs@), f@)
                == Some(pairs@[i as int].1@),
            None => state_for(pairs_model(pairs@), f@) is None,
        },
{
    let ghost pm = pairs_model(pairs@);
    let mut i: usize = pairs.len();
    assert(pm.subrange(0, pm.len() as int) =~= pm);
    while i > 0
        invariant
            i <= pairs@.len(),
            pm == pairs_model(pairs@),
            state_for(pm, f@) == state_for(pm.subrange(0, i as int), f@),
        decreases i,
    {
        assert(pm.subrange(0, i as int).drop_last() =~= pm.subrange(0, i - 1));
        if str_eq(pairs[i - 1].0.as_str(), f) {
            return Some(i - 1);
        }
        i = i - 1;
    }
    None
}

/// The occurrences of `sym` across the terms.
fn occurrences(terms: &Vec<BalancedTerm>, pairs: &Vec<(String, Composition)>, sym: &str) -> (o: Vec<(String, i64)>)
    ensures
        o@.map_values(|x: (String, i64)| (x.0@, x.1)) == occ_of(term_pairs(terms@), pairs_model(pairs@), sym@),
{
    let ghost tp = term_pairs(terms@);
    let ghost pm = pairs_model(pairs@);
    let mut o: Vec<(String, i64)> = Vec::new();
    let mut i: usize = 0;
    assert(tp.subrange(0, 0) =~= Seq::<(Seq<char>, Entries)>::empty());
    while i < terms.len()
        invariant
            i <= terms@.len(),
            tp == term_pairs(terms@),
            pm == pairs_model(pairs@),
            o@.map_values(|x: (String, i64)| (x.0@, x.1)) == occ_of(tp.subrange(0, i as int), pm, sym@),
        decreases terms@.len() - i,
    {
        let ghost before = o@;
        assert(tp.subrange(0, i + 1).drop_last() =~= tp.subrange(0, i as int));
        assert(tp.subrange(0, i + 1).last() == tp[i as int]);
        let t = &terms[i];
        match state_index(pairs, t.formula.as_str()) {
            Some(k) => {
                match pairs[k].1.get(sym) {
                    Some(v) => {
                        o.push((t.formula.clone(), v));
                        assert(o@.map_values(|x: (String, i64)| (x.0@, x.1)) =~= before.map_values(
                            |x: (String, i64)| (x.0@, x.1),
                        ).push((t.formula@, v)));
                    },
                    None => {},
                }
            },
            None => {},
        }
        i = i + 1;
    }
    assert(tp.subrange(0, terms@.len() as int) =~= tp);
    o
}

/// `add_keys` over all of `st` gives a sorted symbol set when `acc` is one.
proof fn lemma_add_keys_sorted(acc: Entries, st: Entries, j: int)
    requires
        sorted_entries(acc),
        0 <= j <= st.len(),
    ensures
        sorted_entries(add_keys(acc, st, j)),
    decreases j,
{
    if j > 0 {
        lemma_add_keys_sorted(acc, st, j - 1);
        law_with_entry(add_keys(acc, st, j - 1), st[j - 1].0, 0);
    }
}

/// The sorted set of symbols held by the terms' recorded states.
fn collect_keys(terms: &Vec<BalancedTerm>, pairs: &Vec<(String, Composition)>) -> (k: Composition)
    requires
        forall|i: int| 0 <= i < pairs@.len() ==> (#[trigger] pairs@[i]).1.wf(),
    ensures
        k.wf(),
        k@ == keys_of(term_pairs(terms@), pairs_model(pairs@)),
{
    let ghost tp = term_pairs(terms@);
    let ghost pm = pairs_model(pairs@);
    let mut k = Composition::new();
    let mut i: usize = 0;
    assert(tp.subrange(0, 0) =~= Seq::<(Seq<char>, Entries)>::empty());
    while i < terms.len()
        invariant
            i <= terms@.len(),
            tp == term_pairs(terms@),
            pm == pairs_model(pairs@),
            forall|t: int| 0 <= t < pairs@.len() ==> (#[trigger] pairs@[t]).1.wf(),
            k.wf(),
            k@ == keys_of(tp.subrange(0, i as int), pm),
        decreases terms@.len() - i,
    {
        assert(tp.subrange(0, i + 1).drop_last() =~= tp.subrange(0, i as int));
        assert(tp.subrange(0, i + 1).last() == tp[i as int]);
        let ghost prev = k@;
        match state_index(pairs, terms[i].formula.as_str()) {
            Some(idx) => {
                let st = &pairs[idx].1;
                let n = st.len();
                let mut j: usize = 0;
                while j < n
                    invariant
                        j <= n == st@.len(),
                        k.wf(),
                        k@ == add_keys(prev, st@, j as int),
                    decreases n - j,
                {
                    let (sym, _) = st.entry(j);
                    proof {
                        law_with_entry(k@, sym@, 0);
                    }
                    k.insert(sym, 0);
                    j = j + 1;
                }
            },
            None => {},
        }
        i = i + 1;
    }
    assert(tp.subrange(0, terms@.len() as int) =~= tp);
    k
}

/// Whether every occurrence carries the same state.
fn is_uniform(o: &Vec<(String, i64)>) -> (b: bool)
    ensures
        b == uniform(o@.map_values(|x: (String, i64)| (x.0@, x.1))),
{
    let ghost om = o@.map_values(|x: (String, i64)| (x.0@, x.1));
    let mut i: usize = 0;
    while i < o.len()
        invariant
            i <= o@.len(),
            om == o@.map_values(|x: (String, i64)| (x.0@, x.1)),
            forall|j: int| 0 <= j < i ==> #[trigger] om[j].1 == om[0].1,
        decreases o@.len() - i,
    {
        if o[i].1 != o[0].1 {
            assert(om[i as int].1 != om[0].1);
            return false;
        }
        i = i + 1;
    }
    true
}

/// Appends the occurrences' formulas.
fn push_formulas(out: &mut Vec<String>, o: &Vec<(String, i64)>)
    ensures
        strings_model(final(out)@) == strings_model(old(out)@) + occ_formulas(
            o@.map_values(|x: (String, i64)| (x.0@, x.1)),
        ),
{
    let ghost om = o@.map_values(|x: (String, i64)| (x.0@, x.1));
    let ghost start = out@;
    let mut i: usize = 0;
    assert(occ_formulas(om.subrange(0, 0)) =~= Seq::<Seq<char>>::empty());
    assert(strings_model(start) + Seq::<Seq<char>>::empty() =~= strings_model(start));
    while i < o.len()
        invariant
            i <= o@.len(),
            om == o@.map_values(|x: (String, i64)| (x.0@, x.1)),
            strings_model(out@) == strings_model(start) + occ_formulas(om.subrange(0, i as int)),
        decreases o@.len() - i,
    {
        let ghost before = out@;
        out.push(o[i].0.clone());
        assert(occ_formulas(om.subrange(0, i + 1)) =~= occ_formulas(om.subrange(0, i as int)).push(
            o@[i as int].0@,
        ));
        assert(strings_model(out@) =~= strings_model(before).push(o@[i as int].0@));
        i = i + 1;
    }
    assert(om.subrange(0, o@.len() as int) =~= om);
}

/// The changes model of a vector of changes.
pub open spec fn changes_model(v: Seq<ElementRedox>) -> Seq<ChangeModel> {
    v.map_values(|c: ElementRedox| change_model(c))
}

/// Walk the reactant symbols in order, collecting changes and flagging the
/// formulas of elements with conflicting states on one side.
fn scan(
    keys: &Composition,
    rt: &Vec<BalancedTerm>,
    pt: &Vec<BalancedTerm>,
    pairs: &Vec<(String, Composition)>,
) -> (r: (Vec<ElementRedox>, Vec<String>))
    ensures
        changes_model(r.0@) == scan_changes(keys@, term_pairs(rt@), term_pairs(pt@), pairs_model(pairs@), keys@.len() as int).0,
        strings_model(r.1@) == scan_changes(keys@, term_pairs(rt@), term_pairs(pt@), pairs_model(pairs@), keys@.len() as int).1,
{
    let ghost rtp = term_pairs(rt@);
    let ghost ptp = term_pairs(pt@);
    let ghost pm = pairs_model(pairs@);
    let mut changes: Vec<ElementRedox> = Vec::new();
    let mut flagged: Vec<String> = Vec::new();
    let mut i: usize = 0;
    assert(changes_model(changes@) =~= Seq::<ChangeModel>::empty());
    assert(strings_model(flagged@) =~= Seq::<Seq<char>>::empty());
    while i < keys.len()
        invariant
            i <= keys@.len(),
            rtp == term_pairs(rt@),
            ptp == term_pairs(pt@),
            pm == pairs_model(pairs@),
            changes_model(changes@) == scan_changes(keys@, rtp, ptp, pm, i as int).0,
            strings_model(flagged@) == scan_changes(keys@, rtp, ptp, pm, i as int).1,
        decreases keys@.len() - i,
    {
        let (sym, _) = keys.entry(i);
        let ro = occurrences(rt, pairs, sym.as_str());
        let po = occurrences(pt, pairs, sym.as_str());
        let ghost rom = ro@.map_values(|x: (String, i64)| (x.0@, x.1));
        let ghost pom = po@.map_values(|x: (String, i64)| (x.0@, x.1));
        if po.len() == 0 || ro.len() == 0 {
        } else if !is_uniform(&ro) || !is_uniform(&po) {
            let ghost before = strings_model(flagged@);
            push_formulas(&mut flagged, &ro);
            push_formulas(&mut flagged, &po);
            assert(strings_model(flagged@) =~= before + occ_formulas(rom) + occ_formulas(pom));
        } else {
            let before = ro[0].1;
            let after = po[0].1;
            if before != after {
                let change = if after > before {
                    OxidationChange::Oxidised
                } else {
                    OxidationChange::Reduced
                };
                let ghost prev = changes_model(changes@);
                changes.push(
                    ElementRedox {
                        symbol: sym,
                        before,
                        after,
                        change,
                        reactant_formula: ro[0].0.clone(),
                        product_formula: po[0].0.clone(),
                    },
                );
                assert(changes_model(changes@) =~= prev.push(change_model(changes@[changes@.len() - 1])));
            }
        }
        i = i + 1;
    }
    (changes, flagged)
}

/// The index of the first change in direction `d`.
fn first_index(changes: &Vec<ElementRedox>, d: OxidationChange) -> (r: Option<usize>)
    ensures
        match r {
            Some(i) => i < changes@.len() && first_with(changes_model(changes@), d) == Some(
                change_model(changes@[i as int]),
            ),
            None => first_with(changes_model(changes@), d) is None,
        },
{
    let ghost cm = changes_model(changes@);
    let mut i: usize = 0;
    assert(cm.subrange(0, cm.len() as int) =~= cm);
    while i < changes.len()
        invariant
            i <= changes@.len(),
            cm == changes_model(changes@),
            first_with(cm, d) == first_with(cm.subrange(i as int, cm.len() as int), d),
        decreases changes@.len() - i,
    {
        assert(cm.subrange(i as int, cm.len() as int).drop_first() =~= cm.subrange(
            i + 1,
            cm.len() as int,
        ));
        if changes[i].change == d {
            return Some(i);
        }
        i = i + 1;
    }
    None
}

/// Whether the string is among the strings.
fn contains_string(v: &Vec<String>, s: &String) -> (b: bool)
    ensures
        b == strings_model(v@).contains(s@),
{
    let mut i: usize = 0;
    while i < v.len()
        invariant
            i <= v@.len(),
            forall|j: int| 0 <= j < i ==> (#[trigger] v@[j])@ != s@,
        decreases v@.len() - i,
    {
        if str_eq(v[i].as_str(), s.as_str()) {
            assert(strings_model(v@)[i as int] == s@);
            return true;
        }
        i = i + 1;
    }
    false
}

/// The strings without repeats, each kept where it first occurs.
fn unique(v: Vec<String>) -> (u: Vec<String>)
    ensures
        strings_model(u@) == dedup(strings_model(v@)),
{
    let ghost vm = strings_model(v@);
    let mut u: Vec<String> = Vec::new();
    let mut i: usize = 0;
    assert(vm.subrange(0, 0) =~= Seq::<Seq<char>>::empty());
    assert(strings_model(u@) =~= Seq::<Seq<char>>::empty());
    while i < v.len()
        invariant
            i <= v@.len(),
            vm == strings_model(v@),
            strings_model(u@) == dedup(vm.subrange(0, i as int)),
        decreases v@.len() - i,
    {
        assert(vm.subrange(0, i + 1).drop_last() =~= vm.subrange(0, i as int));
        assert(vm.subrange(0, i + 1).last() == v@[i as int]@);
        if !contains_string(&u, &v[i]) {
            let ghost before = strings_model(u@);
            u.push(v[i].clone());
            assert(strings_model(u@) =~= before.push(v@[i as int]@));
        }
        i = i + 1;
    }
    assert(vm.subrange(0, v@.len() as int) =~= vm);
    u
}

/// The sentence explaining one change.
fn change_text(c: &ElementRedox) -> (s: String)
    ensures
        s@ == change_sentence(change_model(*c)),
{
    let oxidised = c.change == OxidationChange::Oxidised;
    let mut t = chars_of(c.reactant_formula.as_str());
    push_str(&mut t, " is ");
    push_str(&mut t, if oxidised { "oxidised" } else { "reduced" });
    push_str(&mut t, " because ");
    push_str(&mut t, c.symbol.as_str());
    push_str(&mut t, "'s oxidation state ");
    push_str(&mut t, if oxidised { "increases" } else { "decreases" });
    push_str(&mut t, " from ");
    extend_chars(&mut t, &signed(c.before));
    push_str(&mut t, " in ");
    push_str(&mut t, c.reactant_formula.as_str());
    push_str(&mut t, " to ");
    extend_chars(&mut t, &signed(c.after));
    push_str(&mut t, " in ");
    push_str(&mut t, c.product_formula.as_str());
    push_str(&mut t, ".");
    string_of(&t)
}

/// The sentences naming the oxidising and the reducing agent.
fn agent_texts(ox: &ElementRedox, red: &ElementRedox) -> (r: (String, String))
    ensures
        r.0@ == oxidising_sentence(change_model(*ox), change_model(*red)),
        r.1@ == reducing_sentence(change_model(*ox), change_model(*red)),
{
    let mut a = chars_of(ox.reactant_formula.as_str());
    push_str(&mut a, " is the oxidising agent — it oxidises ");
    push_str(&mut a, red.reactant_formula.as_str());
    push_str(&mut a, " and is itself reduced, its oxidation state decreasing from ");
    extend_chars(&mut a, &signed(ox.before));
    push_str(&mut a, " to ");
    extend_chars(&mut a, &signed(ox.after));
    push_str(&mut a, ".");
    let mut b = chars_of(red.reactant_formula.as_str());
    push_str(&mut b, " is the reducing agent — it reduces ");
    push_str(&mut b, ox.reactant_formula.as_str());
    push_str(&mut b, " and is itself oxidised, its oxidation state increasing from ");
    extend_chars(&mut b, &signed(red.before));
    push_str(&mut b, " to ");
    extend_chars(&mut b, &signed(red.after));
    push_str(&mut b, ".");
    (string_of(&a), string_of(&b))
}

/// The narrative of the changes.
fn narrative(changes: &Vec<ElementRedox>) -> (n: Vec<String>)
    ensures
        strings_model(n@) == narrative_of(changes_model(changes@)),
{
    let ghost cm = changes_model(changes@);
    let mut out: Vec<String> = Vec::new();
    if changes.len() == 0 {
        out.push("This is a non-redox reaction — no oxidation states change.".to_owned());
        assert(strings_model(out@) =~= narrative_of(cm));
        return out;
    }
    let mut i: usize = 0;
    while i < changes.len()
        invariant
            i <= changes@.len(),
            cm == changes_model(changes@),
            strings_model(out@) == cm.subrange(0, i as int).map_values(|c: ChangeModel| change_sentence(c)),
        decreases changes@.len() - i,
    {
        let ghost before = strings_model(out@);
        out.push(change_text(&changes[i]));
        assert(cm[i as int] == change_model(changes@[i as int]));
        assert(strings_model(out@) =~= before.push(change_sentence(cm[i as int])));
        assert(cm.subrange(0, i + 1).map_values(|c: ChangeModel| change_sentence(c)) =~= cm.subrange(
            0,
            i as int,
        ).map_values(|c: ChangeModel| change_sentence(c)).push(change_sentence(cm[i as int])));
        i = i + 1;
    }
    assert(cm.subrange(0, cm.len() as int) =~= cm);
    let ghost per = cm.map_values(|c: ChangeModel| change_sentence(c));
    match (first_index(changes, OxidationChange::Reduced), first_index(changes, OxidationChange::Oxidised)) {
        (Some(o), Some(r)) => {
            let (a, b) = agent_texts(&changes[o], &changes[r]);
            out.push(a);
            out.push(b);
            assert(strings_model(out@) =~= per + seq![
                oxidising_sentence(cm[o as int], cm[r as int]),
                reducing_sentence(cm[o as int], cm[r as int]),
            ]);
        },
        _ => {},
    }
    out
}

/// A term's formula and a copy of its composition.
fn term_copy(t: &BalancedTerm) -> (r: (String, Composition))
    ensures
        r.0@ == t.formula@,
        r.1@ == t.composition@,
{
    (t.formula.clone(), t.composition.duplicate())
}

/// Records a term's oxidation states, or its formula when they do not resolve.
fn record(t: &BalancedTerm, pairs: &mut Vec<(String, Composition)>, indeterminate: &mut Vec<String>)
    requires
        t.composition.wf(),
        oxidation_fits(t.composition@),
        forall|k: int| 0 <= k < old(pairs)@.len() ==> (#[trigger] old(pairs)@[k]).1.wf(),
    ensures
        pairs_model(final(pairs)@) == (match oxidation_of(t.composition@) {
            Some(st) => pairs_model(old(pairs)@).push((t.formula@, st)),
            None => pairs_model(old(pairs)@),
        }),
        strings_model(final(indeterminate)@) == (match oxidation_of(t.composition@) {
            Some(_) => strings_model(old(indeterminate)@),
            None => strings_model(old(indeterminate)@).push(t.formula@),
        }),
        forall|k: int| 0 <= k < final(pairs)@.len() ==> (#[trigger] final(pairs)@[k]).1.wf(),
{
    let ghost pm0 = pairs_model(pairs@);
    let ghost im0 = strings_model(indeterminate@);
    match oxidation_state(&t.composition) {
        Some(states) => {
            pairs.push((t.formula.clone(), states));
            assert(pairs_model(pairs@) =~= pm0.push((t.formula@, pairs@[pairs@.len() - 1].1@)));
        },
        None => {
            indeterminate.push(t.formula.clone());
            assert(strings_model(indeterminate@) =~= im0.push(t.formula@));
        },
    }
}

/// Analyse a solved reaction for redox activity: the oxidation state of every
/// compound, per-element before/after changes, the oxidising/reducing agents,
/// and a template narrative built from formulas. Only feasible reactions with
/// products are analysed; anything else yields an empty analysis.
pub fn analyze_redox(result: &ReactionResult) -> (a: RedoxAnalysis)
    requires
        redox_fits(*result),
    ensures
        analysis_model(a) == analysis_of(*result),
{
    if !result.feasible || result.products.len() == 0 {
        let a = RedoxAnalysis {
            is_redox: false,
            oxidising_agent: None,
            reducing_agent: None,
            changes: Vec::new(),
            oxidation_states: Vec::new(),
            indeterminate: Vec::new(),
            narrative: Vec::new(),
        };
        assert(analysis_model(a).3 =~= Seq::<ChangeModel>::empty());
        assert(analysis_model(a).4 =~= Seq::<(Seq<char>, Entries)>::empty());
        assert(analysis_model(a).5 =~= Seq::<Seq<char>>::empty());
        assert(analysis_model(a).6 =~= Seq::<Seq<char>>::empty());
        return a;
    }
    let ghost rtp = term_pairs(result.reactants@);
    let ghost ptp = term_pairs(result.products@);
    let ghost all = rtp + ptp;
    // Oxidation states per compound; unresolved compounds are recorded.
    let mut pairs: Vec<(String, Composition)> = Vec::new();
    let mut indeterminate: Vec<String> = Vec::new();
    assert(pairs_model(pairs@) =~= Seq::<(Seq<char>, Entries)>::empty());
    assert(strings_model(indeterminate@) =~= Seq::<Seq<char>>::empty());
    assert(rtp.subrange(0, 0) =~= Seq::<(Seq<char>, Entries)>::empty());
    let mut i: usize = 0;
    while i < result.reactants.len()
        invariant
            i <= result.reactants@.len(),
            redox_fits(*result),
            rtp == term_pairs(result.reactants@),
            pairs_model(pairs@) == resolved_of(rtp.subrange(0, i as int)),
            strings_model(indeterminate@) == unresolved_of(rtp.subrange(0, i as int)),
            forall|t: int| 0 <= t < pairs@.len() ==> (#[trigger] pairs@[t]).1.wf(),
        decreases result.reactants@.len() - i,
    {
        let t = &result.reactants[i];
        assert(rtp.subrange(0, i + 1).drop_last() =~= rtp.subrange(0, i as int));
        assert(rtp.subrange(0, i + 1).last() == (t.formula@, t.composition@));
        record(t, &mut pairs, &mut indeterminate);
        i = i + 1;
    }
    assert(rtp.subrange(0, rtp.len() as int) =~= rtp);
    assert(all.subrange(0, rtp.len() as int) =~= rtp);
    let mut j: usize = 0;
    while j < result.products.len()
        invariant
            j <= result.products@.len(),
            redox_fits(*result),
            rtp == term_pairs(result.reactants@),
            ptp == term_pairs(result.products@),
            all == rtp + ptp,
            pairs_model(pairs@) == resolved_of(all.subrange(0, rtp.len() + j)),
            strings_model(indeterminate@) == unresolved_of(all.subrange(0, rtp.len() + j)),
            forall|t: int| 0 <= t < pairs@.len() ==> (#[trigger] pairs@[t]).1.wf(),
        decreases result.products@.len() - j,
    {
        let t = &result.products[j];
        assert(all.subrange(0, rtp.len() + j + 1).drop_last() =~= all.subrange(0, rtp.len() + j));
        assert(all.subrange(0, rtp.len() + j + 1).last() == (t.formula@, t.composition@));
        record(t, &mut pairs, &mut indeterminate);
        j = j + 1;
    }
    assert(all.subrange(0, all.len() as int) =~= all);
    let keys = collect_keys(&result.reactants, &pairs);
    let (changes, flagged) = scan(&keys, &result.reactants, &result.products, &pairs);
    let ghost before_flags = strings_model(indeterminate@);
    let mut j: usize = 0;
    while j < flagged.len()
        invariant
            j <= flagged@.len(),
            strings_model(indeterminate@) == before_flags + strings_model(flagged@).subrange(0, j as int),
        decreases flagged@.len() - j,
    {
        let ghost prev = strings_model(indeterminate@);
        indeterminate.push(flagged[j].clone());
        assert(strings_model(flagged@)[j as int] == flagged@[j as int]@);
        assert(strings_model(indeterminate@) =~= prev.push(flagged@[j as int]@));
        assert(strings_model(flagged@).subrange(0, j + 1) =~= strings_model(flagged@).subrange(
            0,
            j as int,
        ).push(flagged@[j as int]@));
        assert(strings_model(indeterminate@) =~= before_flags + strings_model(flagged@).subrange(
            0,
            j + 1,
        ));
        j = j + 1;
    }
    assert(strings_model(flagged@).subrange(0, flagged@.len() as int) =~= strings_model(flagged@));
    let is_redox = changes.len() > 0;
    let oxidising_agent = match first_index(&changes, OxidationChange::Reduced) {
        Some(k) => Some(changes[k].reactant_formula.clone()),
        None => None,
    };
    let reducing_agent = match first_index(&changes, OxidationChange::Oxidised) {
        Some(k) => Some(changes[k].reactant_formula.clone()),
        None => None,
    };
    let narrative = narrative(&changes);
    let indeterminate = unique(indeterminate);
    RedoxAnalysis {
        is_redox,
        oxidising_agent,
        reducing_agent,
        changes,
        oxidation_states: pairs,
        indeterminate,
        narrative,
    }
}

/// Whether the redox analysis of a solved reaction computes within `i64`
/// and without dividing by zero: every term's oxidation states do (see
/// [`redox_fits`]).
pub fn redox_inputs_fit(result: &ReactionResult) -> (b: bool)
    requires
        result.terms_wf(),
    ensures
        b == redox_fits(*result),
{
    let mut i: usize = 0;
    while i < result.reactants.len()
        invariant
            i <= result.reactants@.len(),
            result.terms_wf(),
            forall|j: int| 0 <= j < i ==> oxidation_fits((#[trigger] result.reactants@[j]).composition@),
        decreases result.reactants@.len() - i,
    {
        if !oxidation_fits_exec(&result.reactants[i].composition) {
            return false;
        }
        i = i + 1;
    }
    let mut j: usize = 0;
    while j < result.products.len()
        invariant
            j <= result.products@.len(),
            result.terms_wf(),
            forall|t: int| 0 <= t < result.reactants@.len() ==> oxidation_fits((#[trigger] result.reactants@[t]).composition@),
            forall|t: int| 0 <= t < j ==> oxidation_fits((#[trigger] result.products@[t]).composition@),
        decreases result.products@.len() - j,
    {
        if !oxidation_fits_exec(&result.products[j].composition) {
            return false;
        }
        j = j + 1;
    }
    true
}

/// Keeping only first occurrences leaves no repeats.
proof fn lemma_dedup_distinct(s: Seq<Seq<char>>)
    ensures
        forall|i: int, j: int| 0 <= i < j < dedup(s).len() ==> dedup(s)[i] != dedup(s)[j],
    decreases s.len(),
{
    if s.len() > 0 {
        let prev = dedup(s.drop_last());
        lemma_dedup_distinct(s.drop_last());
        if !prev.contains(s.last()) {
            let cur = prev.push(s.last());
            assert forall|i: int, j: int| 0 <= i < j < cur.len() implies cur[i] != cur[j] by {
                if j == cur.len() - 1 {
                    assert(cur[i] == prev[i]);
                    if cur[i] == s.last() {
                        assert(prev.contains(s.last()));
                    }
                } else {
                    assert(cur[i] == prev[i] && cur[j] == prev[j]);
                }
            }
        }
    }
}

/// The first change in a direction is the earliest one with it.
proof fn lemma_first_with(ch: Seq<ChangeModel>, d: OxidationChange)
    ensures
        first_with(ch, d) is Some <==> exists|i: int| 0 <= i < ch.len() && (#[trigger] ch[i]).3 == d,
        first_with(ch, d) matches Some(c) ==> exists|i: int|
            0 <= i < ch.len() && (#[trigger] ch[i]) == c && c.3 == d && forall|k: int| 0 <= k < i ==> (#[trigger] ch[k]).3 != d,
    decreases ch.len(),
{
    if ch.len() > 0 {
        let rest = ch.drop_first();
        lemma_first_with(rest, d);
        if ch[0].3 != d {
            if exists|i: int| 0 <= i < ch.len() && (#[trigger] ch[i]).3 == d {
                let i = choose|i: int| 0 <= i < ch.len() && (#[trigger] ch[i]).3 == d;
                assert(rest[i - 1] == ch[i]);
            }
            if first_with(ch, d) is Some {
                let c = first_with(ch, d)->0;
                let i = choose|i: int|
                    0 <= i < rest.len() && (#[trigger] rest[i]) == c && c.3 == d && forall|k: int|
                        0 <= k < i ==> (#[trigger] rest[k]).3 != d;
                assert(ch[i + 1] == c);
                assert forall|k: int| 0 <= k < i + 1 implies (#[trigger] ch[k]).3 != d by {
                    if k > 0 {
                        assert(ch[k] == rest[k - 1]);
                    }
                }
            }
            assert forall|i: int| 0 <= i < rest.len() && (#[trigger] rest[i]).3 == d implies exists|i2: int|
                0 <= i2 < ch.len() && (#[trigger] ch[i2]).3 == d by {
                assert(ch[i + 1] == rest[i]);
            }
        } else {
            assert(ch[0] == first_with(ch, d)->0);
        }
    }
}

/// The symbols of the reactant states form a sorted set.
proof fn lemma_keys_of_sorted(t: Seq<(Seq<char>, Entries)>, pairs: Seq<(Seq<char>, Entries)>)
    ensures
        sorted_entries(keys_of(t, pairs)),
    decreases t.len(),
{
    if t.len() > 0 {
        lemma_keys_of_sorted(t.drop_last(), pairs);
        if let Some(st) = state_for(pairs, t.last().0) {
            lemma_add_keys_sorted(keys_of(t.drop_last(), pairs), st, st.len() as int);
        }
    }
}

/// `s` is one of the first `i` symbols of `keys`.
pub open spec fn among_keys(keys: Entries, i: int, s: Seq<char>) -> bool {
    exists|j: int| 0 <= j < i && (#[trigger] keys[j]).0 == s
}

/// Each change found moves a state, in the direction it records, and the
/// changes come in the order of the (sorted) symbols scanned.
proof fn lemma_scan_changes(
    keys: Entries,
    rt: Seq<(Seq<char>, Entries)>,
    pt: Seq<(Seq<char>, Entries)>,
    pairs: Seq<(Seq<char>, Entries)>,
    i: int,
)
    requires
        sorted_entries(keys),
        0 <= i <= keys.len(),
    ensures
        ({
            let ch = scan_changes(keys, rt, pt, pairs, i).0;
            &&& forall|t: int| 0 <= t < ch.len() ==> {
                &&& (#[trigger] ch[t]).1 != ch[t].2
                &&& (ch[t].3 == OxidationChange::Oxidised <==> ch[t].2 > ch[t].1)
                &&& (ch[t].3 == OxidationChange::Reduced <==> ch[t].2 < ch[t].1)
                &&& among_keys(keys, i, ch[t].0)
            }
            &&& forall|a: int, b: int| 0 <= a < b < ch.len() ==> str_lt((#[trigger] ch[a]).0, (#[trigger] ch[b]).0)
        }),
    decreases i,
{
    if i > 0 {
        lemma_scan_changes(keys, rt, pt, pairs, i - 1);
        let prev = scan_changes(keys, rt, pt, pairs, i - 1).0;
        let cur = scan_changes(keys, rt, pt, pairs, i).0;
        let sym = keys[i - 1].0;
        if cur.len() > prev.len() {
            assert(cur == prev.push(cur[prev.len() as int]));
            assert(cur[prev.len() as int].0 == sym);
            assert forall|t: int| 0 <= t < cur.len() implies among_keys(keys, i, (#[trigger] cur[t]).0) by {
                if t < prev.len() {
                    assert(cur[t] == prev[t]);
                    assert(among_keys(keys, i - 1, prev[t].0));
                    let j = choose|j: int| 0 <= j < i - 1 && (#[trigger] keys[j]).0 == prev[t].0;
                    assert(keys[j].0 == cur[t].0);
                } else {
                    assert(keys[i - 1].0 == cur[t].0);
                }
            }
            assert forall|a: int, b: int| 0 <= a < b < cur.len() implies str_lt((#[trigger] cur[a]).0, (#[trigger] cur[b]).0) by {
                assert(cur[a] == prev[a]);
                if b < prev.len() {
                    assert(cur[b] == prev[b]);
                } else {
                    assert(among_keys(keys, i - 1, prev[a].0));
                    let j = choose|j: int| 0 <= j < i - 1 && (#[trigger] keys[j]).0 == prev[a].0;
                    assert(str_lt(keys[j].0, keys[i - 1].0));
                }
            }
        } else {
            assert(cur == prev);
            assert forall|t: int| 0 <= t < cur.len() implies among_keys(keys, i, (#[trigger] cur[t]).0) by {
                assert(among_keys(keys, i - 1, prev[t].0));
                let j = choose|j: int| 0 <= j < i - 1 && (#[trigger] keys[j]).0 == prev[t].0;
                assert(keys[j].0 == cur[t].0);
            }
        }
    }
}

/// What a redox analysis states: the reaction is redox exactly when some
/// state changes; each change moves a state in the direction it names, and
/// the changes come in ascending order of the element symbol; the oxidising
/// agent is the reactant of the first reduction and the reducing agent the
/// reactant of the first oxidation, present exactly when such a change is;
/// and no formula is listed twice as indeterminate.
#[verifier::rlimit(50)]
pub proof fn law_redox_analysis(r: ReactionResult)
    ensures
        ({
            let a = analysis_of(r);
            let ch = a.3;
            &&& a.0 <==> ch.len() > 0
            &&& forall|t: int| 0 <= t < ch.len() ==> {
                &&& (#[trigger] ch[t]).1 != ch[t].2
                &&& (ch[t].3 == OxidationChange::Oxidised <==> ch[t].2 > ch[t].1)
                &&& (ch[t].3 == OxidationChange::Reduced <==> ch[t].2 < ch[t].1)
            }
            &&& forall|i: int, j: int| 0 <= i < j < ch.len() ==> str_lt((#[trigger] ch[i]).0, (#[trigger] ch[j]).0)
            &&& (a.1 is Some <==> exists|t: int| 0 <= t < ch.len() && (#[trigger] ch[t]).3 == OxidationChange::Reduced)
            &&& (a.1 matches Some(f) ==> exists|t: int|
                0 <= t < ch.len() && (#[trigger] ch[t]).3 == OxidationChange::Reduced && ch[t].4 == f
                    && forall|k: int| 0 <= k < t ==> (#[trigger] ch[k]).3 != OxidationChange::Reduced)
            &&& (a.2 is Some <==> exists|t: int| 0 <= t < ch.len() && (#[trigger] ch[t]).3 == OxidationChange::Oxidised)
            &&& (a.2 matches Some(f) ==> exists|t: int|
                0 <= t < ch.len() && (#[trigger] ch[t]).3 == OxidationChange::Oxidised && ch[t].4 == f
                    && forall|k: int| 0 <= k < t ==> (#[trigger] ch[k]).3 != OxidationChange::Oxidised)
            &&& forall|i: int, j: int| 0 <= i < j < a.5.len() ==> a.5[i] != a.5[j]
        }),
{
    if r.feasible && r.products@.len() > 0 {
        let rt = term_pairs(r.reactants@);
        let pt = term_pairs(r.products@);
        let pairs = resolved_of(rt + pt);
        let keys = keys_of(rt, pairs);
        lemma_keys_of_sorted(rt, pairs);
        lemma_scan_changes(keys, rt, pt, pairs, keys.len() as int);
        let scan = scan_changes(keys, rt, pt, pairs, keys.len() as int);
        let a = analysis_of(r);
        assert(a.3 == scan.0);
        assert(a.0 == (scan.0.len() > 0));
        assert(a.1 == match first_with(scan.0, OxidationChange::Reduced) {
            Some(c) => Some(c.4),
            None => None,
        });
        assert(a.2 == match first_with(scan.0, OxidationChange::Oxidised) {
            Some(c) => Some(c.4),
            None => None,
        });
        assert(a.5 == dedup(unresolved_of(rt + pt) + scan.1));
        lemma_first_with(scan.0, OxidationChange::Reduced);
        lemma_first_with(scan.0, OxidationChange::Oxidised);
        lemma_dedup_distinct(unresolved_of(rt + pt) + scan.1);
    }
}

} // verus!
