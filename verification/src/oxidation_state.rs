//! Assign oxidation states to every element in a neutral compound.
use crate::composition::{law_with_entry, lemma_lookup_unique, lookup, sorted_entries, with_entry, Composition};
use crate::math::{trunc_div, trunc_div_exec, trunc_rem, trunc_rem_exec};
use crate::polyatomic::{ion_table, ion_view, polyatomic_ions, PolyatomicIon};
use crate::text::{chars_of, str_eq, string_of};
use vstd::prelude::*;

verus! {

/// A composition or a state assignment: `(symbol, value)` entries.
pub type Entries = Seq<(Seq<char>, i64)>;

/// An ion's composition: `(symbol, atoms)` entries.
pub type IonComp = Seq<(Seq<char>, int)>;

/// The fixed oxidation state of elements governed by a simple rule: F −1,
/// O −2, H +1, Cl/Br/I −1, group 1 metals +1, group 2 metals +2.
pub open spec fn fixed_state_of(s: Seq<char>) -> Option<int> {
    if s == "F"@ {
        Some(-1)
    } else if s == "O"@ {
        Some(-2)
    } else if s == "H"@ {
        Some(1)
    } else if s == "Cl"@ || s == "Br"@ || s == "I"@ {
        Some(-1)
    } else if s == "Li"@ || s == "Na"@ || s == "K"@ || s == "Rb"@ || s == "Cs"@ || s == "Fr"@ {
        Some(1)
    } else if s == "Be"@ || s == "Mg"@ || s == "Ca"@ || s == "Sr"@ || s == "Ba"@ || s == "Ra"@ {
        Some(2)
    } else {
        None
    }
}

/// The fixed oxidation state for elements governed by a simple rule, else `None`.
/// No peroxide/hydride exceptions — this engine never produces them.
fn fixed_state(symbol: &str) -> (r: Option<i64>)
    ensures
        r matches Some(v) ==> fixed_state_of(symbol@) == Some(v as int),
        r is None ==> fixed_state_of(symbol@) is None,
        r matches Some(v) ==> -2 <= v <= 2,
{
    if str_eq(symbol, "F") {
        Some(-1)
    } else if str_eq(symbol, "O") {
        Some(-2)
    } else if str_eq(symbol, "H") {
        Some(1)
    } else if str_eq(symbol, "Cl") || str_eq(symbol, "Br") || str_eq(symbol, "I") {
        Some(-1)
    } else if str_eq(symbol, "Li") || str_eq(symbol, "Na") || str_eq(symbol, "K") || str_eq(
        symbol,
        "Rb",
    ) || str_eq(symbol, "Cs") || str_eq(symbol, "Fr") {
        Some(1)
    } else if str_eq(symbol, "Be") || str_eq(symbol, "Mg") || str_eq(symbol, "Ca") || str_eq(
        symbol,
        "Sr",
    ) || str_eq(symbol, "Ba") || str_eq(symbol, "Ra") {
        Some(2)
    } else {
        None
    }
}

/// Largest `k` with `comp ⊇ k·ion` over the ion's entries `i..`, given the
/// bound `k` so far; `None` if the ion is not wholly contained.
pub open spec fn multiple_from(comp: Entries, ion: IonComp, i: int, k: int) -> Option<int>
    decreases ion.len() - i,
{
    if i < 0 || i >= ion.len() {
        if k == i64::MAX {
            None
        } else {
            Some(k)
        }
    } else {
        let have = match lookup(comp, ion[i].0) {
            Some(v) => v as int,
            None => 0,
        };
        if have < ion[i].1 {
            None
        } else {
            let m = have / ion[i].1;
            multiple_from(comp, ion, i + 1, if m < k { m } else { k })
        }
    }
}

/// Largest `k` with `comp ⊇ k·ion`, or `None` if the ion is not wholly contained.
pub open spec fn max_multiple_of(comp: Entries, ion: IonComp) -> Option<int> {
    multiple_from(comp, ion, 0, i64::MAX as int)
}

/// Scan of an ion's entries `0..i`: the fixed states so far, their charge sum,
/// the index of the first element without a fixed state, and whether no
/// second such element was met.
pub open spec fn ion_scan(ion: IonComp, i: int) -> (Entries, int, Option<int>, bool)
    decreases i,
{
    if i <= 0 {
        (Seq::empty(), 0, None, true)
    } else {
        let prev = ion_scan(ion, i - 1);
        if !prev.3 {
            prev
        } else {
            match fixed_state_of(ion[i - 1].0) {
                Some(fx) => (
                    with_entry(prev.0, ion[i - 1].0, fx as i64),
                    prev.1 + fx * ion[i - 1].1,
                    prev.2,
                    true,
                ),
                None => if prev.2 is None {
                    (prev.0, prev.1, Some(i - 1), true)
                } else {
                    (prev.0, prev.1, prev.2, false)
                },
            }
        }
    }
}

/// Oxidation states inside a polyatomic ion: O/H fixed, the central atom solved
/// so the ion's atoms sum to its charge; `None` if that is not a single unknown
/// with an integral solution.
pub open spec fn ion_states_of(ion: IonComp, charge: int) -> Option<Entries> {
    let scan = ion_scan(ion, ion.len() as int);
    if !scan.3 {
        None
    } else {
        match scan.2 {
            Some(j) => {
                let need = charge - scan.1;
                if trunc_rem(need, ion[j].1) != 0 {
                    None
                } else {
                    Some(with_entry(scan.0, ion[j].0, trunc_div(need, ion[j].1) as i64))
                }
            },
            None => if scan.1 != charge {
                None
            } else {
                Some(scan.0)
            },
        }
    }
}

/// The atom count of `s` in the ion's entries `i..` (first match), 0 if absent.
pub open spec fn ion_count_from(ion: IonComp, s: Seq<char>, i: int) -> int
    decreases ion.len() - i,
{
    if i < 0 || i >= ion.len() {
        0
    } else if ion[i].0 == s {
        ion[i].1
    } else {
        ion_count_from(ion, s, i + 1)
    }
}

/// What is left of `comp`'s entries `i..` once `k` copies of the ion are taken
/// away: each ion element loses `k` times its count and is dropped when
/// nothing is left of it; the other entries stay as they are.
pub open spec fn remainder_from(comp: Entries, ion: IonComp, k: int, i: int) -> Entries
    decreases comp.len() - i,
{
    if i < 0 || i >= comp.len() {
        Seq::empty()
    } else {
        let n = ion_count_from(ion, comp[i].0, 0);
        let left = comp[i].1 - n * k;
        let rest = remainder_from(comp, ion, k, i + 1);
        if n != 0 && left == 0 {
            rest
        } else {
            seq![(comp[i].0, left as i64)] + rest
        }
    }
}

/// Reading `comp` as (counter-ion)·(ion): the ion factored out `k` times
/// leaves one other element, which takes the charge that balances the ion.
pub open spec fn factor_with(comp: Entries, ion: IonComp, charge: int) -> Option<Entries> {
    match max_multiple_of(comp, ion) {
        Some(k) => if k < 1 {
            None
        } else {
            let rem = remainder_from(comp, ion, k, 0);
            if rem.len() != 1 || ion_count_from(ion, rem[0].0, 0) != 0 {
                None
            } else {
                match ion_states_of(ion, charge) {
                    Some(st) => {
                        let total = -charge * k;
                        if rem[0].1 == 0 || trunc_rem(total, rem[0].1 as int) != 0 {
                            None
                        } else {
                            Some(with_entry(st, rem[0].0, trunc_div(total, rem[0].1 as int) as i64))
                        }
                    },
                    None => None,
                }
            }
        },
        None => None,
    }
}

/// The counter-ion's total charge `-charge·k`, when [`factor_with`] gets to
/// compute it, fits `i64`.
pub open spec fn factor_total_fits(comp: Entries, ion: IonComp, charge: int) -> bool {
    match max_multiple_of(comp, ion) {
        Some(k) => {
            let rem = remainder_from(comp, ion, k, 0);
            k < 1 || rem.len() != 1 || ion_count_from(ion, rem[0].0, 0) != 0 || ion_states_of(
                ion,
                charge,
            ) is None || (-i64::MAX <= -charge * k <= i64::MAX)
        },
        None => true,
    }
}

/// The order in which the ions are tried: most atoms first, ties in table
/// order, i.e. sulfate, phosphate, ammonium, nitrate, carbonate, hydroxide.
pub open spec fn factor_order() -> Seq<int> {
    seq![2int, 4int, 5int, 1int, 3int, 0int]
}

/// The first ion, in [`factor_order`] from position `j`, that factors `comp`.
pub open spec fn factor_from(comp: Entries, j: int) -> Option<Entries>
    decreases 6 - j,
{
    if j < 0 || j >= 6 {
        None
    } else {
        let ion = ion_table()[factor_order()[j]];
        match factor_with(comp, ion.2, ion.1) {
            Some(r) => Some(r),
            None => factor_from(comp, j + 1),
        }
    }
}

/// Every ion tried from position `j` on computes its counter charge within `i64`.
pub open spec fn factor_fits_from(comp: Entries, j: int) -> bool
    decreases 6 - j,
{
    if j < 0 || j >= 6 {
        true
    } else {
        let ion = ion_table()[factor_order()[j]];
        &&& factor_total_fits(comp, ion.2, ion.1)
        &&& (factor_with(comp, ion.2, ion.1) is None ==> factor_fits_from(comp, j + 1))
    }
}

/// Scan of `comp`'s entries `0..i` under the element rules: fixed states so
/// far, their weighted sum, and the indices of elements without a rule.
pub open spec fn rules_scan(comp: Entries, i: int) -> (Entries, int, Seq<int>)
    decreases i,
{
    if i <= 0 {
        (Seq::empty(), 0, Seq::empty())
    } else {
        let prev = rules_scan(comp, i - 1);
        match fixed_state_of(comp[i - 1].0) {
            Some(fx) => (
                with_entry(prev.0, comp[i - 1].0, fx as i64),
                prev.1 + fx * comp[i - 1].1,
                prev.2,
            ),
            None => (prev.0, prev.1, prev.2.push(i - 1)),
        }
    }
}

/// Element rules plus solving the single remaining unknown so that the
/// compound sums to zero.
pub open spec fn by_rules_of(comp: Entries) -> Option<Entries> {
    let scan = rules_scan(comp, comp.len() as int);
    if scan.2.len() > 1 {
        None
    } else if scan.2.len() == 1 {
        let count = comp[scan.2[0]].1 as int;
        let need = -scan.1;
        if trunc_rem(need, count) != 0 {
            None
        } else {
            Some(with_entry(scan.0, comp[scan.2[0]].0, trunc_div(need, count) as i64))
        }
    } else if scan.1 != 0 {
        None
    } else {
        Some(scan.0)
    }
}

/// The oxidation state of every element of a neutral compound: a lone
/// element is 0; else a counter-ion with a known polyatomic ion; else the
/// element rules with one unknown solved by difference.
pub open spec fn oxidation_of(comp: Entries) -> Option<Entries> {
    if comp.len() == 1 {
        Some(seq![(comp[0].0, 0i64)])
    } else {
        match factor_from(comp, 0) {
            Some(r) => Some(r),
            None => by_rules_of(comp),
        }
    }
}

/// The element-rule scan stays within `i64`: every product `state·count` and
/// every partial sum fits, and when one element is solved by difference its
/// count is non-zero and the sum can be negated.
pub open spec fn rules_fit(comp: Entries) -> bool {
    let scan = rules_scan(comp, comp.len() as int);
    &&& forall|i: int|
        0 <= i < comp.len() ==> (fixed_state_of((#[trigger] comp[i]).0) matches Some(fx) ==> i64::MIN
            <= fx * comp[i].1 <= i64::MAX)
    &&& forall|i: int| 0 <= i <= comp.len() ==> i64::MIN <= #[trigger] rules_scan(comp, i).1 <= i64::MAX
    &&& scan.2.len() == 1 ==> (scan.1 > i64::MIN && comp[scan.2[0]].1 != 0)
}

/// The inputs on which [`oxidation_state`] computes without overflow or
/// division by zero.
pub open spec fn oxidation_fits(comp: Entries) -> bool {
    comp.len() == 1 || (factor_fits_from(comp, 0) && (factor_from(comp, 0) is None ==> rules_fit(
        comp,
    )))
}

/// What the engine asks of an ion: one to four distinct elements, each
/// counted at least once, and a small charge.
pub open spec fn ion_ok(ion: IonComp, charge: int) -> bool {
    &&& 1 <= ion.len() <= 4
    &&& forall|i: int| 0 <= i < ion.len() ==> 1 <= #[trigger] ion[i].1 <= 255
    &&& forall|i: int, j: int| 0 <= i < j < ion.len() ==> #[trigger] ion[i].0 != #[trigger] ion[j].0
    &&& -3 <= charge <= 3
}

/// An `Option<i64>` that carries the same value as an `Option<int>`.
pub open spec fn same_opt(r: Option<i64>, s: Option<int>) -> bool {
    match r {
        Some(v) => s == Some(v as int),
        None => s is None,
    }
}

/// An `Option<Composition>` that carries the same entries as an
/// `Option<Entries>`, well formed.
pub open spec fn same_comp(r: Option<Composition>, s: Option<Entries>) -> bool {
    match r {
        Some(c) => s == Some(c@) && c.wf(),
        None => s is None,
    }
}


/// The six table ions meet [`ion_ok`].
pub(crate) proof fn lemma_table_ok()
    ensures
        forall|i: int| 0 <= i < 6 ==> ion_ok(#[trigger] ion_table()[i].2, ion_table()[i].1),
{
    reveal_strlit("O");
    reveal_strlit("H");
    reveal_strlit("N");
    reveal_strlit("S");
    reveal_strlit("C");
    reveal_strlit("P");
    assert forall|i: int| 0 <= i < 6 implies ion_ok(#[trigger] ion_table()[i].2, ion_table()[i].1) by {
        let ion = ion_table()[i].2;
        assert(ion[0].0[0] != ion[1].0[0]);
    }
}

/// Once a second element without a rule is met, the ion scan stays failed.
pub(crate) proof fn lemma_scan_fail(ion: IonComp, i: int, j: int)
    requires
        0 <= i <= j,
        !ion_scan(ion, i).3,
    ensures
        !ion_scan(ion, j).3,
    decreases j - i,
{
    if j > i {
        lemma_scan_fail(ion, i, j - 1);
    }
}

/// A found multiple `k` is at most the running bound and fits every later
/// entry of the ion: `count·k` is at most what `comp` holds of it.
pub(crate) proof fn lemma_multiple_bound(comp: Entries, ion: IonComp, i: int, k0: int)
    requires
        0 <= i,
        0 <= k0,
        forall|t: int| 0 <= t < ion.len() ==> 1 <= #[trigger] ion[t].1,
        multiple_from(comp, ion, i, k0) is Some,
    ensures
        0 <= multiple_from(comp, ion, i, k0)->0 <= k0,
        forall|j: int|
            i <= j < ion.len() ==> (#[trigger] ion[j]).1 * multiple_from(comp, ion, i, k0)->0 <= (
            match lookup(comp, ion[j].0) {
                Some(v) => v as int,
                None => 0,
            }),
    decreases ion.len() - i,
{
    if i < ion.len() {
        let have = match lookup(comp, ion[i].0) {
            Some(v) => v as int,
            None => 0,
        };
        let n = ion[i].1;
        let m = have / n;
        let k1 = if m < k0 { m } else { k0 };
        assert(m >= 1) by (nonlinear_arith)
            requires
                have >= n,
                n >= 1,
                m == have / n,
        ;
        lemma_multiple_bound(comp, ion, i + 1, k1);
        let k = multiple_from(comp, ion, i, k0)->0;
        assert(n * k <= have) by (nonlinear_arith)
            requires
                n >= 1,
                have >= 0,
                m == have / n,
                0 <= k <= m,
        ;
    }
}

/// A non-zero count of `s` in the ion comes from an entry of the ion.
pub(crate) proof fn lemma_ion_count_found(ion: IonComp, s: Seq<char>, i: int)
    requires
        0 <= i,
        ion_count_from(ion, s, i) != 0,
    ensures
        exists|j: int|
            i <= j < ion.len() && (#[trigger] ion[j]).0 == s && ion[j].1 == ion_count_from(ion, s, i),
    decreases ion.len() - i,
{
    if i < ion.len() && ion[i].0 != s {
        lemma_ion_count_found(ion, s, i + 1);
    }
}

/// Largest `k` with `comp ⊇ k·ion`, or `None` if the ion is not wholly contained.
fn max_multiple(comp: &Composition, ion: &PolyatomicIon) -> (r: Option<i64>)
    requires
        ion_ok(ion_view(*ion).2, ion_view(*ion).1),
    ensures
        same_opt(r, max_multiple_of(comp@, ion_view(*ion).2)),
{
    let ghost iv = ion_view(*ion).2;
    let mut k: i64 = i64::MAX;
    let mut i: usize = 0;
    while i < ion.composition.len()
        invariant
            iv == ion_view(*ion).2,
            ion_ok(iv, ion_view(*ion).1),
            i <= ion.composition.len() == iv.len(),
            k >= 0,
            max_multiple_of(comp@, iv) == multiple_from(comp@, iv, i as int, k as int),
        decreases ion.composition.len() - i,
    {
        let (sym, n8) = ion.composition[i];
        assert(iv[i as int] == (sym@, n8 as int));
        let n: i64 = n8 as i64;
        let have: i64 = match comp.get(sym) {
            Some(v) => v,
            None => 0,
        };
        if have < n {
            return None;
        }
        let m: u64 = (have as u64) / (n as u64);
        proof {
            vstd::arithmetic::div_mod::lemma_div_is_ordered_by_denominator(have as int, 1, n as int);
        }
        let m: i64 = m as i64;
        if m < k {
            k = m;
        }
        i = i + 1;
    }
    if k == i64::MAX {
        None
    } else {
        Some(k)
    }
}

/// Oxidation states inside a polyatomic ion: O/H fixed, the central atom solved so
/// the ion's atoms sum to its charge. `None` if not resolvable to a single unknown.
fn states_within_ion(ion: &PolyatomicIon) -> (r: Option<Composition>)
    requires
        ion_ok(ion_view(*ion).2, ion_view(*ion).1),
    ensures
        same_comp(r, ion_states_of(ion_view(*ion).2, ion_view(*ion).1)),
{
    let ghost iv = ion_view(*ion).2;
    let mut states = Composition::new();
    let mut sum: i64 = 0;
    let mut unknown: Option<usize> = None;
    let mut i: usize = 0;
    while i < ion.composition.len()
        invariant
            iv == ion_view(*ion).2,
            ion_ok(iv, ion_view(*ion).1),
            i <= ion.composition.len() == iv.len(),
            states.wf(),
            -510 * i <= sum <= 510 * i,
            ion_scan(iv, i as int).0 == states@,
            ion_scan(iv, i as int).1 == sum as int,
            ion_scan(iv, i as int).3,
            match unknown {
                Some(u) => ion_scan(iv, i as int).2 == Some(u as int) && u < i,
                None => ion_scan(iv, i as int).2 is None,
            },
        decreases ion.composition.len() - i,
    {
        let (sym, n8) = ion.composition[i];
        assert(iv[i as int] == (sym@, n8 as int));
        let n: i64 = n8 as i64;
        match fixed_state(sym) {
            Some(fx) => {
                proof {
                    law_with_entry(states@, sym@, fx);
                }
                states.insert(string_of(&chars_of(sym)), fx);
                assert(-510 <= fx * n <= 510) by (nonlinear_arith)
                    requires
                        -2 <= fx <= 2,
                        0 <= n <= 255,
                ;
                sum = sum + fx * n;
            },
            None => {
                if unknown.is_none() {
                    unknown = Some(i);
                } else {
                    proof {
                        lemma_scan_fail(iv, i + 1, iv.len() as int);
                    }
                    return None;
                }
            },
        }
        i = i + 1;
    }
    let charge: i64 = ion.charge as i64;
    match unknown {
        Some(u) => {
            let (usym, un) = ion.composition[u];
            assert(iv[u as int] == (usym@, un as int));
            let count: i64 = un as i64;
            let need: i64 = charge - sum;
            if trunc_rem_exec(need, count) != 0 {
                return None;
            }
            let v = trunc_div_exec(need, count);
            proof {
                law_with_entry(states@, usym@, v);
            }
            states.insert(string_of(&chars_of(usym)), v);
            Some(states)
        },
        None => {
            if sum != charge {
                None
            } else {
                Some(states)
            }
        },
    }
}

/// The atom count of `s` in the ion, 0 if it is not one of the ion's elements.
fn ion_count(ion: &PolyatomicIon, s: &str) -> (n: i64)
    ensures
        n == ion_count_from(ion_view(*ion).2, s@, 0),
{
    let ghost iv = ion_view(*ion).2;
    let mut i: usize = 0;
    while i < ion.composition.len()
        invariant
            iv == ion_view(*ion).2,
            i <= ion.composition.len() == iv.len(),
            ion_count_from(iv, s@, 0) == ion_count_from(iv, s@, i as int),
        decreases ion.composition.len() - i,
    {
        let (sym, n8) = ion.composition[i];
        assert(iv[i as int] == (sym@, n8 as int));
        if str_eq(sym, s) {
            return n8 as i64;
        }
        i = i + 1;
    }
    0
}

/// The remainder entries, each an index into `comp` and the count left there.
pub open spec fn rem_view(comp: Entries, r: Seq<(usize, i64)>) -> Entries {
    r.map_values(|e: (usize, i64)| (comp[e.0 as int].0, e.1))
}

/// Try to read the compound as (counter-ion)·(ion): factor the ion out, assign
/// the disjoint remainder element the charge that balances it.
/// Reading `comp` as (counter-ion)·(ion)ᵏ up to the counter-ion's charge:
/// the multiple `k`, the counter element's index and remaining count, and the
/// states inside the ion; `None` when the reading fails before that charge is
/// computed.
fn factor_parts(comp: &Composition, ion: &PolyatomicIon) -> (r: Option<(i64, usize, i64, Composition)>)
    requires
        comp.wf(),
        ion_ok(ion_view(*ion).2, ion_view(*ion).1),
    ensures
        ({
            let iv = ion_view(*ion).2;
            let ch = ion_view(*ion).1;
            match r {
                None => match max_multiple_of(comp@, iv) {
                    None => true,
                    Some(k) => {
                        let rem = remainder_from(comp@, iv, k, 0);
                        k < 1 || rem.len() != 1 || ion_count_from(iv, rem[0].0, 0) != 0 || ion_states_of(iv, ch) is None
                    },
                },
                Some((k, idx, cc, st)) => {
                    &&& max_multiple_of(comp@, iv) == Some(k as int)
                    &&& k >= 1
                    &&& idx < comp@.len()
                    &&& remainder_from(comp@, iv, k as int, 0) == seq![(comp@[idx as int].0, cc)]
                    &&& ion_count_from(iv, comp@[idx as int].0, 0) == 0
                    &&& same_comp(Some(st), ion_states_of(iv, ch))
                },
            }
        }),
{
    let ghost iv = ion_view(*ion).2;
    let k = match max_multiple(comp, ion) {
        Some(k) => k,
        None => return None,
    };
    if k < 1 {
        return None;
    }
    proof {
        lemma_multiple_bound(comp@, iv, 0, i64::MAX as int);
        lemma_lookup_unique_all(comp@);
    }
    let mut rem: Vec<(usize, i64)> = Vec::new();
    let mut i: usize = 0;
    assert(rem_view(comp@, rem@) =~= Seq::<(Seq<char>, i64)>::empty());
    while i < comp.len()
        invariant
            iv == ion_view(*ion).2,
            ion_ok(iv, ion_view(*ion).1),
            comp.wf(),
            1 <= k,
            max_multiple_of(comp@, iv) == Some(k as int),
            forall|j: int|
                0 <= j < iv.len() ==> (#[trigger] iv[j]).1 * k <= (match lookup(comp@, iv[j].0) {
                    Some(v) => v as int,
                    None => 0,
                }),
            forall|j: int| 0 <= j < comp@.len() ==> lookup(comp@, (#[trigger] comp@[j]).0) == Some(comp@[j].1),
            i <= comp@.len(),
            forall|t: int| 0 <= t < rem@.len() ==> (#[trigger] rem@[t]).0 < comp@.len(),
            remainder_from(comp@, iv, k as int, 0) == rem_view(comp@, rem@) + remainder_from(
                comp@,
                iv,
                k as int,
                i as int,
            ),
        decreases comp@.len() - i,
    {
        let (sym, c) = comp.entry(i);
        let n = ion_count(ion, sym.as_str());
        proof {
            if n != 0 {
                lemma_ion_count_found(iv, sym@, 0);
                assert(lookup(comp@, comp@[i as int].0) == Some(comp@[i as int].1));
            }
            assert(0 <= n * k <= c || n == 0) by (nonlinear_arith)
                requires
                    n == 0 || (1 <= n && n * k <= c),
                    k >= 1,
            ;
        }
        let left: i64 = if n == 0 {
            c
        } else {
            c - n * k
        };
        let ghost before = rem@;
        if !(n != 0 && left == 0) {
            rem.push((i, left));
            proof {
                assert(rem_view(comp@, rem@) =~= rem_view(comp@, before).push((sym@, left)));
                assert(rem_view(comp@, rem@) + remainder_from(comp@, iv, k as int, i + 1) =~= rem_view(
                    comp@,
                    before,
                ) + (seq![(sym@, left)] + remainder_from(comp@, iv, k as int, i + 1)));
            }
        }
        i = i + 1;
    }
    assert(rem_view(comp@, rem@) + Seq::<(Seq<char>, i64)>::empty() =~= rem_view(comp@, rem@));
    if rem.len() != 1 {
        return None;
    }
    let (idx, counter_count) = rem[0];
    let (counter_sym, _) = comp.entry(idx);
    if ion_count(ion, counter_sym.as_str()) != 0 {
        return None;
    }
    let ion_states = match states_within_ion(ion) {
        Some(s) => s,
        None => return None,
    };
    proof {
        assert(rem_view(comp@, rem@)[0] == (counter_sym@, counter_count));
        assert(rem_view(comp@, rem@) =~= seq![(comp@[idx as int].0, counter_count)]);
    }
    Some((k, idx, counter_count, ion_states))
}

fn factor_with_ion(comp: &Composition, ion: &PolyatomicIon) -> (r: Option<Composition>)
    requires
        comp.wf(),
        ion_ok(ion_view(*ion).2, ion_view(*ion).1),
        factor_total_fits(comp@, ion_view(*ion).2, ion_view(*ion).1),
    ensures
        same_comp(r, factor_with(comp@, ion_view(*ion).2, ion_view(*ion).1)),
{
    let (k, idx, counter_count, ion_states) = match factor_parts(comp, ion) {
        Some(p) => p,
        None => return None,
    };
    let (counter_sym, _) = comp.entry(idx);
    let counter_total: i64 = -(ion.charge as i64) * k;
    if counter_count == 0 || trunc_rem_exec(counter_total, counter_count) != 0 {
        return None;
    }
    let mut result = ion_states;
    let v = trunc_div_exec(counter_total, counter_count);
    proof {
        law_with_entry(result@, counter_sym@, v);
    }
    result.insert(counter_sym, v);
    Some(result)
}

/// In sorted entries each entry's symbol looks up its own count.
proof fn lemma_lookup_unique_all(s: Entries)
    requires
        sorted_entries(s),
    ensures
        forall|j: int| 0 <= j < s.len() ==> lookup(s, (#[trigger] s[j]).0) == Some(s[j].1),
{
    assert forall|j: int| 0 <= j < s.len() implies lookup(s, (#[trigger] s[j]).0) == Some(s[j].1) by {
        lemma_lookup_unique(s, s[j].0);
    }
}

/// Try the known polyatomic ions, most atoms first, as the compound's anion
/// (or cation) group.
fn factor_polyatomic(comp: &Composition) -> (r: Option<Composition>)
    requires
        comp.wf(),
        factor_fits_from(comp@, 0),
    ensures
        same_comp(r, factor_from(comp@, 0)),
{
    let ions = polyatomic_ions();
    let order: Vec<usize> = vec![2, 4, 5, 1, 3, 0];
    proof {
        lemma_table_ok();
    }
    let mut j: usize = 0;
    while j < 6
        invariant
            j <= 6,
            comp.wf(),
            ions@.len() == 6,
            forall|i: int| 0 <= i < 6 ==> ion_view(#[trigger] ions@[i]) == ion_table()[i],
            forall|i: int| 0 <= i < 6 ==> ion_ok(#[trigger] ion_table()[i].2, ion_table()[i].1),
            order@ == seq![2usize, 4usize, 5usize, 1usize, 3usize, 0usize],
            factor_from(comp@, 0) == factor_from(comp@, j as int),
            factor_fits_from(comp@, j as int),
        decreases 6 - j,
    {
        let idx = order[j];
        assert(idx as int == factor_order()[j as int]);
        let ion = &ions[idx];
        match factor_with_ion(comp, ion) {
            Some(r) => {
                return Some(r);
            },
            None => {},
        }
        j = j + 1;
    }
    None
}

/// The indices of the rule-less elements, as spec integers.
pub open spec fn idx_view(v: Seq<usize>) -> Seq<int> {
    v.map_values(|u: usize| u as int)
}

/// Element rules + solve the single remaining unknown so a neutral compound sums to 0.
fn by_element_rules(comp: &Composition) -> (r: Option<Composition>)
    requires
        comp.wf(),
        rules_fit(comp@),
    ensures
        same_comp(r, by_rules_of(comp@)),
{
    let mut states = Composition::new();
    let mut sum: i64 = 0;
    let mut unknowns: Vec<usize> = Vec::new();
    let mut i: usize = 0;
    assert(idx_view(unknowns@) =~= Seq::<int>::empty());
    while i < comp.len()
        invariant
            comp.wf(),
            rules_fit(comp@),
            i <= comp@.len(),
            states.wf(),
            rules_scan(comp@, i as int).0 == states@,
            rules_scan(comp@, i as int).1 == sum as int,
            rules_scan(comp@, i as int).2 == idx_view(unknowns@),
            forall|t: int| 0 <= t < unknowns@.len() ==> (#[trigger] unknowns@[t]) < i,
        decreases comp@.len() - i,
    {
        let (sym, n) = comp.entry(i);
        assert(i64::MIN <= rules_scan(comp@, i + 1).1 <= i64::MAX);
        match fixed_state(sym.as_str()) {
            Some(fx) => {
                proof {
                    law_with_entry(states@, sym@, fx);
                }
                states.insert(sym, fx);
                sum = sum + fx * n;
            },
            None => {
                let ghost before = unknowns@;
                unknowns.push(i);
                assert(idx_view(unknowns@) =~= idx_view(before).push(i as int));
            },
        }
        i = i + 1;
    }
    if unknowns.len() > 1 {
        return None;
    }
    if unknowns.len() == 1 {
        let u = unknowns[0];
        let (sym, count) = comp.entry(u);
        let need: i64 = -sum;
        if trunc_rem_exec(need, count) != 0 {
            return None;
        }
        let v = trunc_div_exec(need, count);
        proof {
            law_with_entry(states@, sym@, v);
        }
        states.insert(sym, v);
        Some(states)
    } else if sum != 0 {
        None
    } else {
        Some(states)
    }
}

/// Oxidation state of every element in a neutral compound, or `None` if the
/// standard rules leave it under-determined.
///
/// A lone element is 0. Otherwise the compound is first read as a counter-ion
/// with one of the known polyatomic ions (most atoms first); failing that, the
/// element rules (F −1, O −2, H +1, Cl/Br/I −1, group 1 +1, group 2 +2) fix
/// every element but at most one, which is solved so the compound sums to 0.
/// A compound with the same element in two oxidation environments (NH₄NO₃)
/// collapses to one composition entry and yields a single averaged value.
pub fn oxidation_state(composition: &Composition) -> (r: Option<Composition>)
    requires
        composition.wf(),
        oxidation_fits(composition@),
    ensures
        same_comp(r, oxidation_of(composition@)),
{
    if composition.len() == 1 {
        let (sym, _) = composition.entry(0);
        let mut result = Composition::new();
        proof {
            law_with_entry(result@, sym@, 0);
        }
        result.insert(sym, 0);
        assert(result@ =~= seq![(composition@[0].0, 0i64)]);
        return Some(result);
    }
    if let Some(by_ion) = factor_polyatomic(composition) {
        return Some(by_ion);
    }
    by_element_rules(composition)
}

/// Whether the element-rule scan of `comp` stays within `i64` (see
/// [`rules_fit`]).
fn rules_fit_exec(comp: &Composition) -> (b: bool)
    requires
        comp.wf(),
    ensures
        b == rules_fit(comp@),
{
    let mut sum: i64 = 0;
    let mut unknowns: Vec<usize> = Vec::new();
    let mut i: usize = 0;
    assert(idx_view(unknowns@) =~= Seq::<int>::empty());
    while i < comp.len()
        invariant
            comp.wf(),
            i <= comp@.len(),
            rules_scan(comp@, i as int).1 == sum as int,
            rules_scan(comp@, i as int).2 == idx_view(unknowns@),
            forall|t: int| 0 <= t < unknowns@.len() ==> (#[trigger] unknowns@[t]) < i,
            forall|t: int|
                0 <= t < i ==> (fixed_state_of((#[trigger] comp@[t]).0) matches Some(fx) ==> i64::MIN
                    <= fx * comp@[t].1 <= i64::MAX),
            forall|t: int| 0 <= t <= i ==> i64::MIN <= #[trigger] rules_scan(comp@, t).1 <= i64::MAX,
        decreases comp@.len() - i,
    {
        let (sym, n) = comp.entry(i);
        match fixed_state(sym.as_str()) {
            Some(fx) => {
                assert(-0x4000_0000_0000_0000_0000_0000_0000_0000 <= (fx as int) * (n as int)
                    <= 0x4000_0000_0000_0000_0000_0000_0000_0000) by (nonlinear_arith)
                    requires
                        i64::MIN <= fx <= i64::MAX,
                        i64::MIN <= n <= i64::MAX,
                ;
                let prod: i128 = (fx as i128) * (n as i128);
                if prod < i64::MIN as i128 || prod > i64::MAX as i128 {
                    return false;
                }
                let next: i128 = (sum as i128) + prod;
                if next < i64::MIN as i128 || next > i64::MAX as i128 {
                    assert(!(i64::MIN <= rules_scan(comp@, i + 1).1 <= i64::MAX));
                    return false;
                }
                sum = next as i64;
            },
            None => {
                let ghost before = unknowns@;
                unknowns.push(i);
                assert(idx_view(unknowns@) =~= idx_view(before).push(i as int));
            },
        }
        i = i + 1;
    }
    if unknowns.len() == 1 {
        let u = unknowns[0];
        let (_, count) = comp.entry(u);
        sum > i64::MIN && count != 0
    } else {
        true
    }
}

/// Whether [`oxidation_state`] computes `comp`'s states within `i64` and
/// without dividing by zero (see [`oxidation_fits`]).
pub fn oxidation_fits_exec(comp: &Composition) -> (b: bool)
    requires
        comp.wf(),
    ensures
        b == oxidation_fits(comp@),
{
    if comp.len() == 1 {
        return true;
    }
    let ions = polyatomic_ions();
    let order: Vec<usize> = vec![2, 4, 5, 1, 3, 0];
    proof {
        lemma_table_ok();
    }
    let mut j: usize = 0;
    while j < 6
        invariant
            j <= 6,
            comp.wf(),
            comp@.len() != 1,
            ions@.len() == 6,
            forall|i: int| 0 <= i < 6 ==> ion_view(#[trigger] ions@[i]) == ion_table()[i],
            forall|i: int| 0 <= i < 6 ==> ion_ok(#[trigger] ion_table()[i].2, ion_table()[i].1),
            order@ == seq![2usize, 4usize, 5usize, 1usize, 3usize, 0usize],
            factor_from(comp@, 0) == factor_from(comp@, j as int),
            factor_fits_from(comp@, 0) == factor_fits_from(comp@, j as int),
        decreases 6 - j,
    {
        let idx = order[j];
        assert(idx as int == factor_order()[j as int]);
        let ion = &ions[idx];
        let ghost iv = ion_view(*ion).2;
        let ghost ch = ion_view(*ion).1;
        match factor_parts(comp, ion) {
            Some((k, cidx, cc, _)) => {
                let c: i128 = -(ion.charge as i128);
                assert(-0x100_0000_0000_0000_0000 <= (c as int) * (k as int) <= 0x100_0000_0000_0000_0000)
                    by (nonlinear_arith)
                    requires
                        -128 <= c <= 128,
                        i64::MIN <= k <= i64::MAX,
                ;
                let total: i128 = c * (k as i128);
                if total < -(i64::MAX as i128) || total > i64::MAX as i128 {
                    assert(!factor_total_fits(comp@, iv, ch));
                    return false;
                }
                assert(factor_total_fits(comp@, iv, ch));
                let t = total as i64;
                if cc != 0 && trunc_rem_exec(t, cc) == 0 {
                    assert(factor_with(comp@, iv, ch) is Some);
                    assert(factor_from(comp@, j as int) is Some);
                    return true;
                }
                assert(factor_with(comp@, iv, ch) is None);
            },
            None => {
                assert(factor_total_fits(comp@, iv, ch));
                assert(factor_with(comp@, iv, ch) is None);
            },
        }
        j = j + 1;
    }
    rules_fit_exec(comp)
}

} // verus!
