//! The oxidation states assigned to a neutral compound balance: weighted by
//! the atom counts they sum to zero.
use crate::composition::{law_with_entry, lemma_lookup_unique, lookup, sorted_entries, with_entry};
use crate::math::{abs, trunc_div, trunc_rem};
use crate::oxidation_state::{
    by_rules_of, factor_from, multiple_from, factor_fits_from, factor_order, factor_total_fits, factor_with,
    fixed_state_of, ion_count_from, ion_ok, ion_scan, ion_states_of, lemma_ion_count_found,
    lemma_multiple_bound, lemma_scan_fail, lemma_table_ok, max_multiple_of, oxidation_fits,
    oxidation_of, remainder_from, rules_fit, rules_scan, Entries, IonComp,
};
use crate::polyatomic::ion_table;
use vstd::prelude::*;

verus! {

/// The state that `st` assigns to `s`, 0 when it assigns none.
pub open spec fn state_in(st: Entries, s: Seq<char>) -> int {
    match lookup(st, s) {
        Some(v) => v as int,
        None => 0,
    }
}

/// The charge of `comp`'s first `i` entries under the states `st`: each
/// element's state times its atom count.
pub open spec fn charge_upto(comp: Entries, st: Entries, i: int) -> int
    decreases i,
{
    if i <= 0 {
        0
    } else {
        charge_upto(comp, st, i - 1) + state_in(st, comp[i - 1].0) * comp[i - 1].1
    }
}

/// The net charge of `comp` under the states `st`.
pub open spec fn net_charge(comp: Entries, st: Entries) -> int {
    charge_upto(comp, st, comp.len() as int)
}

/// Every element of `comp` is assigned a state by `st`.
pub open spec fn covers(comp: Entries, st: Entries) -> bool {
    forall|j: int| 0 <= j < comp.len() ==> (#[trigger] lookup(st, comp[j].0)) is Some
}

/// A quotient with no remainder multiplies back to the dividend.
proof fn lemma_exact_div(a: int, b: int)
    requires
        b != 0,
        trunc_rem(a, b) == 0,
    ensures
        trunc_div(a, b) * b == a,
        abs(trunc_div(a, b)) <= abs(a),
{
    let q = abs(a) / abs(b);
    assert(q * abs(b) == abs(a)) by (nonlinear_arith)
        requires
            abs(b) > 0,
            abs(a) >= 0,
            abs(a) % abs(b) == 0,
            q == abs(a) / abs(b),
    ;
    assert(q <= abs(a)) by (nonlinear_arith)
        requires
            abs(b) >= 1,
            q >= 0,
            q * abs(b) == abs(a),
    ;
    assert(q >= 0) by (nonlinear_arith)
        requires
            abs(b) > 0,
            abs(a) >= 0,
            q == abs(a) / abs(b),
    ;
    if b < 0 {
        assert(q * b == -(q * abs(b))) by (nonlinear_arith)
            requires
                abs(b) == -b,
        ;
        assert(-q * b == q * abs(b)) by (nonlinear_arith)
            requires
                abs(b) == -b,
        ;
    } else {
        assert(-q * b == -(q * abs(b))) by (nonlinear_arith)
            requires
                abs(b) == b,
        ;
    }
}

proof fn lemma_fixed_small(s: Seq<char>)
    ensures
        fixed_state_of(s) matches Some(v) ==> -2 <= v <= 2,
{
}

/// The element-rule scan of the first `i` entries: its states are ordered,
/// each scanned element with a rule has its fixed state, its sum is the
/// charge of those elements, and its unknowns are exactly the scanned
/// elements without a rule, in order.
proof fn lemma_rules_scan(comp: Entries, i: int)
    requires
        0 <= i <= comp.len(),
        sorted_entries(comp),
    ensures
        sorted_entries(rules_scan(comp, i).0),
        forall|j: int|
            0 <= j < i ==> (fixed_state_of((#[trigger] comp[j]).0) matches Some(fx) ==> lookup(
                rules_scan(comp, i).0,
                comp[j].0,
            ) == Some(fx as i64)),
        forall|t: int|
            0 <= t < rules_scan(comp, i).2.len() ==> 0 <= #[trigger] rules_scan(comp, i).2[t] < i
                && fixed_state_of(comp[rules_scan(comp, i).2[t]].0) is None,
        forall|j: int|
            0 <= j < i && (fixed_state_of((#[trigger] comp[j]).0) is None) ==> exists|t: int|
                0 <= t < rules_scan(comp, i).2.len() && rules_scan(comp, i).2[t] == j,
        forall|t1: int, t2: int|
            0 <= t1 < t2 < rules_scan(comp, i).2.len() ==> #[trigger] rules_scan(comp, i).2[t1]
                < #[trigger] rules_scan(comp, i).2[t2],
        rules_scan(comp, i).1 == fixed_upto(comp, i),
    decreases i,
{
    if i > 0 {
        lemma_rules_scan(comp, i - 1);
        let prev = rules_scan(comp, i - 1);
        let key = comp[i - 1].0;
        lemma_fixed_small(key);
        match fixed_state_of(key) {
            Some(fx) => {
                law_with_entry(prev.0, key, fx as i64);
                assert forall|j: int|
                    0 <= j < i && (fixed_state_of((#[trigger] comp[j]).0) matches Some(f2)) implies lookup(
                    rules_scan(comp, i).0,
                    comp[j].0,
                ) == Some(fixed_state_of(comp[j].0)->0 as i64) by {
                    if j < i - 1 {
                        assert(comp[j].0 != key) by {
                            assert(crate::composition::str_lt(comp[j].0, comp[i - 1].0));
                            crate::composition::lemma_str_lt_irreflexive(key);
                        }
                    }
                }
            },
            None => {
                let s2 = prev.2.push(i - 1);
                assert forall|j: int|
                    0 <= j < i && (fixed_state_of((#[trigger] comp[j]).0) is None) implies exists|t: int|
                    0 <= t < s2.len() && s2[t] == j by {
                    if j == i - 1 {
                        assert(s2[s2.len() - 1] == j);
                    } else {
                        let t = choose|t: int| 0 <= t < prev.2.len() && prev.2[t] == j;
                        assert(s2[t] == j);
                    }
                }
                assert forall|t: int| 0 <= t < s2.len() implies 0 <= #[trigger] s2[t] < i
                    && fixed_state_of(comp[s2[t]].0) is None by {
                    if t < prev.2.len() {
                        assert(s2[t] == prev.2[t]);
                    }
                }
                assert forall|t1: int, t2: int| 0 <= t1 < t2 < s2.len() implies #[trigger] s2[t1]
                    < #[trigger] s2[t2] by {
                    assert(s2[t1] == prev.2[t1]);
                    if t2 < prev.2.len() {
                        assert(s2[t2] == prev.2[t2]);
                    }
                }
            },
        }
    }
}

/// The charge of the first `i` entries counting only the elements with a
/// fixed state.
pub open spec fn fixed_upto(comp: Entries, i: int) -> int
    decreases i,
{
    if i <= 0 {
        0
    } else {
        fixed_upto(comp, i - 1) + match fixed_state_of(comp[i - 1].0) {
            Some(fx) => fx * comp[i - 1].1,
            None => 0,
        }
    }
}

/// Under states that give every ruled element its fixed state and the one
/// unknown at `u` the value `v`, the charge is the fixed charge plus `v`
/// times the unknown's count.
proof fn lemma_rules_charge(comp: Entries, st: Entries, u: int, v: int, i: int)
    requires
        0 <= i <= comp.len(),
        forall|j: int|
            0 <= j < comp.len() ==> state_in(st, (#[trigger] comp[j]).0) == (match fixed_state_of(
                comp[j].0,
            ) {
                Some(fx) => fx,
                None => if j == u {
                    v
                } else {
                    0
                },
            }),
        forall|j: int| 0 <= j < comp.len() && j != u ==> (fixed_state_of((#[trigger] comp[j]).0) is Some),
        0 <= u < comp.len() ==> fixed_state_of(comp[u].0) is None,
    ensures
        charge_upto(comp, st, i) == fixed_upto(comp, i) + (if 0 <= u < i {
            v * comp[u].1
        } else {
            0
        }),
    decreases i,
{
    if i > 0 {
        lemma_rules_charge(comp, st, u, v, i - 1);
        let j = i - 1;
        assert(state_in(st, comp[j].0) == (match fixed_state_of(comp[j].0) {
            Some(fx) => fx,
            None => if j == u {
                v
            } else {
                0
            },
        }));
    }
}

/// The element rules, when they assign states, assign every element one, and
/// the compound's charge under them is zero.
proof fn lemma_by_rules_neutral(comp: Entries)
    requires
        sorted_entries(comp),
        rules_fit(comp),
        by_rules_of(comp) is Some,
    ensures
        covers(comp, by_rules_of(comp)->0),
        net_charge(comp, by_rules_of(comp)->0) == 0,
{
    let n = comp.len() as int;
    lemma_rules_scan(comp, n);
    let scan = rules_scan(comp, n);
    let st = by_rules_of(comp)->0;
    if scan.2.len() == 1 {
        let u = scan.2[0];
        let count = comp[u].1 as int;
        let need = -scan.1;
        lemma_exact_div(need, count);
        let v = trunc_div(need, count);
        assert(i64::MIN < v <= i64::MAX);
        law_with_entry(scan.0, comp[u].0, v as i64);
        assert forall|j: int| 0 <= j < comp.len() && j != u implies (fixed_state_of(
            (#[trigger] comp[j]).0,
        ) is Some) by {
            if fixed_state_of(comp[j].0) is None {
                let t = choose|t: int| 0 <= t < scan.2.len() && scan.2[t] == j;
            }
        }
        assert forall|j: int| 0 <= j < comp.len() implies state_in(st, (#[trigger] comp[j]).0) == (
        match fixed_state_of(comp[j].0) {
            Some(fx) => fx,
            None => if j == u {
                v
            } else {
                0
            },
        }) && lookup(st, comp[j].0) is Some by {
            if j != u {
                assert(comp[j].0 != comp[u].0) by {
                    if j < u {
                        assert(crate::composition::str_lt(comp[j].0, comp[u].0));
                    } else {
                        assert(crate::composition::str_lt(comp[u].0, comp[j].0));
                    }
                    crate::composition::lemma_str_lt_irreflexive(comp[j].0);
                }
            }
        }
        lemma_rules_charge(comp, st, u, v, n);
        assert(v * count == need) by (nonlinear_arith)
            requires
                v * count == need,
        ;
    } else {
        assert(scan.2.len() == 0);
        assert forall|j: int| 0 <= j < comp.len() implies state_in(st, (#[trigger] comp[j]).0) == (
        match fixed_state_of(comp[j].0) {
            Some(fx) => fx,
            None => if j == -1 {
                0
            } else {
                0
            },
        }) && lookup(st, comp[j].0) is Some by {
            if fixed_state_of(comp[j].0) is None {
                let t = choose|t: int| 0 <= t < scan.2.len() && scan.2[t] == j;
            }
        }
        assert forall|j: int| 0 <= j < comp.len() && j != -1 implies (fixed_state_of(
            (#[trigger] comp[j]).0,
        ) is Some) by {
            if fixed_state_of(comp[j].0) is None {
                let t = choose|t: int| 0 <= t < scan.2.len() && scan.2[t] == j;
            }
        }
        lemma_rules_charge(comp, st, -1, 0, n);
    }
}

/// Distinct symbols.
pub open spec fn distinct_keys(a: Seq<Seq<char>>) -> bool {
    forall|i: int, j: int| 0 <= i < j < a.len() ==> #[trigger] a[i] != #[trigger] a[j]
}

/// The sum of `h` over the symbols `a`.
pub open spec fn key_sum(a: Seq<Seq<char>>, h: spec_fn(Seq<char>) -> int) -> int
    decreases a.len(),
{
    if a.len() == 0 {
        0
    } else {
        key_sum(a.drop_last(), h) + h(a.last())
    }
}

proof fn lemma_distinct_drop_last(a: Seq<Seq<char>>)
    requires
        distinct_keys(a),
        a.len() > 0,
    ensures
        distinct_keys(a.drop_last()),
        !a.drop_last().contains(a.last()),
{
    assert forall|i: int, j: int| 0 <= i < j < a.drop_last().len() implies #[trigger] a.drop_last()[i]
        != #[trigger] a.drop_last()[j] by {
        assert(a.drop_last()[i] == a[i] && a.drop_last()[j] == a[j]);
    }
    if a.drop_last().contains(a.last()) {
        let i = choose|i: int| 0 <= i < a.drop_last().len() && a.drop_last()[i] == a.last();
        assert(a[i] == a[a.len() - 1]);
    }
}

proof fn lemma_key_sum_agree(a: Seq<Seq<char>>, h: spec_fn(Seq<char>) -> int, g: spec_fn(Seq<char>) -> int)
    requires
        forall|i: int| 0 <= i < a.len() ==> h(#[trigger] a[i]) == g(a[i]),
    ensures
        key_sum(a, h) == key_sum(a, g),
    decreases a.len(),
{
    if a.len() > 0 {
        assert forall|i: int| 0 <= i < a.drop_last().len() implies h(#[trigger] a.drop_last()[i]) == g(
            a.drop_last()[i],
        ) by {
            assert(a.drop_last()[i] == a[i]);
        }
        lemma_key_sum_agree(a.drop_last(), h, g);
        assert(h(a[a.len() - 1]) == g(a[a.len() - 1]));
    }
}

/// Zeroing `h` at a symbol that occurs once in `a` takes its value off the sum.
proof fn lemma_key_sum_remove_one(a: Seq<Seq<char>>, h: spec_fn(Seq<char>) -> int, x: Seq<char>)
    requires
        distinct_keys(a),
        a.contains(x),
    ensures
        key_sum(a, h) == key_sum(a, |y: Seq<char>| if y == x { 0 } else { h(y) }) + h(x),
    decreases a.len(),
{
    let h2 = |y: Seq<char>| if y == x { 0 } else { h(y) };
    lemma_distinct_drop_last(a);
    if a.last() == x {
        assert forall|i: int| 0 <= i < a.drop_last().len() implies h(#[trigger] a.drop_last()[i]) == h2(
            a.drop_last()[i],
        ) by {
            assert(a.drop_last().contains(a.drop_last()[i]));
        }
        lemma_key_sum_agree(a.drop_last(), h, h2);
    } else {
        let i = choose|i: int| 0 <= i < a.len() && a[i] == x;
        assert(i != a.len() - 1);
        assert(a.drop_last()[i] == x);
        lemma_key_sum_remove_one(a.drop_last(), h, x);
    }
}

proof fn lemma_key_sum_zero(a: Seq<Seq<char>>, h: spec_fn(Seq<char>) -> int)
    requires
        forall|i: int| 0 <= i < a.len() ==> h(#[trigger] a[i]) == 0,
    ensures
        key_sum(a, h) == 0,
    decreases a.len(),
{
    if a.len() > 0 {
        assert forall|i: int| 0 <= i < a.drop_last().len() implies h(#[trigger] a.drop_last()[i]) == 0 by {
            assert(a.drop_last()[i] == a[i]);
        }
        lemma_key_sum_zero(a.drop_last(), h);
        assert(h(a[a.len() - 1]) == 0);
    }
}

/// Summing over two lists of distinct symbols gives the same total when every
/// symbol of the second is in the first and `h` vanishes off the second.
proof fn lemma_key_sum_reindex(a: Seq<Seq<char>>, b: Seq<Seq<char>>, h: spec_fn(Seq<char>) -> int)
    requires
        distinct_keys(a),
        distinct_keys(b),
        forall|x: Seq<char>| b.contains(x) ==> a.contains(x),
        forall|x: Seq<char>| !b.contains(x) ==> h(x) == 0,
    ensures
        key_sum(a, h) == key_sum(b, h),
    decreases b.len(),
{
    if b.len() == 0 {
        assert forall|i: int| 0 <= i < a.len() implies h(#[trigger] a[i]) == 0 by {
            assert(!b.contains(a[i]));
        }
        lemma_key_sum_zero(a, h);
    } else {
        let x = b.last();
        let h2 = |y: Seq<char>| if y == x { 0 } else { h(y) };
        let b2 = b.drop_last();
        lemma_distinct_drop_last(b);
        assert(b.contains(x)) by {
            assert(b[b.len() - 1] == x);
        }
        lemma_key_sum_remove_one(a, h, x);
        assert forall|i: int| 0 <= i < b2.len() implies h(#[trigger] b2[i]) == h2(b2[i]) by {
            assert(b2.contains(b2[i]));
        }
        lemma_key_sum_agree(b2, h, h2);
        assert forall|y: Seq<char>| b2.contains(y) implies a.contains(y) by {
            let i = choose|i: int| 0 <= i < b2.len() && b2[i] == y;
            assert(b[i] == y);
        }
        assert forall|y: Seq<char>| !b2.contains(y) implies h2(y) == 0 by {
            if y != x {
                if b.contains(y) {
                    let i = choose|i: int| 0 <= i < b.len() && b[i] == y;
                    assert(i != b.len() - 1);
                    assert(b2[i] == y);
                }
            }
        }
        lemma_key_sum_reindex(a, b2, h2);
    }
}

/// The symbols of a composition, in order.
pub open spec fn comp_keys(comp: Entries) -> Seq<Seq<char>> {
    comp.map_values(|e: (Seq<char>, i64)| e.0)
}

/// The symbols of an ion, in order.
pub open spec fn ion_keys(ion: IonComp) -> Seq<Seq<char>> {
    ion.map_values(|e: (Seq<char>, int)| e.0)
}

/// The charge of an ion's first `i` entries under the states `st`.
pub open spec fn ion_charge_upto(ion: IonComp, st: Entries, i: int) -> int
    decreases i,
{
    if i <= 0 {
        0
    } else {
        ion_charge_upto(ion, st, i - 1) + state_in(st, ion[i - 1].0) * ion[i - 1].1
    }
}

/// The charge of an ion's first `i` entries counting only fixed states.
pub open spec fn ion_fixed_upto(ion: IonComp, i: int) -> int
    decreases i,
{
    if i <= 0 {
        0
    } else {
        ion_fixed_upto(ion, i - 1) + match fixed_state_of(ion[i - 1].0) {
            Some(fx) => fx * ion[i - 1].1,
            None => 0,
        }
    }
}

/// An unfailed ion scan of the first `i` entries: ordered states, each
/// scanned element with a rule at its fixed state, the fixed charge as its
/// sum, and at most one element without a rule, which it records.
proof fn lemma_ion_scan(ion: IonComp, charge: int, i: int)
    requires
        0 <= i <= ion.len(),
        ion_ok(ion, charge),
        ion_scan(ion, i).3,
    ensures
        sorted_entries(ion_scan(ion, i).0),
        forall|j: int|
            0 <= j < i ==> (fixed_state_of((#[trigger] ion[j]).0) matches Some(fx) ==> lookup(
                ion_scan(ion, i).0,
                ion[j].0,
            ) == Some(fx as i64)),
        ion_scan(ion, i).1 == ion_fixed_upto(ion, i),
        match ion_scan(ion, i).2 {
            Some(u) => 0 <= u < i && fixed_state_of(ion[u].0) is None && forall|j: int|
                0 <= j < i && j != u ==> (fixed_state_of((#[trigger] ion[j]).0) is Some),
            None => forall|j: int| 0 <= j < i ==> (fixed_state_of((#[trigger] ion[j]).0) is Some),
        },
    decreases i,
{
    if i > 0 {
        let prev = ion_scan(ion, i - 1);
        assert(prev.3);
        lemma_ion_scan(ion, charge, i - 1);
        let key = ion[i - 1].0;
        lemma_fixed_small(key);
        match fixed_state_of(key) {
            Some(fx) => {
                law_with_entry(prev.0, key, fx as i64);
                assert forall|j: int|
                    0 <= j < i && (fixed_state_of((#[trigger] ion[j]).0) matches Some(f2)) implies lookup(
                    ion_scan(ion, i).0,
                    ion[j].0,
                ) == Some(fixed_state_of(ion[j].0)->0 as i64) by {
                    if j < i - 1 {
                        assert(ion[j].0 != key);
                    }
                }
            },
            None => {},
        }
    }
}

/// Under states that give every ruled element of the ion its fixed state and
/// the one unknown at `u` the value `v`, the ion's charge is its fixed charge
/// plus `v` times the unknown's count.
proof fn lemma_ion_charge(ion: IonComp, st: Entries, u: int, v: int, i: int)
    requires
        0 <= i <= ion.len(),
        forall|j: int|
            0 <= j < ion.len() ==> state_in(st, (#[trigger] ion[j]).0) == (match fixed_state_of(
                ion[j].0,
            ) {
                Some(fx) => fx,
                None => if j == u {
                    v
                } else {
                    0
                },
            }),
        forall|j: int| 0 <= j < ion.len() && j != u ==> (fixed_state_of((#[trigger] ion[j]).0) is Some),
        0 <= u < ion.len() ==> fixed_state_of(ion[u].0) is None,
    ensures
        ion_charge_upto(ion, st, i) == ion_fixed_upto(ion, i) + (if 0 <= u < i {
            v * ion[u].1
        } else {
            0
        }),
    decreases i,
{
    if i > 0 {
        lemma_ion_charge(ion, st, u, v, i - 1);
        let j = i - 1;
        assert(state_in(st, ion[j].0) == (match fixed_state_of(ion[j].0) {
            Some(fx) => fx,
            None => if j == u {
                v
            } else {
                0
            },
        }));
    }
}

proof fn lemma_ion_fixed_bound(ion: IonComp, i: int)
    requires
        0 <= i <= ion.len(),
        forall|j: int| 0 <= j < ion.len() ==> 1 <= #[trigger] ion[j].1 <= 255,
    ensures
        -510 * i <= ion_fixed_upto(ion, i) <= 510 * i,
    decreases i,
{
    if i > 0 {
        lemma_ion_fixed_bound(ion, i - 1);
        lemma_fixed_small(ion[i - 1].0);
        let c = ion[i - 1].1;
        match fixed_state_of(ion[i - 1].0) {
            Some(fx) => {
                assert(-510 <= fx * c <= 510) by (nonlinear_arith)
                    requires
                        -2 <= fx <= 2,
                        1 <= c <= 255,
                ;
            },
            None => {},
        }
    }
}

/// The states inside an ion cover its elements, are ordered, and weighted by
/// the atom counts sum to the ion's charge.
proof fn lemma_ion_states(ion: IonComp, charge: int)
    requires
        ion_ok(ion, charge),
        ion_states_of(ion, charge) is Some,
    ensures
        sorted_entries(ion_states_of(ion, charge)->0),
        forall|j: int| 0 <= j < ion.len() ==> (#[trigger] lookup(ion_states_of(ion, charge)->0, ion[j].0)) is Some,
        ion_charge_upto(ion, ion_states_of(ion, charge)->0, ion.len() as int) == charge,
{
    let n = ion.len() as int;
    let scan = ion_scan(ion, n);
    lemma_ion_scan(ion, charge, n);
    lemma_ion_fixed_bound(ion, n);
    let st = ion_states_of(ion, charge)->0;
    match scan.2 {
        Some(u) => {
            let cnt = ion[u].1;
            let need = charge - scan.1;
            lemma_exact_div(need, cnt);
            let v = trunc_div(need, cnt);
            assert(i64::MIN < v <= i64::MAX);
            law_with_entry(scan.0, ion[u].0, v as i64);
            assert forall|j: int| 0 <= j < ion.len() implies state_in(st, (#[trigger] ion[j]).0) == (
            match fixed_state_of(ion[j].0) {
                Some(fx) => fx,
                None => if j == u {
                    v
                } else {
                    0
                },
            }) && lookup(st, ion[j].0) is Some by {
                if j != u {
                    if j < u {
                        assert(ion[j].0 != ion[u].0);
                    } else {
                        assert(ion[u].0 != ion[j].0);
                    }
                }
            }
            lemma_ion_charge(ion, st, u, v, n);
        },
        None => {
            assert forall|j: int| 0 <= j < ion.len() implies state_in(st, (#[trigger] ion[j]).0) == (
            match fixed_state_of(ion[j].0) {
                Some(fx) => fx,
                None => 0,
            }) && lookup(st, ion[j].0) is Some by {}
            lemma_ion_charge(ion, st, -1, 0, n);
        },
    }
}

/// An entry of `comp` stays in the remainder: it is not an ion element, or
/// something of it is left once `k` copies of the ion are taken away.
pub open spec fn kept(comp: Entries, ion: IonComp, k: int, j: int) -> bool {
    let n = ion_count_from(ion, comp[j].0, 0);
    n == 0 || comp[j].1 - n * k != 0
}

/// The remainder from entry `i` on is empty exactly when no entry there is
/// kept, and holds one entry exactly when one entry there is kept.
proof fn lemma_remainder(comp: Entries, ion: IonComp, k: int, i: int)
    requires
        0 <= i <= comp.len(),
    ensures
        remainder_from(comp, ion, k, i).len() == 0 ==> forall|j: int|
            i <= j < comp.len() ==> !kept(comp, ion, k, j),
        remainder_from(comp, ion, k, i).len() == 1 ==> exists|p: int|
            i <= p < comp.len() && kept(comp, ion, k, p) && remainder_from(comp, ion, k, i)[0] == (
            comp[p].0,
            (comp[p].1 - ion_count_from(ion, comp[p].0, 0) * k) as i64,
        ) && forall|j: int| i <= j < comp.len() && j != p ==> !kept(comp, ion, k, j),
    decreases comp.len() - i,
{
    if i < comp.len() {
        lemma_remainder(comp, ion, k, i + 1);
        let rest = remainder_from(comp, ion, k, i + 1);
        if kept(comp, ion, k, i) {
            let x = (comp[i].0, (comp[i].1 - ion_count_from(ion, comp[i].0, 0) * k) as i64);
            assert(remainder_from(comp, ion, k, i) == seq![x] + rest);
            if remainder_from(comp, ion, k, i).len() == 1 {
                assert(rest.len() == 0);
                assert((seq![x] + rest)[0] == x);
            }
        } else {
            assert(remainder_from(comp, ion, k, i) == rest);
        }
    }
}

/// The count of an ion's element is its atom count in the ion.
proof fn lemma_ion_count_at(ion: IonComp, charge: int, j: int, i: int)
    requires
        ion_ok(ion, charge),
        0 <= i <= j < ion.len(),
    ensures
        ion_count_from(ion, ion[j].0, i) == ion[j].1,
    decreases j - i,
{
    if i < j {
        assert(ion[i].0 != ion[j].0);
        lemma_ion_count_at(ion, charge, j, i + 1);
    }
}

/// A symbol that is no element of the ion has count 0 in it.
proof fn lemma_ion_count_absent(ion: IonComp, s: Seq<char>)
    requires
        !ion_keys(ion).contains(s),
    ensures
        ion_count_from(ion, s, 0) == 0,
{
    if ion_count_from(ion, s, 0) != 0 {
        lemma_ion_count_found(ion, s, 0);
        let j = choose|j: int| 0 <= j < ion.len() && (#[trigger] ion[j]).0 == s && ion[j].1 == ion_count_from(ion, s, 0);
        assert(ion_keys(ion)[j] == s);
    }
}

proof fn lemma_comp_keys_step(comp: Entries, i: int)
    requires
        0 < i <= comp.len(),
    ensures
        comp_keys(comp.take(i)).drop_last() == comp_keys(comp.take(i - 1)),
        comp_keys(comp.take(i)).last() == comp[i - 1].0,
{
    assert(comp_keys(comp.take(i)).drop_last() =~= comp_keys(comp.take(i - 1)));
}

proof fn lemma_ion_keys_step(ion: IonComp, i: int)
    requires
        0 < i <= ion.len(),
    ensures
        ion_keys(ion.take(i)).drop_last() == ion_keys(ion.take(i - 1)),
        ion_keys(ion.take(i)).last() == ion[i - 1].0,
{
    assert(ion_keys(ion.take(i)).drop_last() =~= ion_keys(ion.take(i - 1)));
}

/// The ion's charge is the sum over its symbols of state times count in the ion.
proof fn lemma_ion_charge_as_key_sum(ion: IonComp, charge: int, st: Entries, i: int)
    requires
        ion_ok(ion, charge),
        0 <= i <= ion.len(),
    ensures
        ion_charge_upto(ion, st, i) == key_sum(
            ion_keys(ion.take(i)),
            |s: Seq<char>| state_in(st, s) * ion_count_from(ion, s, 0),
        ),
    decreases i,
{
    if i > 0 {
        lemma_ion_charge_as_key_sum(ion, charge, st, i - 1);
        lemma_ion_keys_step(ion, i);
        lemma_ion_count_at(ion, charge, i - 1, 0);
    }
}

/// The compound's charge under the factored states: `k` times the ion part
/// of the first `i` entries, plus the counter-ion's share once it is passed.
proof fn lemma_factor_charge(
    comp: Entries,
    ion: IonComp,
    k: int,
    ion_st: Entries,
    st: Entries,
    p: int,
    cv: int,
    i: int,
)
    requires
        0 <= i <= comp.len(),
        0 <= p < comp.len(),
        ion_count_from(ion, comp[p].0, 0) == 0,
        state_in(st, comp[p].0) == cv,
        forall|j: int| 0 <= j < comp.len() && j != p ==> !kept(comp, ion, k, j),
        forall|j: int|
            0 <= j < comp.len() && j != p ==> state_in(st, (#[trigger] comp[j]).0) == state_in(
                ion_st,
                comp[j].0,
            ),
    ensures
        charge_upto(comp, st, i) == k * key_sum(
            comp_keys(comp.take(i)),
            |s: Seq<char>| state_in(ion_st, s) * ion_count_from(ion, s, 0),
        ) + (if p < i {
            cv * comp[p].1
        } else {
            0
        }),
    decreases i,
{
    let h = |s: Seq<char>| state_in(ion_st, s) * ion_count_from(ion, s, 0);
    if i > 0 {
        lemma_factor_charge(comp, ion, k, ion_st, st, p, cv, i - 1);
        lemma_comp_keys_step(comp, i);
        let j = i - 1;
        let prev = key_sum(comp_keys(comp.take(j)), h);
        if j == p {
            assert(h(comp[j].0) == 0);
            assert(k * (prev + 0) == k * prev) by (nonlinear_arith);
        } else {
            assert(!kept(comp, ion, k, j));
            let n = ion_count_from(ion, comp[j].0, 0);
            let sv = state_in(ion_st, comp[j].0);
            assert(comp[j].1 == n * k);
            assert(sv * (n * k) == k * (sv * n)) by (nonlinear_arith);
            assert(k * (prev + sv * n) == k * prev + k * (sv * n)) by (nonlinear_arith);
        }
    }
}

/// Factoring out an ion, when it succeeds, assigns every element a state,
/// and the compound's charge under those states is zero.
proof fn lemma_factor_neutral(comp: Entries, ion: IonComp, charge: int)
    requires
        sorted_entries(comp),
        ion_ok(ion, charge),
        factor_total_fits(comp, ion, charge),
        factor_with(comp, ion, charge) is Some,
    ensures
        covers(comp, factor_with(comp, ion, charge)->0),
        net_charge(comp, factor_with(comp, ion, charge)->0) == 0,
{
    let k = max_multiple_of(comp, ion)->0;
    let rem = remainder_from(comp, ion, k, 0);
    let ion_st = ion_states_of(ion, charge)->0;
    let ck = rem[0].0;
    let cc = rem[0].1 as int;
    let total = -charge * k;
    lemma_exact_div(total, cc);
    let cv = trunc_div(total, cc);
    assert(i64::MIN < cv <= i64::MAX);
    let st = with_entry(ion_st, ck, cv as i64);
    assert(st == factor_with(comp, ion, charge)->0);
    lemma_ion_states(ion, charge);
    law_with_entry(ion_st, ck, cv as i64);
    lemma_remainder(comp, ion, k, 0);
    let p = choose|p: int|
        0 <= p < comp.len() && kept(comp, ion, k, p) && rem[0] == (
            comp[p].0,
            (comp[p].1 - ion_count_from(ion, comp[p].0, 0) * k) as i64,
        ) && forall|j: int| 0 <= j < comp.len() && j != p ==> !kept(comp, ion, k, j);
    assert(comp[p].0 == ck && comp[p].1 == cc);
    // every element of the ion occurs in the compound
    lemma_multiple_bound(comp, ion, 0, i64::MAX as int);
    let ck_keys = comp_keys(comp);
    let ik = ion_keys(ion);
    assert forall|x: Seq<char>| ik.contains(x) implies ck_keys.contains(x) by {
        let t = choose|t: int| 0 <= t < ik.len() && ik[t] == x;
        assert(ion[t].1 * k <= match lookup(comp, ion[t].0) {
            Some(v) => v as int,
            None => 0,
        });
        assert(ion[t].1 * k >= 1) by (nonlinear_arith)
            requires
                ion[t].1 >= 1,
                k >= 1,
        ;
        crate::composition::lemma_lookup_found_pub(comp, x);
        let j = choose|j: int| 0 <= j < comp.len() && comp[j].0 == x && Some(comp[j].1) == lookup(comp, x);
        assert(ck_keys[j] == x);
    }
    // the counter element is no element of the ion
    assert(!ik.contains(ck)) by {
        if ik.contains(ck) {
            let t = choose|t: int| 0 <= t < ik.len() && ik[t] == ck;
            lemma_ion_count_at(ion, charge, t, 0);
        }
    }
    // states of the compound's elements
    assert forall|j: int|
        0 <= j < comp.len() && j != p implies state_in(st, (#[trigger] comp[j]).0) == state_in(
        ion_st,
        comp[j].0,
    ) && lookup(st, comp[j].0) is Some by {
        assert(comp[j].0 != ck) by {
            if j < p {
                assert(crate::composition::str_lt(comp[j].0, comp[p].0));
            } else {
                assert(crate::composition::str_lt(comp[p].0, comp[j].0));
            }
            crate::composition::lemma_str_lt_irreflexive(comp[j].0);
        }
        assert(!kept(comp, ion, k, j));
        let n = ion_count_from(ion, comp[j].0, 0);
        lemma_ion_count_found(ion, comp[j].0, 0);
        let t = choose|t: int| 0 <= t < ion.len() && (#[trigger] ion[t]).0 == comp[j].0 && ion[t].1 == n;
    }
    assert(covers(comp, st));
    let n = comp.len() as int;
    lemma_factor_charge(comp, ion, k, ion_st, st, p, cv, n);
    // reindex the ion part over the ion's own entries
    let h = |s: Seq<char>| state_in(ion_st, s) * ion_count_from(ion, s, 0);
    assert(comp.take(n) == comp);
    assert(ion.take(ion.len() as int) == ion);
    assert(distinct_keys(ck_keys)) by {
        assert forall|i: int, j: int| 0 <= i < j < ck_keys.len() implies #[trigger] ck_keys[i]
            != #[trigger] ck_keys[j] by {
            assert(crate::composition::str_lt(comp[i].0, comp[j].0));
            crate::composition::lemma_str_lt_irreflexive(comp[i].0);
        }
    }
    assert(distinct_keys(ik));
    assert forall|x: Seq<char>| !ik.contains(x) implies h(x) == 0 by {
        lemma_ion_count_absent(ion, x);
    }
    lemma_key_sum_reindex(ck_keys, ik, h);
    lemma_ion_charge_as_key_sum(ion, charge, ion_st, ion.len() as int);
    assert(cv * cc == total);
    assert(k * charge + total == 0) by (nonlinear_arith)
        requires
            total == -charge * k,
    ;
}

/// The first ion that factors the compound, from position `j` of the order
/// on, yields states that cover it and balance.
proof fn lemma_factor_from_neutral(comp: Entries, j: int)
    requires
        sorted_entries(comp),
        0 <= j <= 6,
        factor_fits_from(comp, j),
        factor_from(comp, j) is Some,
    ensures
        covers(comp, factor_from(comp, j)->0),
        net_charge(comp, factor_from(comp, j)->0) == 0,
    decreases 6 - j,
{
    if j < 6 {
        let idx = factor_order()[j];
        assert(0 <= idx < 6);
        lemma_table_ok();
        let ion = ion_table()[idx];
        assert(ion_ok(ion.2, ion.1));
        if factor_with(comp, ion.2, ion.1) is Some {
            lemma_factor_neutral(comp, ion.2, ion.1);
        } else {
            lemma_factor_from_neutral(comp, j + 1);
        }
    }
}

/// A compound is neutral: whenever oxidation states are assigned, every
/// element gets one, and the states weighted by the atom counts sum to zero.
pub proof fn law_oxidation_neutral(comp: Entries)
    requires
        sorted_entries(comp),
        oxidation_fits(comp),
        oxidation_of(comp) is Some,
    ensures
        covers(comp, oxidation_of(comp)->0),
        net_charge(comp, oxidation_of(comp)->0) == 0,
{
    if comp.len() == 1 {
        let st = seq![(comp[0].0, 0i64)];
        assert(lookup(st, comp[0].0) == Some(0i64));
        assert(state_in(st, comp[0].0) == 0);
        assert(charge_upto(comp, st, 1) == charge_upto(comp, st, 0) + state_in(st, comp[0].0) * comp[0].1);
        assert(oxidation_of(comp)->0 == st);
    } else if factor_from(comp, 0) is Some {
        lemma_factor_from_neutral(comp, 0);
    } else {
        lemma_by_rules_neutral(comp);
    }
}

/// Every symbol that `st` assigns occurs in `comp`.
pub open spec fn keys_within(st: Entries, comp: Entries) -> bool {
    forall|k: Seq<char>| #[trigger] lookup(st, k) is Some ==> lookup(comp, k) is Some
}

/// `k` is one of the ion's elements.
pub open spec fn ion_has(ion: IonComp, k: Seq<char>) -> bool {
    exists|t: int| 0 <= t < ion.len() && (#[trigger] ion[t]).0 == k
}

proof fn lemma_key_present(s: Entries, j: int)
    requires
        0 <= j < s.len(),
    ensures
        lookup(s, s[j].0) is Some,
{
    crate::composition::lemma_lookup_found_pub(s, s[j].0);
}

/// The element-rule scan assigns only symbols of the compound, keeps its
/// states sorted, and records unknowns among the entries scanned.
proof fn lemma_rules_scan_keys(comp: Entries, i: int)
    requires
        0 <= i <= comp.len(),
    ensures
        sorted_entries(rules_scan(comp, i).0),
        keys_within(rules_scan(comp, i).0, comp),
        forall|t: int| 0 <= t < rules_scan(comp, i).2.len() ==> 0 <= #[trigger] rules_scan(comp, i).2[t] < i,
    decreases i,
{
    if i > 0 {
        lemma_rules_scan_keys(comp, i - 1);
        let prev = rules_scan(comp, i - 1);
        let key = comp[i - 1].0;
        lemma_key_present(comp, i - 1);
        match fixed_state_of(key) {
            Some(fx) => {
                law_with_entry(prev.0, key, fx as i64);
                let cur = with_entry(prev.0, key, fx as i64);
                assert forall|k: Seq<char>| #[trigger] lookup(cur, k) is Some implies lookup(comp, k) is Some by {
                    if k != key {
                        assert(lookup(cur, k) == lookup(prev.0, k));
                    }
                }
            },
            None => {
                let cur = prev.2.push(i - 1);
                assert forall|t: int| 0 <= t < cur.len() implies 0 <= #[trigger] cur[t] < i by {
                    if t < prev.2.len() {
                        assert(cur[t] == prev.2[t]);
                    }
                }
            },
        }
    }
}

/// The ion scan assigns only the ion's own elements, keeps its states
/// sorted, and its unknown lies among the entries scanned.
proof fn lemma_ion_scan_keys(ion: IonComp, i: int)
    requires
        0 <= i <= ion.len(),
    ensures
        sorted_entries(ion_scan(ion, i).0),
        forall|k: Seq<char>| #[trigger] lookup(ion_scan(ion, i).0, k) is Some ==> ion_has(ion, k),
        ion_scan(ion, i).2 matches Some(j) ==> 0 <= j < i,
    decreases i,
{
    if i > 0 {
        lemma_ion_scan_keys(ion, i - 1);
        let prev = ion_scan(ion, i - 1);
        let key = ion[i - 1].0;
        assert(ion_has(ion, key)) by {
            assert(ion[i - 1].0 == key);
        }
        if prev.3 {
            match fixed_state_of(key) {
                Some(fx) => {
                    law_with_entry(prev.0, key, fx as i64);
                    let cur = with_entry(prev.0, key, fx as i64);
                    assert forall|k: Seq<char>| #[trigger] lookup(cur, k) is Some implies ion_has(ion, k) by {
                        if k != key {
                            assert(lookup(cur, k) == lookup(prev.0, k));
                        }
                    }
                },
                None => {},
            }
        }
    }
}

/// The states inside an ion are sorted and name only the ion's elements.
proof fn lemma_ion_states_keys(ion: IonComp, charge: int)
    requires
        ion_states_of(ion, charge) is Some,
    ensures
        sorted_entries(ion_states_of(ion, charge)->0),
        forall|k: Seq<char>| #[trigger] lookup(ion_states_of(ion, charge)->0, k) is Some ==> ion_has(ion, k),
{
    let scan = ion_scan(ion, ion.len() as int);
    lemma_ion_scan_keys(ion, ion.len() as int);
    if let Some(j) = scan.2 {
        let need = charge - scan.1;
        let v = trunc_div(need, ion[j].1) as i64;
        law_with_entry(scan.0, ion[j].0, v);
        let cur = with_entry(scan.0, ion[j].0, v);
        assert(ion_has(ion, ion[j].0)) by {
            assert(ion[j].0 == ion[j].0);
        }
        assert forall|k: Seq<char>| #[trigger] lookup(cur, k) is Some implies ion_has(ion, k) by {
            if k != ion[j].0 {
                assert(lookup(cur, k) == lookup(scan.0, k));
            }
        }
    }
}

/// What is left after factoring out an ion holds only symbols of the compound.
proof fn lemma_remainder_keys(comp: Entries, ion: IonComp, k: int, i: int)
    requires
        0 <= i,
    ensures
        forall|t: int|
            0 <= t < remainder_from(comp, ion, k, i).len() ==> lookup(
                comp,
                (#[trigger] remainder_from(comp, ion, k, i)[t]).0,
            ) is Some,
    decreases comp.len() - i,
{
    if i < comp.len() {
        lemma_remainder_keys(comp, ion, k, i + 1);
        lemma_key_present(comp, i);
        let rest = remainder_from(comp, ion, k, i + 1);
        let here = remainder_from(comp, ion, k, i);
        let n = ion_count_from(ion, comp[i].0, 0);
        let left = comp[i].1 - n * k;
        if !(n != 0 && left == 0) {
            assert forall|t: int| 0 <= t < here.len() implies lookup(comp, (#[trigger] here[t]).0) is Some by {
                if t > 0 {
                    assert(here[t] == rest[t - 1]);
                }
            }
        }
    }
}

/// Factoring out an ion assigns states only to symbols of the compound.
proof fn lemma_factor_keys(comp: Entries, ion: IonComp, charge: int)
    requires
        ion_ok(ion, charge),
        factor_with(comp, ion, charge) is Some,
    ensures
        keys_within(factor_with(comp, ion, charge)->0, comp),
{
    let k = max_multiple_of(comp, ion)->0;
    lemma_multiple_bound(comp, ion, 0, i64::MAX as int);
    let rem = remainder_from(comp, ion, k, 0);
    let st = ion_states_of(ion, charge)->0;
    lemma_ion_states_keys(ion, charge);
    lemma_remainder_keys(comp, ion, k, 0);
    assert(lookup(comp, rem[0].0) is Some);
    let total = -charge * k;
    let v = trunc_div(total, rem[0].1 as int) as i64;
    law_with_entry(st, rem[0].0, v);
    let r = with_entry(st, rem[0].0, v);
    assert forall|key: Seq<char>| #[trigger] lookup(r, key) is Some implies lookup(comp, key) is Some by {
        if key != rem[0].0 {
            assert(lookup(r, key) == lookup(st, key));
            assert(ion_has(ion, key));
            let t = choose|t: int| 0 <= t < ion.len() && (#[trigger] ion[t]).0 == key;
            assert(ion[t].1 * k <= match lookup(comp, ion[t].0) {
                Some(v) => v as int,
                None => 0,
            });
            assert(ion[t].1 * k >= 1) by (nonlinear_arith)
                requires
                    ion[t].1 >= 1,
                    k >= 1,
            ;
        }
    }
}

proof fn lemma_factor_from_keys(comp: Entries, j: int)
    requires
        0 <= j,
        factor_from(comp, j) is Some,
    ensures
        keys_within(factor_from(comp, j)->0, comp),
    decreases 6 - j,
{
    if j < 6 {
        let idx = factor_order()[j];
        assert(0 <= idx < 6);
        lemma_table_ok();
        let ion = ion_table()[idx];
        assert(ion_ok(ion.2, ion.1));
        if factor_with(comp, ion.2, ion.1) is Some {
            lemma_factor_keys(comp, ion.2, ion.1);
        } else {
            lemma_factor_from_keys(comp, j + 1);
        }
    }
}

/// The assigned oxidation states name exactly the compound's elements: every
/// element gets a state, and no other symbol does.
pub proof fn law_oxidation_keys(comp: Entries)
    requires
        sorted_entries(comp),
        oxidation_fits(comp),
        oxidation_of(comp) is Some,
    ensures
        forall|k: Seq<char>| #[trigger] lookup(oxidation_of(comp)->0, k) is Some <==> lookup(comp, k) is Some,
{
    let st = oxidation_of(comp)->0;
    law_oxidation_neutral(comp);
    if comp.len() == 1 {
        assert forall|k: Seq<char>| #[trigger] lookup(st, k) is Some implies lookup(comp, k) is Some by {
            lemma_key_present(comp, 0);
            assert(st == seq![(comp[0].0, 0i64)]);
            if k != comp[0].0 {
                let e = st.drop_first();
                assert(e =~= Seq::<(Seq<char>, i64)>::empty());
                assert(lookup(e, k) is None);
                assert(lookup(st, k) == lookup(e, k));
            }
        }
    } else if factor_from(comp, 0) is Some {
        lemma_factor_from_keys(comp, 0);
    } else {
        let scan = rules_scan(comp, comp.len() as int);
        lemma_rules_scan_keys(comp, comp.len() as int);
        if scan.2.len() == 1 {
            let idx = scan.2[0];
            let count = comp[idx].1 as int;
            let v = trunc_div(-scan.1, count) as i64;
            lemma_key_present(comp, idx);
            law_with_entry(scan.0, comp[idx].0, v);
            assert forall|k: Seq<char>| #[trigger] lookup(st, k) is Some implies lookup(comp, k) is Some by {
                if k != comp[idx].0 {
                    assert(lookup(st, k) == lookup(scan.0, k));
                }
            }
        }
    }
    assert forall|k: Seq<char>| #[trigger] lookup(comp, k) is Some implies lookup(st, k) is Some by {
        crate::composition::lemma_lookup_found_pub(comp, k);
        let j = choose|j: int| 0 <= j < comp.len() && comp[j].0 == k && Some(comp[j].1) == lookup(comp, k);
        assert(lookup(st, comp[j].0) is Some);
    }
}

/// An ion one of whose elements the compound lacks is not contained in it.
proof fn lemma_multiple_absent(comp: Entries, ion: IonComp, i: int, k: int, t: int)
    requires
        0 <= i <= t < ion.len(),
        lookup(comp, ion[t].0) is None,
        ion[t].1 >= 1,
    ensures
        multiple_from(comp, ion, i, k) is None,
    decreases t - i,
{
    let have = match lookup(comp, ion[i].0) {
        Some(v) => v as int,
        None => 0,
    };
    if i < t && have >= ion[i].1 {
        let m = have / ion[i].1;
        lemma_multiple_absent(comp, ion, i + 1, if m < k { m } else { k }, t);
    }
}

/// A two-element compound of a metal `m` and a non-metal `x`, both with a
/// fixed state, neither of them an element of any polyatomic ion other than
/// oxygen, whose fixed states balance: the element rules assign both.
proof fn lemma_binary_rules(comp: Entries, m: Seq<char>, a: i64, x: Seq<char>, b: i64, vm: int, vx: int)
    requires
        comp == seq![(m, a), (x, b)] || comp == seq![(x, b), (m, a)],
        m != x,
        fixed_state_of(m) == Some(vm),
        fixed_state_of(x) == Some(vx),
        -2 <= vm <= 2,
        -2 <= vx <= 2,
        m != "S"@ && m != "N"@ && m != "C"@ && m != "P"@ && m != "H"@ && m != "O"@,
        x != "S"@ && x != "N"@ && x != "C"@ && x != "P"@ && x != "H"@,
        1 <= a <= i64::MAX / 2,
        1 <= b <= i64::MAX / 2,
        vm * a + vx * b == 0,
    ensures
        oxidation_fits(comp),
        oxidation_of(comp) is Some,
        lookup(oxidation_of(comp)->0, m) == Some(vm as i64),
        lookup(oxidation_of(comp)->0, x) == Some(vx as i64),
        forall|k: Seq<char>| k != m && k != x ==> lookup(oxidation_of(comp)->0, k) is None,
{
    reveal_with_fuel(lookup, 3);
    let t = ion_table();
    assert(lookup(comp, "S"@) is None && lookup(comp, "N"@) is None && lookup(comp, "C"@) is None
        && lookup(comp, "P"@) is None && lookup(comp, "H"@) is None);
    assert(t[0].2[1] == ("H"@, 1int));
    assert(t[1].2[0] == ("N"@, 1int));
    assert(t[2].2[0] == ("S"@, 1int));
    assert(t[3].2[0] == ("C"@, 1int));
    assert(t[4].2[0] == ("P"@, 1int));
    assert(t[5].2[0] == ("N"@, 1int));
    lemma_multiple_absent(comp, t[0].2, 0, i64::MAX as int, 1);
    lemma_multiple_absent(comp, t[1].2, 0, i64::MAX as int, 0);
    lemma_multiple_absent(comp, t[2].2, 0, i64::MAX as int, 0);
    lemma_multiple_absent(comp, t[3].2, 0, i64::MAX as int, 0);
    lemma_multiple_absent(comp, t[4].2, 0, i64::MAX as int, 0);
    lemma_multiple_absent(comp, t[5].2, 0, i64::MAX as int, 0);
    reveal_with_fuel(factor_from, 7);
    reveal_with_fuel(factor_fits_from, 7);
    assert(factor_from(comp, 0) is None);
    assert(factor_fits_from(comp, 0));
    reveal_with_fuel(rules_scan, 3);
    let s1 = rules_scan(comp, 1);
    let s2 = rules_scan(comp, 2);
    assert(s1.2.len() == 0 && s2.2.len() == 0);
    assert(s2.1 == 0);
    assert(rules_fit(comp)) by {
        assert forall|i: int| 0 <= i <= comp.len() implies i64::MIN <= #[trigger] rules_scan(comp, i).1
            <= i64::MAX by {
            assert(rules_scan(comp, 0).1 == 0);
        }
    }
    let e = Seq::<(Seq<char>, i64)>::empty();
    law_with_entry(e, comp[0].0, s1.0[0].1);
    law_with_entry(s1.0, comp[1].0, (if comp[1].0 == m { vm } else { vx }) as i64);
    assert(by_rules_of(comp) == Some(s2.0));
    assert forall|k: Seq<char>| k != m && k != x implies lookup(oxidation_of(comp)->0, k) is None by {
        assert(lookup(s2.0, k) == lookup(s1.0, k));
        assert(lookup(s1.0, k) == lookup(e, k));
    }
}

/// The group 1 metals, lithium to francium.
pub open spec fn alkali_metals() -> Seq<Seq<char>> {
    seq!["Li"@, "Na"@, "K"@, "Rb"@, "Cs"@, "Fr"@]
}

/// The group 2 metals, beryllium to radium.
pub open spec fn alkaline_earth_metals() -> Seq<Seq<char>> {
    seq!["Be"@, "Mg"@, "Ca"@, "Sr"@, "Ba"@, "Ra"@]
}

/// The halogens fluorine, chlorine, bromine and iodine.
pub open spec fn halogens() -> Seq<Seq<char>> {
    seq!["F"@, "Cl"@, "Br"@, "I"@]
}

/// The fixed oxidation states of the element rules: every group 1 metal is
/// +1 and every group 2 metal +2, every halogen -1, oxygen -2 and hydrogen +1.
pub proof fn law_fixed_states()
    ensures
        forall|i: int| 0 <= i < 6 ==> fixed_state_of(#[trigger] alkali_metals()[i]) == Some(1int),
        forall|i: int| 0 <= i < 6 ==> fixed_state_of(#[trigger] alkaline_earth_metals()[i]) == Some(2int),
        forall|i: int| 0 <= i < 4 ==> fixed_state_of(#[trigger] halogens()[i]) == Some(-1int),
        fixed_state_of("O"@) == Some(-2int),
        fixed_state_of("H"@) == Some(1int),
{
    reveal_strlit("F");
    reveal_strlit("O");
    reveal_strlit("H");
    reveal_strlit("Cl");
    reveal_strlit("Br");
    reveal_strlit("I");
    reveal_strlit("Li");
    reveal_strlit("Na");
    reveal_strlit("K");
    reveal_strlit("Rb");
    reveal_strlit("Cs");
    reveal_strlit("Fr");
    reveal_strlit("Be");
    reveal_strlit("Mg");
    reveal_strlit("Ca");
    reveal_strlit("Sr");
    reveal_strlit("Ba");
    reveal_strlit("Ra");
    reveal_strlit("S");
    reveal_strlit("N");
    reveal_strlit("C");
    reveal_strlit("P");
    assert(fixed_state_of("F"@) == Some(-1int));
    assert(fixed_state_of("O"@) == Some(-2int)) by {
        assert("O"@[0] != "F"@[0]);
    }
    assert(fixed_state_of("H"@) == Some(1int)) by {
        assert("H"@[0] != "F"@[0]);
        assert("H"@[0] != "O"@[0]);
    }
    assert(fixed_state_of("Cl"@) == Some(-1int)) by {
        assert("Cl"@.len() != "F"@.len());
        assert("Cl"@.len() != "O"@.len());
        assert("Cl"@.len() != "H"@.len());
    }
    assert(fixed_state_of("Br"@) == Some(-1int)) by {
        assert("Br"@.len() != "F"@.len());
        assert("Br"@.len() != "O"@.len());
        assert("Br"@.len() != "H"@.len());
    }
    assert(fixed_state_of("I"@) == Some(-1int)) by {
        assert("I"@[0] != "F"@[0]);
        assert("I"@[0] != "O"@[0]);
        assert("I"@[0] != "H"@[0]);
    }
    assert(fixed_state_of("Li"@) == Some(1int)) by {
        assert("Li"@.len() != "F"@.len());
        assert("Li"@.len() != "O"@.len());
        assert("Li"@.len() != "H"@.len());
        assert("Li"@[0] != "Cl"@[0]);
        assert("Li"@[0] != "Br"@[0]);
        assert("Li"@.len() != "I"@.len());
    }
    assert(fixed_state_of("Na"@) == Some(1int)) by {
        assert("Na"@.len() != "F"@.len());
        assert("Na"@.len() != "O"@.len());
        assert("Na"@.len() != "H"@.len());
        assert("Na"@[0] != "Cl"@[0]);
        assert("Na"@[0] != "Br"@[0]);
        assert("Na"@.len() != "I"@.len());
    }
    assert(fixed_state_of("K"@) == Some(1int)) by {
        assert("K"@[0] != "F"@[0]);
        assert("K"@[0] != "O"@[0]);
        assert("K"@[0] != "H"@[0]);
        assert("K"@.len() != "Cl"@.len());
        assert("K"@.len() != "Br"@.len());
        assert("K"@[0] != "I"@[0]);
    }
    assert(fixed_state_of("Rb"@) == Some(1int)) by {
        assert("Rb"@.len() != "F"@.len());
        assert("Rb"@.len() != "O"@.len());
        assert("Rb"@.len() != "H"@.len());
        assert("Rb"@[0] != "Cl"@[0]);
        assert("Rb"@[0] != "Br"@[0]);
        assert("Rb"@.len() != "I"@.len());
    }
    assert(fixed_state_of("Cs"@) == Some(1int)) by {
        assert("Cs"@.len() != "F"@.len());
        assert("Cs"@.len() != "O"@.len());
        assert("Cs"@.len() != "H"@.len());
        assert("Cs"@[1] != "Cl"@[1]);
        assert("Cs"@[0] != "Br"@[0]);
        assert("Cs"@.len() != "I"@.len());
    }
    assert(fixed_state_of("Fr"@) == Some(1int)) by {
        assert("Fr"@.len() != "F"@.len());
        assert("Fr"@.len() != "O"@.len());
        assert("Fr"@.len() != "H"@.len());
        assert("Fr"@[0] != "Cl"@[0]);
        assert("Fr"@[0] != "Br"@[0]);
        assert("Fr"@.len() != "I"@.len());
    }
    assert(fixed_state_of("Be"@) == Some(2int)) by {
        assert("Be"@.len() != "F"@.len());
        assert("Be"@.len() != "O"@.len());
        assert("Be"@.len() != "H"@.len());
        assert("Be"@[0] != "Cl"@[0]);
        assert("Be"@[1] != "Br"@[1]);
        assert("Be"@.len() != "I"@.len());
        assert("Be"@[0] != "Li"@[0]);
        assert("Be"@[0] != "Na"@[0]);
        assert("Be"@.len() != "K"@.len());
        assert("Be"@[0] != "Rb"@[0]);
        assert("Be"@[0] != "Cs"@[0]);
        assert("Be"@[0] != "Fr"@[0]);
    }
    assert(fixed_state_of("Mg"@) == Some(2int)) by {
        assert("Mg"@.len() != "F"@.len());
        assert("Mg"@.len() != "O"@.len());
        assert("Mg"@.len() != "H"@.len());
        assert("Mg"@[0] != "Cl"@[0]);
        assert("Mg"@[0] != "Br"@[0]);
        assert("Mg"@.len() != "I"@.len());
        assert("Mg"@[0] != "Li"@[0]);
        assert("Mg"@[0] != "Na"@[0]);
        assert("Mg"@.len() != "K"@.len());
        assert("Mg"@[0] != "Rb"@[0]);
        assert("Mg"@[0] != "Cs"@[0]);
        assert("Mg"@[0] != "Fr"@[0]);
    }
    assert(fixed_state_of("Ca"@) == Some(2int)) by {
        assert("Ca"@.len() != "F"@.len());
        assert("Ca"@.len() != "O"@.len());
        assert("Ca"@.len() != "H"@.len());
        assert("Ca"@[1] != "Cl"@[1]);
        assert("Ca"@[0] != "Br"@[0]);
        assert("Ca"@.len() != "I"@.len());
        assert("Ca"@[0] != "Li"@[0]);
        assert("Ca"@[0] != "Na"@[0]);
        assert("Ca"@.len() != "K"@.len());
        assert("Ca"@[0] != "Rb"@[0]);
        assert("Ca"@[1] != "Cs"@[1]);
        assert("Ca"@[0] != "Fr"@[0]);
    }
    assert(fixed_state_of("Sr"@) == Some(2int)) by {
        assert("Sr"@.len() != "F"@.len());
        assert("Sr"@.len() != "O"@.len());
        assert("Sr"@.len() != "H"@.len());
        assert("Sr"@[0] != "Cl"@[0]);
        assert("Sr"@[0] != "Br"@[0]);
        assert("Sr"@.len() != "I"@.len());
        assert("Sr"@[0] != "Li"@[0]);
        assert("Sr"@[0] != "Na"@[0]);
        assert("Sr"@.len() != "K"@.len());
        assert("Sr"@[0] != "Rb"@[0]);
        assert("Sr"@[0] != "Cs"@[0]);
        assert("Sr"@[0] != "Fr"@[0]);
    }
    assert(fixed_state_of("Ba"@) == Some(2int)) by {
        assert("Ba"@.len() != "F"@.len());
        assert("Ba"@.len() != "O"@.len());
        assert("Ba"@.len() != "H"@.len());
        assert("Ba"@[0] != "Cl"@[0]);
        assert("Ba"@[1] != "Br"@[1]);
        assert("Ba"@.len() != "I"@.len());
        assert("Ba"@[0] != "Li"@[0]);
        assert("Ba"@[0] != "Na"@[0]);
        assert("Ba"@.len() != "K"@.len());
        assert("Ba"@[0] != "Rb"@[0]);
        assert("Ba"@[0] != "Cs"@[0]);
        assert("Ba"@[0] != "Fr"@[0]);
    }
    assert(fixed_state_of("Ra"@) == Some(2int)) by {
        assert("Ra"@.len() != "F"@.len());
        assert("Ra"@.len() != "O"@.len());
        assert("Ra"@.len() != "H"@.len());
        assert("Ra"@[0] != "Cl"@[0]);
        assert("Ra"@[0] != "Br"@[0]);
        assert("Ra"@.len() != "I"@.len());
        assert("Ra"@[0] != "Li"@[0]);
        assert("Ra"@[0] != "Na"@[0]);
        assert("Ra"@.len() != "K"@.len());
        assert("Ra"@[1] != "Rb"@[1]);
        assert("Ra"@[0] != "Cs"@[0]);
        assert("Ra"@[0] != "Fr"@[0]);
    }
    assert forall|i: int| 0 <= i < 6 implies fixed_state_of(#[trigger] alkali_metals()[i]) == Some(1int) by {
        if i == 0 {
            assert(alkali_metals()[0] == "Li"@);
        } else if i == 1 {
            assert(alkali_metals()[1] == "Na"@);
        } else if i == 2 {
            assert(alkali_metals()[2] == "K"@);
        } else if i == 3 {
            assert(alkali_metals()[3] == "Rb"@);
        } else if i == 4 {
            assert(alkali_metals()[4] == "Cs"@);
        } else if i == 5 {
            assert(alkali_metals()[5] == "Fr"@);
        }
    }
    assert forall|i: int| 0 <= i < 6 implies fixed_state_of(#[trigger] alkaline_earth_metals()[i]) == Some(2int) by {
        if i == 0 {
            assert(alkaline_earth_metals()[0] == "Be"@);
        } else if i == 1 {
            assert(alkaline_earth_metals()[1] == "Mg"@);
        } else if i == 2 {
            assert(alkaline_earth_metals()[2] == "Ca"@);
        } else if i == 3 {
            assert(alkaline_earth_metals()[3] == "Sr"@);
        } else if i == 4 {
            assert(alkaline_earth_metals()[4] == "Ba"@);
        } else if i == 5 {
            assert(alkaline_earth_metals()[5] == "Ra"@);
        }
    }
    assert forall|i: int| 0 <= i < 4 implies fixed_state_of(#[trigger] halogens()[i]) == Some(-1int) by {
        if i == 0 {
            assert(halogens()[0] == "F"@);
        } else if i == 1 {
            assert(halogens()[1] == "Cl"@);
        } else if i == 2 {
            assert(halogens()[2] == "Br"@);
        } else if i == 3 {
            assert(halogens()[3] == "I"@);
        }
    }
}

/// A binary salt of a group 1 or group 2 metal with a halide or an oxide,
/// in neutral proportion (NaCl, CaCl2, MgO, K2O), always receives oxidation
/// states, whichever of its two entries comes first: the metal its group
/// charge, +1 or +2, and the non-metal -1 (halide) or -2 (oxide). No other
/// symbol gets a state, and the computation stays within `i64`.
pub proof fn law_binary_salt_states(comp: Entries, m: Seq<char>, a: i64, x: Seq<char>, b: i64)
    requires
        comp == seq![(m, a), (x, b)] || comp == seq![(x, b), (m, a)],
        alkali_metals().contains(m) || alkaline_earth_metals().contains(m),
        halogens().contains(x) || x == "O"@,
        1 <= a <= i64::MAX / 2,
        1 <= b <= i64::MAX / 2,
        (if alkali_metals().contains(m) { 1int } else { 2int }) * a + (if x == "O"@ { -2int } else {
            -1int
        }) * b == 0,
    ensures
        oxidation_fits(comp),
        oxidation_of(comp) is Some,
        lookup(oxidation_of(comp)->0, m) == Some(if alkali_metals().contains(m) { 1i64 } else { 2i64 }),
        lookup(oxidation_of(comp)->0, x) == Some(if x == "O"@ { -2i64 } else { -1i64 }),
        forall|k: Seq<char>| k != m && k != x ==> lookup(oxidation_of(comp)->0, k) is None,
{
    law_fixed_states();
    reveal_strlit("F");
    reveal_strlit("O");
    reveal_strlit("H");
    reveal_strlit("Cl");
    reveal_strlit("Br");
    reveal_strlit("I");
    reveal_strlit("Li");
    reveal_strlit("Na");
    reveal_strlit("K");
    reveal_strlit("Rb");
    reveal_strlit("Cs");
    reveal_strlit("Fr");
    reveal_strlit("Be");
    reveal_strlit("Mg");
    reveal_strlit("Ca");
    reveal_strlit("Sr");
    reveal_strlit("Ba");
    reveal_strlit("Ra");
    reveal_strlit("S");
    reveal_strlit("N");
    reveal_strlit("C");
    reveal_strlit("P");
    let vm: int = if alkali_metals().contains(m) { 1int } else { 2int };
    let vx: int = if x == "O"@ { -2int } else { -1int };
    assert(m != x && m != "S"@ && m != "N"@ && m != "C"@ && m != "P"@ && m != "H"@ && m != "O"@) by {
        if alkali_metals().contains(m) {
        let i = choose|i: int| 0 <= i < 6 && alkali_metals()[i] == m;
            if i == 0 {
                assert(m == "Li"@);
                assert("Li"@.len() != "S"@.len());
                assert("Li"@.len() != "N"@.len());
                assert("Li"@.len() != "C"@.len());
                assert("Li"@.len() != "P"@.len());
                assert("Li"@.len() != "H"@.len());
                assert("Li"@.len() != "O"@.len());
                if halogens().contains(x) {
                    let j = choose|j: int| 0 <= j < 4 && halogens()[j] == x;
                    if j == 0 {
                        assert(x == "F"@);
                        assert("Li"@.len() != "F"@.len());
                    } else if j == 1 {
                        assert(x == "Cl"@);
                        assert("Li"@[0] != "Cl"@[0]);
                    } else if j == 2 {
                        assert(x == "Br"@);
                        assert("Li"@[0] != "Br"@[0]);
                    } else if j == 3 {
                        assert(x == "I"@);
                        assert("Li"@.len() != "I"@.len());
                    }
                } else {
                    assert("Li"@.len() != "O"@.len());
                }
            } else if i == 1 {
                assert(m == "Na"@);
                assert("Na"@.len() != "S"@.len());
                assert("Na"@.len() != "N"@.len());
                assert("Na"@.len() != "C"@.len());
                assert("Na"@.len() != "P"@.len());
                assert("Na"@.len() != "H"@.len());
                assert("Na"@.len() != "O"@.len());
                if halogens().contains(x) {
                    let j = choose|j: int| 0 <= j < 4 && halogens()[j] == x;
                    if j == 0 {
                        assert(x == "F"@);
                        assert("Na"@.len() != "F"@.len());
                    } else if j == 1 {
                        assert(x == "Cl"@);
                        assert("Na"@[0] != "Cl"@[0]);
                    } else if j == 2 {
                        assert(x == "Br"@);
                        assert("Na"@[0] != "Br"@[0]);
                    } else if j == 3 {
                        assert(x == "I"@);
                        assert("Na"@.len() != "I"@.len());
                    }
                } else {
                    assert("Na"@.len() != "O"@.len());
                }
            } else if i == 2 {
                assert(m == "K"@);
                assert("K"@[0] != "S"@[0]);
                assert("K"@[0] != "N"@[0]);
                assert("K"@[0] != "C"@[0]);
                assert("K"@[0] != "P"@[0]);
                assert("K"@[0] != "H"@[0]);
                assert("K"@[0] != "O"@[0]);
                if halogens().contains(x) {
                    let j = choose|j: int| 0 <= j < 4 && halogens()[j] == x;
                    if j == 0 {
                        assert(x == "F"@);
                        assert("K"@[0] != "F"@[0]);
                    } else if j == 1 {
                        assert(x == "Cl"@);
                        assert("K"@.len() != "Cl"@.len());
                    } else if j == 2 {
                        assert(x == "Br"@);
                        assert("K"@.len() != "Br"@.len());
                    } else if j == 3 {
                        assert(x == "I"@);
                        assert("K"@[0] != "I"@[0]);
                    }
                } else {
                    assert("K"@[0] != "O"@[0]);
                }
            } else if i == 3 {
                assert(m == "Rb"@);
                assert("Rb"@.len() != "S"@.len());
                assert("Rb"@.len() != "N"@.len());
                assert("Rb"@.len() != "C"@.len());
                assert("Rb"@.len() != "P"@.len());
                assert("Rb"@.len() != "H"@.len());
                assert("Rb"@.len() != "O"@.len());
                if halogens().contains(x) {
                    let j = choose|j: int| 0 <= j < 4 && halogens()[j] == x;
                    if j == 0 {
                        assert(x == "F"@);
                        assert("Rb"@.len() != "F"@.len());
                    } else if j == 1 {
                        assert(x == "Cl"@);
                        assert("Rb"@[0] != "Cl"@[0]);
                    } else if j == 2 {
                        assert(x == "Br"@);
                        assert("Rb"@[0] != "Br"@[0]);
                    } else if j == 3 {
                        assert(x == "I"@);
                        assert("Rb"@.len() != "I"@.len());
                    }
                } else {
                    assert("Rb"@.len() != "O"@.len());
                }
            } else if i == 4 {
                assert(m == "Cs"@);
                assert("Cs"@.len() != "S"@.len());
                assert("Cs"@.len() != "N"@.len());
                assert("Cs"@.len() != "C"@.len());
                assert("Cs"@.len() != "P"@.len());
                assert("Cs"@.len() != "H"@.len());
                assert("Cs"@.len() != "O"@.len());
                if halogens().contains(x) {
                    let j = choose|j: int| 0 <= j < 4 && halogens()[j] == x;
                    if j == 0 {
                        assert(x == "F"@);
                        assert("Cs"@.len() != "F"@.len());
                    } else if j == 1 {
                        assert(x == "Cl"@);
                        assert("Cs"@[1] != "Cl"@[1]);
                    } else if j == 2 {
                        assert(x == "Br"@);
                        assert("Cs"@[0] != "Br"@[0]);
                    } else if j == 3 {
                        assert(x == "I"@);
                        assert("Cs"@.len() != "I"@.len());
                    }
                } else {
                    assert("Cs"@.len() != "O"@.len());
                }
            } else if i == 5 {
                assert(m == "Fr"@);
                assert("Fr"@.len() != "S"@.len());
                assert("Fr"@.len() != "N"@.len());
                assert("Fr"@.len() != "C"@.len());
                assert("Fr"@.len() != "P"@.len());
                assert("Fr"@.len() != "H"@.len());
                assert("Fr"@.len() != "O"@.len());
                if halogens().contains(x) {
                    let j = choose|j: int| 0 <= j < 4 && halogens()[j] == x;
                    if j == 0 {
                        assert(x == "F"@);
                        assert("Fr"@.len() != "F"@.len());
                    } else if j == 1 {
                        assert(x == "Cl"@);
                        assert("Fr"@[0] != "Cl"@[0]);
                    } else if j == 2 {
                        assert(x == "Br"@);
                        assert("Fr"@[0] != "Br"@[0]);
                    } else if j == 3 {
                        assert(x == "I"@);
                        assert("Fr"@.len() != "I"@.len());
                    }
                } else {
                    assert("Fr"@.len() != "O"@.len());
                }
            }
        } else {
        let i = choose|i: int| 0 <= i < 6 && alkaline_earth_metals()[i] == m;
            if i == 0 {
                assert(m == "Be"@);
                assert("Be"@.len() != "S"@.len());
                assert("Be"@.len() != "N"@.len());
                assert("Be"@.len() != "C"@.len());
                assert("Be"@.len() != "P"@.len());
                assert("Be"@.len() != "H"@.len());
                assert("Be"@.len() != "O"@.len());
                if halogens().contains(x) {
                    let j = choose|j: int| 0 <= j < 4 && halogens()[j] == x;
                    if j == 0 {
                        assert(x == "F"@);
                        assert("Be"@.len() != "F"@.len());
                    } else if j == 1 {
                        assert(x == "Cl"@);
                        assert("Be"@[0] != "Cl"@[0]);
                    } else if j == 2 {
                        assert(x == "Br"@);
                        assert("Be"@[1] != "Br"@[1]);
                    } else if j == 3 {
                        assert(x == "I"@);
                        assert("Be"@.len() != "I"@.len());
                    }
                } else {
                    assert("Be"@.len() != "O"@.len());
                }
            } else if i == 1 {
                assert(m == "Mg"@);
                assert("Mg"@.len() != "S"@.len());
                assert("Mg"@.len() != "N"@.len());
                assert("Mg"@.len() != "C"@.len());
                assert("Mg"@.len() != "P"@.len());
                assert("Mg"@.len() != "H"@.len());
                assert("Mg"@.len() != "O"@.len());
                if halogens().contains(x) {
                    let j = choose|j: int| 0 <= j < 4 && halogens()[j] == x;
                    if j == 0 {
                        assert(x == "F"@);
                        assert("Mg"@.len() != "F"@.len());
                    } else if j == 1 {
                        assert(x == "Cl"@);
                        assert("Mg"@[0] != "Cl"@[0]);
                    } else if j == 2 {
                        assert(x == "Br"@);
                        assert("Mg"@[0] != "Br"@[0]);
                    } else if j == 3 {
                        assert(x == "I"@);
                        assert("Mg"@.len() != "I"@.len());
                    }
                } else {
                    assert("Mg"@.len() != "O"@.len());
                }
            } else if i == 2 {
                assert(m == "Ca"@);
                assert("Ca"@.len() != "S"@.len());
                assert("Ca"@.len() != "N"@.len());
                assert("Ca"@.len() != "C"@.len());
                assert("Ca"@.len() != "P"@.len());
                assert("Ca"@.len() != "H"@.len());
                assert("Ca"@.len() != "O"@.len());
                if halogens().contains(x) {
                    let j = choose|j: int| 0 <= j < 4 && halogens()[j] == x;
                    if j == 0 {
                        assert(x == "F"@);
                        assert("Ca"@.len() != "F"@.len());
                    } else if j == 1 {
                        assert(x == "Cl"@);
                        assert("Ca"@[1] != "Cl"@[1]);
                    } else if j == 2 {
                        assert(x == "Br"@);
                        assert("Ca"@[0] != "Br"@[0]);
                    } else if j == 3 {
                        assert(x == "I"@);
                        assert("Ca"@.len() != "I"@.len());
                    }
                } else {
                    assert("Ca"@.len() != "O"@.len());
                }
            } else if i == 3 {
                assert(m == "Sr"@);
                assert("Sr"@.len() != "S"@.len());
                assert("Sr"@.len() != "N"@.len());
                assert("Sr"@.len() != "C"@.len());
                assert("Sr"@.len() != "P"@.len());
                assert("Sr"@.len() != "H"@.len());
                assert("Sr"@.len() != "O"@.len());
                if halogens().contains(x) {
                    let j = choose|j: int| 0 <= j < 4 && halogens()[j] == x;
                    if j == 0 {
                        assert(x == "F"@);
                        assert("Sr"@.len() != "F"@.len());
                    } else if j == 1 {
                        assert(x == "Cl"@);
                        assert("Sr"@[0] != "Cl"@[0]);
                    } else if j == 2 {
                        assert(x == "Br"@);
                        assert("Sr"@[0] != "Br"@[0]);
                    } else if j == 3 {
                        assert(x == "I"@);
                        assert("Sr"@.len() != "I"@.len());
                    }
                } else {
                    assert("Sr"@.len() != "O"@.len());
                }
            } else if i == 4 {
                assert(m == "Ba"@);
                assert("Ba"@.len() != "S"@.len());
                assert("Ba"@.len() != "N"@.len());
                assert("Ba"@.len() != "C"@.len());
                assert("Ba"@.len() != "P"@.len());
                assert("Ba"@.len() != "H"@.len());
                assert("Ba"@.len() != "O"@.len());
                if halogens().contains(x) {
                    let j = choose|j: int| 0 <= j < 4 && halogens()[j] == x;
                    if j == 0 {
                        assert(x == "F"@);
                        assert("Ba"@.len() != "F"@.len());
                    } else if j == 1 {
                        assert(x == "Cl"@);
                        assert("Ba"@[0] != "Cl"@[0]);
                    } else if j == 2 {
                        assert(x == "Br"@);
                        assert("Ba"@[1] != "Br"@[1]);
                    } else if j == 3 {
                        assert(x == "I"@);
                        assert("Ba"@.len() != "I"@.len());
                    }
                } else {
                    assert("Ba"@.len() != "O"@.len());
                }
            } else if i == 5 {
                assert(m == "Ra"@);
                assert("Ra"@.len() != "S"@.len());
                assert("Ra"@.len() != "N"@.len());
                assert("Ra"@.len() != "C"@.len());
                assert("Ra"@.len() != "P"@.len());
                assert("Ra"@.len() != "H"@.len());
                assert("Ra"@.len() != "O"@.len());
                if halogens().contains(x) {
                    let j = choose|j: int| 0 <= j < 4 && halogens()[j] == x;
                    if j == 0 {
                        assert(x == "F"@);
                        assert("Ra"@.len() != "F"@.len());
                    } else if j == 1 {
                        assert(x == "Cl"@);
                        assert("Ra"@[0] != "Cl"@[0]);
                    } else if j == 2 {
                        assert(x == "Br"@);
                        assert("Ra"@[0] != "Br"@[0]);
                    } else if j == 3 {
                        assert(x == "I"@);
                        assert("Ra"@.len() != "I"@.len());
                    }
                } else {
                    assert("Ra"@.len() != "O"@.len());
                }
            }
        }
    }
    assert(x != "S"@ && x != "N"@ && x != "C"@ && x != "P"@ && x != "H"@) by {
    if halogens().contains(x) {
            let j = choose|j: int| 0 <= j < 4 && halogens()[j] == x;
            if j == 0 {
                assert(x == "F"@);
                assert("F"@[0] != "S"@[0]);
                assert("F"@[0] != "N"@[0]);
                assert("F"@[0] != "C"@[0]);
                assert("F"@[0] != "P"@[0]);
                assert("F"@[0] != "H"@[0]);
            } else if j == 1 {
                assert(x == "Cl"@);
                assert("Cl"@.len() != "S"@.len());
                assert("Cl"@.len() != "N"@.len());
                assert("Cl"@.len() != "C"@.len());
                assert("Cl"@.len() != "P"@.len());
                assert("Cl"@.len() != "H"@.len());
            } else if j == 2 {
                assert(x == "Br"@);
                assert("Br"@.len() != "S"@.len());
                assert("Br"@.len() != "N"@.len());
                assert("Br"@.len() != "C"@.len());
                assert("Br"@.len() != "P"@.len());
                assert("Br"@.len() != "H"@.len());
            } else if j == 3 {
                assert(x == "I"@);
                assert("I"@[0] != "S"@[0]);
                assert("I"@[0] != "N"@[0]);
                assert("I"@[0] != "C"@[0]);
                assert("I"@[0] != "P"@[0]);
                assert("I"@[0] != "H"@[0]);
            }
        } else {
            assert("O"@[0] != "S"@[0]);
            assert("O"@[0] != "N"@[0]);
            assert("O"@[0] != "C"@[0]);
            assert("O"@[0] != "P"@[0]);
            assert("O"@[0] != "H"@[0]);
        }
    }
    if alkali_metals().contains(m) {
        let i = choose|i: int| 0 <= i < 6 && alkali_metals()[i] == m;
    } else {
        let i = choose|i: int| 0 <= i < 6 && alkaline_earth_metals()[i] == m;
    }
    if halogens().contains(x) {
        let j = choose|j: int| 0 <= j < 4 && halogens()[j] == x;
    }
    lemma_binary_rules(comp, m, a, x, b, vm, vx);
}

} // verus!
