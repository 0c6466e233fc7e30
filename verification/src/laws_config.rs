//! Facts about the Aufbau fill and the ground-state configurations.
use crate::config::{insert_pos, lemma_insert_pos_bounds, lemma_sort_len, render, render_one, sort_by_shell, anomaly_table, apply_override, apply_overrides, aufbau, electrons_of, fill_from, find_from, ground_state, madelung, occupied, valid_z, Orbital, Subshell};
use crate::classification::{category_of, Category};
use crate::element_reaction::valence_readable;
use crate::text::{decimal, digit_char};
use crate::valence::{
    count_in_shell, counts_sum, lemma_count_le_sum, lemma_digit_char, lemma_parse_decimal, lemma_words_concat,
    lemma_words_plain, lemma_words_trailing, max_shell, parse_subshell_spec, parsed_subshells, spec_is_whitespace,
    strip_core, trim, trim_end, trim_start, valence_fits, words,
};
use vstd::prelude::*;

verus! {

/// Every subshell holds between 1 and 14 electrons and has `1 <= n <= 7`.
pub open spec fn well_shaped(s: Seq<Orbital>) -> bool {
    forall|k: int|
        0 <= k < s.len() ==> {
            &&& 1 <= #[trigger] s[k].n <= 7
            &&& s[k].electrons <= 2 * (2 * s[k].subshell.l() + 1)
            &&& s[k].electrons <= 14
        }
}

proof fn lemma_madelung_entries()
    ensures
        forall|i: int| 0 <= i < 19 ==> 1 <= #[trigger] madelung()[i].0 <= 7,
        madelung().len() == 19,
{
    let m = madelung();
    assert forall|i: int| 0 <= i < 19 implies 1 <= #[trigger] m[i].0 <= 7 by {
        if i == 0 {
        } else if i == 1 {
        } else if i == 2 {
        } else if i == 3 {
        } else if i == 4 {
        } else if i == 5 {
        } else if i == 6 {
        } else if i == 7 {
        } else if i == 8 {
        } else if i == 9 {
        } else if i == 10 {
        } else if i == 11 {
        } else if i == 12 {
        } else if i == 13 {
        } else if i == 14 {
        } else if i == 15 {
        } else if i == 16 {
        } else if i == 17 {
        } else {
        }
    }
}

proof fn lemma_fill_shape(i: nat, rem: nat)
    ensures
        well_shaped(fill_from(i, rem)),
        forall|k: int| 0 <= k < fill_from(i, rem).len() ==> #[trigger] fill_from(i, rem)[k].electrons
            >= 1,
        rem > 0 && i < 19 ==> fill_from(i, rem).len() >= 1,
    decreases 19 - i,
{
    lemma_madelung_entries();
    if rem == 0 || i >= 19 {
    } else {
        let (n, sub) = madelung()[i as int];
        let cap = 2 * (2 * sub.l() + 1);
        let e: nat = if rem < cap {
            rem
        } else {
            cap
        };
        lemma_fill_shape(i + 1, (rem - e) as nat);
        let head = seq![Orbital { n, subshell: sub, electrons: e as u8 }];
        let tail = fill_from(i + 1, (rem - e) as nat);
        assert(fill_from(i, rem) == head + tail);
        assert forall|k: int| 0 <= k < (head + tail).len() implies 1 <= #[trigger] (head
            + tail)[k].n <= 7 && (head + tail)[k].electrons <= 2 * (2 * (head + tail)[k].subshell.l()
            + 1) && (head + tail)[k].electrons <= 14 && (head + tail)[k].electrons >= 1 by {
            if k == 0 {
            } else {
                assert((head + tail)[k] == tail[k - 1]);
            }
        }
    }
}

/// For a valid atomic number the naive fill is non-empty and well shaped,
/// and its period lies in `1..=7`.
pub proof fn lemma_aufbau_shape(z: nat)
    requires
        valid_z(z as int),
    ensures
        aufbau(z).len() >= 1,
        well_shaped(aufbau(z)),
        1 <= crate::classification::period_of(z) <= 7,
{
    lemma_fill_shape(0, z);
    lemma_max_n_bounds(aufbau(z));
}

proof fn lemma_max_n_bounds(s: Seq<Orbital>)
    requires
        well_shaped(s),
    ensures
        s.len() >= 1 ==> 1 <= crate::classification::max_n(s) <= 7,
        s.len() == 0 ==> crate::classification::max_n(s) == 0,
    decreases s.len(),
{
    if s.len() > 0 {
        assert(well_shaped(s.drop_last())) by {
            assert forall|k: int| 0 <= k < s.drop_last().len() implies 1 <= #[trigger] s.drop_last()[k].n <= 7
                && s.drop_last()[k].electrons <= 2 * (2 * s.drop_last()[k].subshell.l() + 1)
                && s.drop_last()[k].electrons <= 14 by {
                assert(s.drop_last()[k] == s[k]);
            }
        }
        lemma_max_n_bounds(s.drop_last());
        assert(s.last() == s[s.len() - 1]);
    }
}

/// Every subshell holds at most 14 electrons.
pub open spec fn at_most_14(s: Seq<Orbital>) -> bool {
    forall|k: int| 0 <= k < s.len() ==> #[trigger] s[k].electrons <= 14
}

proof fn lemma_find_from_in_range(s: Seq<Orbital>, n: u8, sub: Subshell, from: int)
    ensures
        find_from(s, n, sub, from) matches Some(i) ==> 0 <= i < s.len() && s[i].n == n
            && s[i].subshell == sub,
    decreases s.len() - from,
{
    if from < 0 || from >= s.len() {
    } else if s[from].n == n && s[from].subshell == sub {
    } else {
        lemma_find_from_in_range(s, n, sub, from + 1);
    }
}

proof fn lemma_overrides_bounded(s: Seq<Orbital>, ovs: Seq<(u8, Subshell, u8)>, k: nat)
    requires
        at_most_14(s),
        k <= ovs.len(),
        forall|j: int| 0 <= j < ovs.len() ==> #[trigger] ovs[j].2 <= 14,
    ensures
        at_most_14(apply_overrides(s, ovs, k)),
    decreases k,
{
    if k > 0 {
        lemma_overrides_bounded(s, ovs, (k - 1) as nat);
        let prev = apply_overrides(s, ovs, (k - 1) as nat);
        let ov = ovs[k - 1];
        lemma_find_from_in_range(prev, ov.0, ov.1, 0);
        let next = apply_override(prev, ov);
        assert forall|m: int| 0 <= m < next.len() implies #[trigger] next[m].electrons <= 14 by {
            match find_from(prev, ov.0, ov.1, 0) {
                Some(i) => {
                    if m != i {
                        assert(next[m] == prev[m]);
                    }
                },
                None => {
                    if m < prev.len() {
                        assert(next[m] == prev[m]);
                    }
                },
            }
        }
    }
}

proof fn lemma_occupied_bounded(s: Seq<Orbital>)
    requires
        at_most_14(s),
    ensures
        at_most_14(occupied(s)),
    decreases s.len(),
{
    if s.len() > 0 {
        assert(at_most_14(s.drop_last())) by {
            assert forall|k: int| 0 <= k < s.drop_last().len() implies #[trigger] s.drop_last()[k].electrons
                <= 14 by {
                assert(s.drop_last()[k] == s[k]);
            }
        }
        lemma_occupied_bounded(s.drop_last());
        assert(s.last() == s[s.len() - 1]);
        let o = occupied(s.drop_last());
        assert forall|k: int| 0 <= k < o.push(s.last()).len() implies #[trigger] o.push(
            s.last(),
        )[k].electrons <= 14 by {
            if k < o.len() {
                assert(o.push(s.last())[k] == o[k]);
            }
        }
    }
}

proof fn lemma_electrons_of_bounded(s: Seq<Orbital>, n: u8, sub: Subshell)
    requires
        at_most_14(s),
    ensures
        electrons_of(s, n, sub) <= 14,
{
    lemma_find_from_in_range(s, n, sub, 0);
}

/// For a valid atomic number every subshell of the ground state holds at most
/// 14 electrons, so any lookup yields at most 14.
pub proof fn lemma_ground_state_bounded(z: nat)
    requires
        valid_z(z as int),
    ensures
        at_most_14(ground_state(z)),
        forall|n: u8, sub: Subshell| #[trigger] electrons_of(ground_state(z), n, sub) <= 14,
{
    lemma_aufbau_shape(z);
    let a = aufbau(z);
    assert forall|k: int| 0 <= k < a.len() implies #[trigger] a[k].electrons <= 14 by {
        assert(1 <= a[k].n <= 7);
    }
    match anomaly_table(z as int) {
        Some(ovs) => {
            assert forall|j: int| 0 <= j < ovs.len() implies #[trigger] ovs[j].2 <= 14 by {
                assert(ovs.len() == 2);
                if j == 0 {
                } else {
                }
            }
            lemma_overrides_bounded(a, ovs, ovs.len());
            lemma_occupied_bounded(apply_overrides(a, ovs, ovs.len()));
        },
        None => {},
    }
    assert forall|n: u8, sub: Subshell| #[trigger] electrons_of(ground_state(z), n, sub) <= 14 by {
        lemma_electrons_of_bounded(ground_state(z), n, sub);
    }
}

/// The electrons held by the subshells, in total.
pub open spec fn total_electrons(s: Seq<Orbital>) -> int
    decreases s.len(),
{
    if s.len() == 0 {
        0
    } else {
        s[0].electrons as int + total_electrons(s.drop_first())
    }
}

/// The capacity of the Madelung subshells from position `i` on.
pub open spec fn capacity_from(i: nat) -> nat
    decreases 19 - i,
{
    if i >= 19 {
        0
    } else {
        let sub = madelung()[i as int].1;
        2 * (2 * sub.l() + 1) + capacity_from(i + 1)
    }
}

/// Filling `rem` electrons from position `i`, when they fit, places exactly
/// `rem` electrons.
proof fn lemma_fill_total(i: nat, rem: nat)
    requires
        rem <= capacity_from(i),
    ensures
        total_electrons(fill_from(i, rem)) == rem,
    decreases 19 - i,
{
    if rem == 0 || i >= 19 {
    } else {
        let (n, sub) = madelung()[i as int];
        let cap = 2 * (2 * sub.l() + 1);
        let e: nat = if rem < cap {
            rem
        } else {
            cap
        };
        lemma_fill_total(i + 1, (rem - e) as nat);
        let head = seq![Orbital { n, subshell: sub, electrons: e as u8 }];
        let tail = fill_from(i + 1, (rem - e) as nat);
        assert((head + tail).drop_first() =~= tail);
        assert((head + tail)[0] == head[0]);
    }
}

/// The nineteen Madelung subshells hold 118 electrons in all.
proof fn lemma_capacity_118()
    ensures
        capacity_from(0) == 118,
{
    reveal_with_fuel(capacity_from, 20);
}

/// Electrons that the Madelung subshell `k` holds after `x` electrons remain
/// for it and the subshells after it: none, all it holds, or `x`.
pub open spec fn clamp_fill(x: int, cap: int) -> int {
    if x <= 0 {
        0
    } else if x >= cap {
        cap
    } else {
        x
    }
}

/// The capacity of the Madelung subshell at position `k`.
pub open spec fn cap_at(k: int) -> int {
    (2 * (2 * madelung()[k].1.l() + 1)) as int
}

proof fn lemma_madelung_distinct(i: int, k: int)
    requires
        0 <= i < k < 19,
    ensures
        madelung()[i] != madelung()[k],
{
    let m = madelung();
    assert(m[0] == (1u8, Subshell::S));
    assert(m[1] == (2u8, Subshell::S));
    assert(m[2] == (2u8, Subshell::P));
    assert(m[3] == (3u8, Subshell::S));
    assert(m[4] == (3u8, Subshell::P));
    assert(m[5] == (4u8, Subshell::S));
    assert(m[6] == (3u8, Subshell::D));
    assert(m[7] == (4u8, Subshell::P));
    assert(m[8] == (5u8, Subshell::S));
    assert(m[9] == (4u8, Subshell::D));
    assert(m[10] == (5u8, Subshell::P));
    assert(m[11] == (6u8, Subshell::S));
    assert(m[12] == (4u8, Subshell::F));
    assert(m[13] == (5u8, Subshell::D));
    assert(m[14] == (6u8, Subshell::P));
    assert(m[15] == (7u8, Subshell::S));
    assert(m[16] == (5u8, Subshell::F));
    assert(m[17] == (6u8, Subshell::D));
    assert(m[18] == (7u8, Subshell::P));
}

/// Searching past a leading subshell of another kind finds what the rest holds.
proof fn lemma_find_skip_head(h: Orbital, t: Seq<Orbital>, n: u8, sub: Subshell, j: int)
    requires
        0 <= j,
    ensures
        find_from(seq![h] + t, n, sub, j + 1) == (match find_from(t, n, sub, j) {
            Some(x) => Some(x + 1),
            None => None,
        }),
    decreases t.len() - j,
{
    let c = seq![h] + t;
    if j >= t.len() {
    } else {
        assert(c[j + 1] == t[j]);
        if !(t[j].n == n && t[j].subshell == sub) {
            lemma_find_skip_head(h, t, n, sub, j + 1);
        }
    }
}

proof fn lemma_electrons_skip_head(h: Orbital, t: Seq<Orbital>, n: u8, sub: Subshell)
    requires
        !(h.n == n && h.subshell == sub),
    ensures
        electrons_of(seq![h] + t, n, sub) == electrons_of(t, n, sub),
{
    let c = seq![h] + t;
    assert(c[0] == h);
    lemma_find_skip_head(h, t, n, sub, 0);
    match find_from(t, n, sub, 0) {
        Some(x) => {
            lemma_find_in_range(t, n, sub, 0);
            assert(c[x + 1] == t[x]);
        },
        None => {},
    }
}

proof fn lemma_find_in_range(s: Seq<Orbital>, n: u8, sub: Subshell, from: int)
    ensures
        find_from(s, n, sub, from) matches Some(i) ==> from <= i < s.len() && 0 <= i && s[i].n == n
            && s[i].subshell == sub,
    decreases s.len() - from,
{
    if from < 0 || from >= s.len() {
    } else if s[from].n == n && s[from].subshell == sub {
    } else {
        lemma_find_in_range(s, n, sub, from + 1);
    }
}

/// The fill from position `i` with `rem` electrons puts into the subshell at
/// position `k` what is left for it once the subshells before it are full.
proof fn lemma_fill_electrons_at(i: nat, rem: nat, k: int)
    requires
        i <= k < 19,
    ensures
        electrons_of(fill_from(i, rem), madelung()[k].0, madelung()[k].1) == clamp_fill(
            rem - (capacity_from(i) - capacity_from(k as nat)),
            cap_at(k),
        ),
    decreases 19 - i,
{
    lemma_capacity_monotone(i, k as nat);
    if rem == 0 {
    } else {
        let (n, sub) = madelung()[i as int];
        let cap = 2 * (2 * sub.l() + 1);
        let e: nat = if rem < cap {
            rem
        } else {
            cap
        };
        let head = seq![Orbital { n, subshell: sub, electrons: e as u8 }];
        let tail = fill_from(i + 1, (rem - e) as nat);
        assert(fill_from(i, rem) == head + tail);
        if i == k {
            assert((head + tail)[0] == head[0]);
        } else {
            lemma_madelung_distinct(i as int, k);
            lemma_electrons_skip_head(head[0], tail, madelung()[k].0, madelung()[k].1);
            lemma_fill_electrons_at(i + 1, (rem - e) as nat, k);
            lemma_capacity_monotone(i + 1, k as nat);
        }
    }
}

proof fn lemma_capacity_monotone(i: nat, k: nat)
    requires
        i <= k,
    ensures
        capacity_from(k) <= capacity_from(i),
    decreases k - i,
{
    if i < k {
        lemma_capacity_monotone(i + 1, k);
    }
}

proof fn lemma_total_push(s: Seq<Orbital>, o: Orbital)
    ensures
        total_electrons(s.push(o)) == total_electrons(s) + o.electrons,
    decreases s.len(),
{
    if s.len() > 0 {
        let p = s.push(o);
        assert(p.drop_first() =~= s.drop_first().push(o));
        assert(p[0] == s[0]);
        lemma_total_push(s.drop_first(), o);
        assert(total_electrons(p) == p[0].electrons as int + total_electrons(p.drop_first()));
    } else {
        let p = s.push(o);
        assert(p.drop_first() =~= Seq::<Orbital>::empty());
        assert(p[0] == o);
        assert(total_electrons(p) == p[0].electrons as int + total_electrons(p.drop_first()));
    }
}

proof fn lemma_total_update(s: Seq<Orbital>, i: int, o: Orbital)
    requires
        0 <= i < s.len(),
    ensures
        total_electrons(s.update(i, o)) == total_electrons(s) - s[i].electrons + o.electrons,
    decreases s.len(),
{
    if i == 0 {
        assert(s.update(0, o).drop_first() =~= s.drop_first());
    } else {
        assert(s.update(i, o).drop_first() =~= s.drop_first().update(i - 1, o));
        lemma_total_update(s.drop_first(), i - 1, o);
    }
}

proof fn lemma_total_occupied(s: Seq<Orbital>)
    ensures
        total_electrons(occupied(s)) == total_electrons(s),
    decreases s.len(),
{
    if s.len() > 0 {
        lemma_total_occupied(s.drop_last());
        assert(s.drop_last().push(s.last()) =~= s);
        lemma_total_push(s.drop_last(), s.last());
        lemma_total_push(occupied(s.drop_last()), s.last());
    }
}

/// Applying one anomaly entry trades the subshell's old count for the new one.
proof fn lemma_override_total(s: Seq<Orbital>, ov: (u8, Subshell, u8))
    ensures
        total_electrons(apply_override(s, ov)) == total_electrons(s) - electrons_of(s, ov.0, ov.1)
            + ov.2,
{
    let o = Orbital { n: ov.0, subshell: ov.1, electrons: ov.2 };
    match find_from(s, ov.0, ov.1, 0) {
        Some(i) => {
            lemma_find_in_range(s, ov.0, ov.1, 0);
            lemma_total_update(s, i, o);
        },
        None => {
            lemma_total_push(s, o);
        },
    }
}

proof fn lemma_find_update_other(s: Seq<Orbital>, i: int, o: Orbital, n: u8, sub: Subshell, from: int)
    requires
        0 <= i < s.len(),
        s[i].n == o.n && s[i].subshell == o.subshell,
        !(o.n == n && o.subshell == sub),
    ensures
        find_from(s.update(i, o), n, sub, from) == find_from(s, n, sub, from),
    decreases s.len() - from,
{
    if from < 0 || from >= s.len() {
    } else {
        if !(s[from].n == n && s[from].subshell == sub) {
            lemma_find_update_other(s, i, o, n, sub, from + 1);
        }
    }
}

proof fn lemma_find_push_other(s: Seq<Orbital>, o: Orbital, n: u8, sub: Subshell, from: int)
    requires
        !(o.n == n && o.subshell == sub),
    ensures
        find_from(s.push(o), n, sub, from) == find_from(s, n, sub, from),
    decreases s.len() + 1 - from,
{
    if from < 0 || from > s.len() {
    } else if from == s.len() {
        assert(s.push(o)[from] == o);
    } else {
        assert(s.push(o)[from] == s[from]);
        if !(s[from].n == n && s[from].subshell == sub) {
            lemma_find_push_other(s, o, n, sub, from + 1);
        }
    }
}

/// An anomaly entry leaves the count of every other subshell as it was.
proof fn lemma_override_other(s: Seq<Orbital>, ov: (u8, Subshell, u8), n: u8, sub: Subshell)
    requires
        !(ov.0 == n && ov.1 == sub),
    ensures
        electrons_of(apply_override(s, ov), n, sub) == electrons_of(s, n, sub),
{
    let o = Orbital { n: ov.0, subshell: ov.1, electrons: ov.2 };
    lemma_find_in_range(s, n, sub, 0);
    match find_from(s, ov.0, ov.1, 0) {
        Some(i) => {
            lemma_find_in_range(s, ov.0, ov.1, 0);
            lemma_find_update_other(s, i, o, n, sub, 0);
        },
        None => {
            lemma_find_push_other(s, o, n, sub, 0);
        },
    }
}

/// Position of the subshell `(n, sub)` in the Madelung order, or 19 when absent.
pub open spec fn madelung_index(n: u8, sub: Subshell) -> int {
    if n == 1 && sub == Subshell::S {
        0
    } else if n == 2 && sub == Subshell::S {
        1
    } else if n == 2 && sub == Subshell::P {
        2
    } else if n == 3 && sub == Subshell::S {
        3
    } else if n == 3 && sub == Subshell::P {
        4
    } else if n == 4 && sub == Subshell::S {
        5
    } else if n == 3 && sub == Subshell::D {
        6
    } else if n == 4 && sub == Subshell::P {
        7
    } else if n == 5 && sub == Subshell::S {
        8
    } else if n == 4 && sub == Subshell::D {
        9
    } else if n == 5 && sub == Subshell::P {
        10
    } else if n == 6 && sub == Subshell::S {
        11
    } else if n == 4 && sub == Subshell::F {
        12
    } else if n == 5 && sub == Subshell::D {
        13
    } else if n == 6 && sub == Subshell::P {
        14
    } else if n == 7 && sub == Subshell::S {
        15
    } else if n == 5 && sub == Subshell::F {
        16
    } else if n == 6 && sub == Subshell::D {
        17
    } else if n == 7 && sub == Subshell::P {
        18
    } else {
        19
    }
}

proof fn lemma_madelung_index(n: u8, sub: Subshell)
    requires
        madelung_index(n, sub) < 19,
    ensures
        0 <= madelung_index(n, sub),
        madelung()[madelung_index(n, sub)] == (n, sub),
{
    lemma_madelung_distinct(0, 1);
}

/// Two anomaly entries for different subshells, applied and the emptied
/// subshells dropped, trade both old counts for the new ones.
proof fn lemma_two_overrides(a: Seq<Orbital>, ovs: Seq<(u8, Subshell, u8)>)
    requires
        ovs.len() == 2,
        !(ovs[0].0 == ovs[1].0 && ovs[0].1 == ovs[1].1),
    ensures
        total_electrons(occupied(apply_overrides(a, ovs, 2))) == total_electrons(a) - electrons_of(
            a,
            ovs[0].0,
            ovs[0].1,
        ) + ovs[0].2 - electrons_of(a, ovs[1].0, ovs[1].1) + ovs[1].2,
{
    let a1 = apply_override(a, ovs[0]);
    lemma_override_total(a, ovs[0]);
    lemma_override_other(a, ovs[0], ovs[1].0, ovs[1].1);
    lemma_override_total(a1, ovs[1]);
    reveal_with_fuel(apply_overrides, 3);
    assert(apply_overrides(a, ovs, 2) == apply_override(a1, ovs[1]));
    lemma_total_occupied(apply_overrides(a, ovs, 2));
}

/// The capacities of the Madelung subshells from each position on.
proof fn lemma_capacity_values()
    ensures
        capacity_from(0) == 118,
        capacity_from(5) == 100,
        capacity_from(6) == 98,
        capacity_from(8) == 82,
        capacity_from(9) == 80,
        capacity_from(11) == 64,
        capacity_from(12) == 62,
        capacity_from(13) == 48,
        capacity_from(16) == 30,
        capacity_from(17) == 16,
        cap_at(5) == 2,
        cap_at(6) == 10,
        cap_at(8) == 2,
        cap_at(9) == 10,
        cap_at(11) == 2,
        cap_at(12) == 14,
        cap_at(13) == 10,
        cap_at(16) == 14,
        cap_at(17) == 10,
{
    reveal_with_fuel(capacity_from, 20);
}

/// Each ground state taken from the anomaly table places exactly `z` electrons.
proof fn lemma_anomaly_totals(z: nat)
    requires
        anomaly_table(z as int) is Some,
    ensures
        total_electrons(ground_state(z)) == z,
{
    let ovs = anomaly_table(z as int)->0;
    let a = aufbau(z);
    let k1 = madelung_index(ovs[0].0, ovs[0].1);
    let k2 = madelung_index(ovs[1].0, ovs[1].1);
    assert(ovs.len() == 2 && k1 < 19 && k2 < 19 && k1 != k2);
    lemma_madelung_index(ovs[0].0, ovs[0].1);
    lemma_madelung_index(ovs[1].0, ovs[1].1);
    lemma_capacity_118();
    lemma_fill_total(0, z);
    lemma_fill_electrons_at(0, z, k1);
    lemma_fill_electrons_at(0, z, k2);
    lemma_two_overrides(a, ovs);
    lemma_capacity_values();
}

/// A neutral atom: the naive Aufbau fill of `z` (up to 118) places exactly `z`
/// electrons, and so does the ground-state configuration of every supported
/// atomic number, anomalies included.
pub proof fn law_fill_holds_z_electrons(z: nat)
    requires
        z <= 118,
    ensures
        total_electrons(aufbau(z)) == z,
        valid_z(z as int) ==> total_electrons(ground_state(z)) == z,
{
    lemma_capacity_118();
    lemma_fill_total(0, z);
    if anomaly_table(z as int) is Some {
        lemma_anomaly_totals(z);
    }
}

/// The naive fill from position `i` takes the Madelung subshells from `i`
/// on, in order, and no more than there are.
proof fn lemma_fill_positions(i: nat, rem: nat)
    ensures
        fill_from(i, rem).len() <= if i <= 19 { 19 - i } else { 0 },
        forall|k: int| 0 <= k < fill_from(i, rem).len() ==> (#[trigger] fill_from(i, rem)[k]).n == madelung()[i + k].0
            && fill_from(i, rem)[k].subshell == madelung()[i + k].1,
    decreases 19 - i,
{
    if rem > 0 && i < 19 {
        let (n, sub) = madelung()[i as int];
        let cap = 2 * (2 * sub.l() + 1);
        let e: nat = if rem < cap {
            rem
        } else {
            cap
        };
        lemma_fill_positions(i + 1, (rem - e) as nat);
        let rest = fill_from(i + 1, (rem - e) as nat);
        assert forall|k: int| 0 <= k < fill_from(i, rem).len() implies (#[trigger] fill_from(i, rem)[k]).n
            == madelung()[i + k].0 && fill_from(i, rem)[k].subshell == madelung()[i + k].1 by {
            if k > 0 {
                assert(fill_from(i, rem)[k] == rest[k - 1]);
            }
        }
    }
}

/// More electrons fill at least as many subshells.
proof fn lemma_fill_len_monotone(i: nat, r1: nat, r2: nat)
    requires
        r1 <= r2,
    ensures
        fill_from(i, r1).len() <= fill_from(i, r2).len(),
    decreases 19 - i,
{
    if r1 > 0 && i < 19 {
        let (n, sub) = madelung()[i as int];
        let cap = 2 * (2 * sub.l() + 1);
        let e1: nat = if r1 < cap {
            r1
        } else {
            cap
        };
        let e2: nat = if r2 < cap {
            r2
        } else {
            cap
        };
        lemma_fill_len_monotone(i + 1, (r1 - e1) as nat, (r2 - e2) as nat);
    }
}

/// The highest shell number bounds every subshell's, and is one of them.
proof fn lemma_max_n_is_max(s: Seq<Orbital>)
    ensures
        forall|k: int| 0 <= k < s.len() ==> (#[trigger] s[k]).n <= crate::classification::max_n(s),
        s.len() > 0 ==> exists|k: int| 0 <= k < s.len() && (#[trigger] s[k]).n == crate::classification::max_n(s),
        s.len() == 0 ==> crate::classification::max_n(s) == 0,
    decreases s.len(),
{
    if s.len() > 0 {
        let t = s.drop_last();
        lemma_max_n_is_max(t);
        assert forall|k: int| 0 <= k < s.len() implies (#[trigger] s[k]).n <= crate::classification::max_n(s) by {
            if k < s.len() - 1 {
                assert(s[k] == t[k]);
            }
        }
        if s.last().n > crate::classification::max_n(t) {
            assert(s[s.len() - 1].n == crate::classification::max_n(s));
        } else if t.len() > 0 {
            let k = choose|k: int| 0 <= k < t.len() && (#[trigger] t[k]).n == crate::classification::max_n(t);
            assert(s[k] == t[k]);
        } else {
            assert(s[s.len() - 1].n == crate::classification::max_n(s));
        }
    }
}

/// The period never decreases as the atomic number grows, and lies in
/// `1..=7` for every supported atomic number.
pub proof fn law_period_monotone(z1: nat, z2: nat)
    requires
        1 <= z1 <= z2 <= 118,
    ensures
        1 <= crate::classification::period_of(z1) <= crate::classification::period_of(z2) <= 7,
{
    lemma_aufbau_shape(z1);
    lemma_aufbau_shape(z2);
    let s1 = aufbau(z1);
    let s2 = aufbau(z2);
    lemma_fill_positions(0, z1);
    lemma_fill_positions(0, z2);
    lemma_fill_len_monotone(0, z1, z2);
    lemma_max_n_is_max(s1);
    lemma_max_n_is_max(s2);
    let k = choose|k: int| 0 <= k < s1.len() && (#[trigger] s1[k]).n == crate::classification::max_n(s1);
    assert(s1[k].n == madelung()[k].0);
    assert(s2[k].n == madelung()[k].0);
}

/// The position of an orbital's subshell in the Madelung order.
pub open spec fn orbital_index(o: Orbital) -> int {
    madelung_index(o.n, o.subshell)
}

/// The subshells are Madelung subshells listed in Madelung order, so none
/// occurs twice.
pub open spec fn in_madelung_order(s: Seq<Orbital>) -> bool {
    &&& forall|k: int| 0 <= k < s.len() ==> 0 <= #[trigger] orbital_index(s[k]) < 19
    &&& forall|a: int, b: int| 0 <= a < b < s.len() ==> orbital_index(#[trigger] s[a]) < orbital_index(#[trigger] s[b])
}

/// No subshell holds more than its capacity `2(2l + 1)`.
pub open spec fn within_capacity(s: Seq<Orbital>) -> bool {
    forall|k: int| 0 <= k < s.len() ==> #[trigger] s[k].electrons <= 2 * (2 * s[k].subshell.l() + 1)
}

proof fn lemma_madelung_index_of(m: int)
    requires
        0 <= m < 19,
    ensures
        madelung_index(madelung()[m].0, madelung()[m].1) == m,
{
    lemma_madelung_distinct(0, 1);
    let t = madelung();
    assert(t[0] == (1u8, Subshell::S));
    assert(t[1] == (2u8, Subshell::S));
    assert(t[2] == (2u8, Subshell::P));
    assert(t[3] == (3u8, Subshell::S));
    assert(t[4] == (3u8, Subshell::P));
    assert(t[5] == (4u8, Subshell::S));
    assert(t[6] == (3u8, Subshell::D));
    assert(t[7] == (4u8, Subshell::P));
    assert(t[8] == (5u8, Subshell::S));
    assert(t[9] == (4u8, Subshell::D));
    assert(t[10] == (5u8, Subshell::P));
    assert(t[11] == (6u8, Subshell::S));
    assert(t[12] == (4u8, Subshell::F));
    assert(t[13] == (5u8, Subshell::D));
    assert(t[14] == (6u8, Subshell::P));
    assert(t[15] == (7u8, Subshell::S));
    assert(t[16] == (5u8, Subshell::F));
    assert(t[17] == (6u8, Subshell::D));
    assert(t[18] == (7u8, Subshell::P));
}

/// The naive fill lists the Madelung subshells from the first on.
proof fn lemma_aufbau_order(z: nat)
    ensures
        forall|k: int| 0 <= k < aufbau(z).len() ==> #[trigger] orbital_index(aufbau(z)[k]) == k,
        in_madelung_order(aufbau(z)),
        within_capacity(aufbau(z)),
        forall|k: int| 0 <= k < aufbau(z).len() ==> #[trigger] aufbau(z)[k].electrons >= 1,
        aufbau(z).len() <= 19,
{
    let a = aufbau(z);
    lemma_fill_positions(0, z);
    lemma_fill_shape(0, z);
    assert forall|k: int| 0 <= k < a.len() implies #[trigger] orbital_index(a[k]) == k by {
        lemma_madelung_index_of(k);
        assert(a[k].n == madelung()[k].0 && a[k].subshell == madelung()[k].1);
    }
    assert forall|k: int| 0 <= k < a.len() implies #[trigger] a[k].electrons <= 2 * (2 * a[k].subshell.l() + 1) by {
    }
}

proof fn lemma_find_some(s: Seq<Orbital>, n: u8, sub: Subshell, from: int, k: int)
    requires
        0 <= from <= k < s.len(),
        s[k].n == n && s[k].subshell == sub,
    ensures
        find_from(s, n, sub, from) is Some,
    decreases k - from,
{
    if !(s[from].n == n && s[from].subshell == sub) {
        lemma_find_some(s, n, sub, from + 1, k);
    }
}

/// A Madelung subshell absent from the naive fill lies beyond all of it.
proof fn lemma_absent_beyond(z: nat, n: u8, sub: Subshell)
    requires
        madelung_index(n, sub) < 19,
        find_from(aufbau(z), n, sub, 0) is None,
    ensures
        madelung_index(n, sub) >= aufbau(z).len(),
{
    let m = madelung_index(n, sub);
    lemma_madelung_index(n, sub);
    lemma_fill_positions(0, z);
    if m < aufbau(z).len() {
        lemma_find_some(aufbau(z), n, sub, 0, m);
    }
}

/// One anomaly entry keeps the order and the capacities, provided a subshell
/// it adds comes after all present.
proof fn lemma_override_keeps(s: Seq<Orbital>, ov: (u8, Subshell, u8))
    requires
        in_madelung_order(s),
        within_capacity(s),
        madelung_index(ov.0, ov.1) < 19,
        ov.2 <= 2 * (2 * ov.1.l() + 1),
        find_from(s, ov.0, ov.1, 0) is None ==> forall|k: int|
            0 <= k < s.len() ==> #[trigger] orbital_index(s[k]) < madelung_index(ov.0, ov.1),
    ensures
        in_madelung_order(apply_override(s, ov)),
        within_capacity(apply_override(s, ov)),
{
    let o = Orbital { n: ov.0, subshell: ov.1, electrons: ov.2 };
    let t = apply_override(s, ov);
    lemma_find_in_range(s, ov.0, ov.1, 0);
    match find_from(s, ov.0, ov.1, 0) {
        Some(i) => {
            assert(orbital_index(o) == orbital_index(s[i]));
            assert forall|k: int| 0 <= k < t.len() implies 0 <= #[trigger] orbital_index(t[k]) < 19 by {
                assert(orbital_index(t[k]) == orbital_index(s[k]));
            }
            assert forall|a: int, b: int| 0 <= a < b < t.len() implies orbital_index(#[trigger] t[a]) < orbital_index(
                #[trigger] t[b],
            ) by {
                assert(orbital_index(t[a]) == orbital_index(s[a]));
                assert(orbital_index(t[b]) == orbital_index(s[b]));
            }
        },
        None => {
            assert forall|k: int| 0 <= k < t.len() implies 0 <= #[trigger] orbital_index(t[k]) < 19 by {
                if k < s.len() {
                    assert(t[k] == s[k]);
                }
            }
            assert forall|a: int, b: int| 0 <= a < b < t.len() implies orbital_index(#[trigger] t[a]) < orbital_index(
                #[trigger] t[b],
            ) by {
                assert(t[a] == s[a]);
                if b < s.len() {
                    assert(t[b] == s[b]);
                } else {
                    assert(orbital_index(s[a]) < madelung_index(ov.0, ov.1));
                }
            }
            assert forall|k: int| 0 <= k < t.len() implies #[trigger] t[k].electrons <= 2 * (2 * t[k].subshell.l() + 1) by {
                if k < s.len() {
                    assert(t[k] == s[k]);
                }
            }
        },
    }
}

/// Dropping the empty subshells keeps the order and the capacities, and
/// leaves only subshells that hold electrons.
proof fn lemma_occupied_keeps(s: Seq<Orbital>)
    requires
        in_madelung_order(s),
        within_capacity(s),
    ensures
        in_madelung_order(occupied(s)),
        within_capacity(occupied(s)),
        forall|k: int| 0 <= k < occupied(s).len() ==> #[trigger] occupied(s)[k].electrons >= 1,
        forall|k: int| 0 <= k < occupied(s).len() ==> s.contains(#[trigger] occupied(s)[k]),
    decreases s.len(),
{
    if s.len() > 0 {
        let p = s.drop_last();
        assert(in_madelung_order(p) && within_capacity(p)) by {
            assert forall|k: int| 0 <= k < p.len() implies 0 <= #[trigger] orbital_index(p[k]) < 19 by {
                assert(p[k] == s[k]);
            }
            assert forall|a: int, b: int| 0 <= a < b < p.len() implies orbital_index(#[trigger] p[a]) < orbital_index(
                #[trigger] p[b],
            ) by {
                assert(p[a] == s[a] && p[b] == s[b]);
            }
            assert forall|k: int| 0 <= k < p.len() implies #[trigger] p[k].electrons <= 2 * (2 * p[k].subshell.l() + 1) by {
                assert(p[k] == s[k]);
            }
        }
        lemma_occupied_keeps(p);
        let op = occupied(p);
        assert forall|k: int| 0 <= k < op.len() implies s.contains(#[trigger] op[k]) by {
            assert(p.contains(op[k]));
            let j = choose|j: int| 0 <= j < p.len() && p[j] == op[k];
            assert(s[j] == op[k]);
        }
        let l = s.last();
        assert(l == s[s.len() - 1]);
        if l.electrons > 0 {
            let o = op.push(l);
            assert forall|k: int| 0 <= k < o.len() implies s.contains(#[trigger] o[k]) by {
                if k < op.len() {
                    assert(o[k] == op[k]);
                } else {
                    assert(s[s.len() - 1] == o[k]);
                }
            }
            assert forall|k: int| 0 <= k < o.len() implies 0 <= #[trigger] orbital_index(o[k]) < 19 by {
                if k < op.len() {
                    assert(o[k] == op[k]);
                }
            }
            assert forall|a: int, b: int| 0 <= a < b < o.len() implies orbital_index(#[trigger] o[a]) < orbital_index(
                #[trigger] o[b],
            ) by {
                assert(o[a] == op[a]);
                if b < op.len() {
                    assert(o[b] == op[b]);
                } else {
                    assert(p.contains(op[a]));
                    let j = choose|j: int| 0 <= j < p.len() && p[j] == op[a];
                    assert(s[j] == op[a]);
                }
            }
            assert forall|k: int| 0 <= k < o.len() implies #[trigger] o[k].electrons <= 2 * (2 * o[k].subshell.l() + 1)
                && o[k].electrons >= 1 by {
                if k < op.len() {
                    assert(o[k] == op[k]);
                }
            }
        }
    }
}

/// When an anomaly entry's first subshell comes later in the Madelung order
/// than its second, the naive fill already holds it.
proof fn lemma_table_first_present(z: nat)
    requires
        valid_z(z as int),
        anomaly_table(z as int) is Some,
    ensures
        ({
            let ovs = anomaly_table(z as int)->0;
            &&& ovs.len() == 2
            &&& madelung_index(ovs[0].0, ovs[0].1) < 19
            &&& madelung_index(ovs[1].0, ovs[1].1) < 19
            &&& madelung_index(ovs[0].0, ovs[0].1) != madelung_index(ovs[1].0, ovs[1].1)
            &&& forall|t: int| 0 <= t < 2 ==> #[trigger] ovs[t].2 <= 2 * (2 * ovs[t].1.l() + 1)
            &&& (madelung_index(ovs[0].0, ovs[0].1) < madelung_index(ovs[1].0, ovs[1].1) || find_from(
                aufbau(z),
                ovs[0].0,
                ovs[0].1,
                0,
            ) is Some)
        }),
{
    let ovs = anomaly_table(z as int)->0;
    let k1 = madelung_index(ovs[0].0, ovs[0].1);
    assert(ovs.len() == 2 && k1 < 19);
    assert forall|t: int| 0 <= t < 2 implies #[trigger] ovs[t].2 <= 2 * (2 * ovs[t].1.l() + 1) by {
        if t == 0 {
        } else {
        }
    }
    lemma_madelung_index(ovs[0].0, ovs[0].1);
    lemma_capacity_118();
    lemma_fill_electrons_at(0, z, k1);
    lemma_capacity_values();
    if electrons_of(aufbau(z), ovs[0].0, ovs[0].1) != 0 {
        assert(find_from(aufbau(z), ovs[0].0, ovs[0].1, 0) is Some);
    }
}

/// A ground-state configuration is well formed: its subshells are Madelung
/// subshells in Madelung order, none repeated, each holding at least one
/// electron and no more than its capacity `2(2l + 1)`.
pub proof fn law_configuration_shape(z: nat)
    requires
        valid_z(z as int),
    ensures
        in_madelung_order(ground_state(z)),
        within_capacity(ground_state(z)),
        forall|k: int| 0 <= k < ground_state(z).len() ==> #[trigger] ground_state(z)[k].electrons >= 1,
{
    let a = aufbau(z);
    lemma_aufbau_order(z);
    match anomaly_table(z as int) {
        None => {},
        Some(ovs) => {
            lemma_table_first_present(z);
            let k1 = madelung_index(ovs[0].0, ovs[0].1);
            let k2 = madelung_index(ovs[1].0, ovs[1].1);
            // first entry
            if find_from(a, ovs[0].0, ovs[0].1, 0) is None {
                lemma_absent_beyond(z, ovs[0].0, ovs[0].1);
            }
            lemma_override_keeps(a, ovs[0]);
            let s1 = apply_override(a, ovs[0]);
            // second entry: absent from s1 means absent from the fill, and
            // beyond the first entry when that one was added
            let o1 = Orbital { n: ovs[0].0, subshell: ovs[0].1, electrons: ovs[0].2 };
            assert(!(o1.n == ovs[1].0 && o1.subshell == ovs[1].1));
            match find_from(a, ovs[0].0, ovs[0].1, 0) {
                Some(i) => {
                    lemma_find_in_range(a, ovs[0].0, ovs[0].1, 0);
                    lemma_find_update_other(a, i, o1, ovs[1].0, ovs[1].1, 0);
                },
                None => {
                    lemma_find_push_other(a, o1, ovs[1].0, ovs[1].1, 0);
                },
            }
            if find_from(s1, ovs[1].0, ovs[1].1, 0) is None {
                lemma_absent_beyond(z, ovs[1].0, ovs[1].1);
                assert forall|k: int| 0 <= k < s1.len() implies #[trigger] orbital_index(s1[k]) < k2 by {
                    match find_from(a, ovs[0].0, ovs[0].1, 0) {
                        Some(i) => {
                            lemma_find_in_range(a, ovs[0].0, ovs[0].1, 0);
                            assert(orbital_index(s1[k]) == orbital_index(a[k]));
                        },
                        None => {
                            if k < a.len() {
                                assert(s1[k] == a[k]);
                            }
                        },
                    }
                }
            }
            lemma_override_keeps(s1, ovs[1]);
            let s2 = apply_override(s1, ovs[1]);
            reveal_with_fuel(apply_overrides, 3);
            assert(apply_overrides(a, ovs, 2) == s2);
            lemma_occupied_keeps(s2);
        },
    }
}

/// One subshell's text, e.g. `"3d6"`, holds no whitespace, starts and ends
/// with a digit, and reads back as its shell and count.
proof fn lemma_render_one(o: Orbital)
    requires
        1 <= o.n <= 9,
    ensures
        render_one(o).len() >= 3,
        forall|i: int| 0 <= i < render_one(o).len() ==> !spec_is_whitespace(#[trigger] render_one(o)[i]),
        '0' <= render_one(o)[0] <= '9',
        '0' <= render_one(o).last() <= '9',
        parse_subshell_spec(render_one(o)) == Some((o.n, o.electrons)),
{
    let t = render_one(o);
    let dn = digit_char(o.n as int);
    lemma_digit_char(o.n as int);
    crate::valence::lemma_decimal_digits(o.electrons as nat);
    let de = decimal(o.electrons as nat);
    assert(decimal(o.n as nat) == seq![dn]);
    let l = o.subshell.letter();
    assert(t =~= seq![dn, l] + de);
    assert forall|i: int| 0 <= i < t.len() implies !spec_is_whitespace(#[trigger] t[i]) by {
        if i >= 2 {
            assert(t[i] == de[i - 2]);
            assert('0' <= de[i - 2] <= '9');
        }
    }
    assert(t.last() == de.last());
    assert('0' <= de[de.len() - 1] <= '9');
    assert(t.subrange(2, t.len() as int) =~= de);
    lemma_parse_decimal(o.electrons as nat);
}

/// The configuration text splits into one word per subshell, and starts
/// and ends with a digit.
proof fn lemma_words_render(s: Seq<Orbital>)
    requires
        s.len() >= 1,
        forall|k: int| 0 <= k < s.len() ==> 1 <= (#[trigger] s[k]).n <= 9,
    ensures
        words(render(s)) == Seq::new(s.len(), |k: int| render_one(s[k])),
        render(s).len() > 0,
        '0' <= render(s)[0] <= '9',
        '0' <= render(s).last() <= '9',
    decreases s.len(),
{
    if s.len() == 1 {
        lemma_render_one(s[0]);
        lemma_words_plain(render_one(s[0]));
        assert(Seq::new(s.len(), |k: int| render_one(s[k])) =~= seq![render_one(s[0])]);
    } else {
        let p = s.drop_last();
        assert forall|k: int| 0 <= k < p.len() implies 1 <= (#[trigger] p[k]).n <= 9 by {
            assert(p[k] == s[k]);
        }
        lemma_words_render(p);
        let last = s[s.len() - 1];
        assert(s.last() == last);
        lemma_render_one(last);
        let a = render(p).push(' ');
        let b = render_one(last);
        assert(render(s) == a + b);
        lemma_words_concat(a, b);
        lemma_words_trailing(render(p), ' ');
        lemma_words_plain(b);
        assert(Seq::new(s.len(), |k: int| render_one(s[k])) =~= Seq::new(p.len(), |k: int| render_one(p[k]))
            + seq![b]);
        assert((a + b)[0] == render(p)[0]);
        assert((a + b).last() == b.last());
    }
}

/// Reading the words of the configuration text back gives each subshell's
/// shell and count.
proof fn lemma_parsed_render(s: Seq<Orbital>)
    requires
        forall|k: int| 0 <= k < s.len() ==> 1 <= (#[trigger] s[k]).n <= 9,
    ensures
        parsed_subshells(Seq::new(s.len(), |k: int| render_one(s[k]))) == Seq::new(
            s.len(),
            |k: int| (s[k].n, s[k].electrons),
        ),
    decreases s.len(),
{
    let ws = Seq::new(s.len(), |k: int| render_one(s[k]));
    if s.len() > 0 {
        let p = s.drop_last();
        assert forall|k: int| 0 <= k < p.len() implies 1 <= (#[trigger] p[k]).n <= 9 by {
            assert(p[k] == s[k]);
        }
        lemma_parsed_render(p);
        assert(ws.drop_last() =~= Seq::new(p.len(), |k: int| render_one(p[k])));
        lemma_render_one(s[s.len() - 1]);
        assert(ws.last() == render_one(s[s.len() - 1]));
        assert(Seq::new(s.len(), |k: int| (s[k].n, s[k].electrons)) =~= Seq::new(
            p.len(),
            |k: int| (p[k].n, p[k].electrons),
        ).push((s[s.len() - 1].n, s[s.len() - 1].electrons)));
    } else {
        assert(ws =~= Seq::<Seq<char>>::empty());
        assert(Seq::new(s.len(), |k: int| (s[k].n, s[k].electrons)) =~= Seq::<(u8, u8)>::empty());
    }
}

/// The parsed counts add up to the electrons held.
proof fn lemma_counts_total(s: Seq<Orbital>)
    ensures
        counts_sum(Seq::new(s.len(), |k: int| (s[k].n, s[k].electrons))) == total_electrons(s),
    decreases s.len(),
{
    if s.len() > 0 {
        let p = s.drop_last();
        lemma_counts_total(p);
        assert(Seq::new(s.len(), |k: int| (s[k].n, s[k].electrons)).drop_last() =~= Seq::new(
            p.len(),
            |k: int| (p[k].n, p[k].electrons),
        ));
        assert(p.push(s.last()) =~= s);
        lemma_total_push(p, s.last());
    }
}

/// Inserting a subshell adds its electrons.
proof fn lemma_total_insert(s: Seq<Orbital>, i: int, o: Orbital)
    requires
        0 <= i <= s.len(),
    ensures
        total_electrons(s.insert(i, o)) == total_electrons(s) + o.electrons,
    decreases i,
{
    let t = s.insert(i, o);
    if i == 0 {
        assert(t.drop_first() =~= s);
        assert(t[0] == o);
    } else {
        assert(t.drop_first() =~= s.drop_first().insert(i - 1, o));
        assert(t[0] == s[0]);
        lemma_total_insert(s.drop_first(), i - 1, o);
    }
}

/// Sorting by shell keeps the electrons and the shells of the subshells.
proof fn lemma_sort_keeps(s: Seq<Orbital>)
    requires
        forall|k: int| 0 <= k < s.len() ==> 1 <= (#[trigger] s[k]).n <= 7,
    ensures
        sort_by_shell(s).len() == s.len(),
        total_electrons(sort_by_shell(s)) == total_electrons(s),
        forall|k: int| 0 <= k < sort_by_shell(s).len() ==> 1 <= (#[trigger] sort_by_shell(s)[k]).n <= 7,
    decreases s.len(),
{
    lemma_sort_len(s);
    if s.len() > 0 {
        let p = s.drop_last();
        assert forall|k: int| 0 <= k < p.len() implies 1 <= (#[trigger] p[k]).n <= 7 by {
            assert(p[k] == s[k]);
        }
        lemma_sort_keeps(p);
        let sp = sort_by_shell(p);
        let pos = insert_pos(sp, s.last());
        lemma_insert_pos_bounds(sp, s.last());
        lemma_total_insert(sp, pos, s.last());
        assert(p.push(s.last()) =~= s);
        lemma_total_push(p, s.last());
        assert(s.last() == s[s.len() - 1]);
        let r = sp.insert(pos, s.last());
        assert forall|k: int| 0 <= k < r.len() implies 1 <= (#[trigger] r[k]).n <= 7 by {
            if k < pos {
                assert(r[k] == sp[k]);
            } else if k > pos {
                assert(r[k] == sp[k - 1]);
            }
        }
    }
}

/// The valence count of every element reads from its configuration text:
/// the text lists each subshell as `<n><letter><count>`, so the outermost
/// shell's count is at most the element's electrons, and fits a `u8`.
pub proof fn law_valence_readable(z: nat)
    requires
        valid_z(z as int),
    ensures
        valence_fits(render(sort_by_shell(ground_state(z)))),
        valence_readable(z),
{
    let gs = ground_state(z);
    law_configuration_shape(z);
    law_fill_holds_z_electrons(z);
    lemma_madelung_entries();
    assert forall|k: int| 0 <= k < gs.len() implies 1 <= (#[trigger] gs[k]).n <= 7 by {
        assert(0 <= orbital_index(gs[k]) < 19);
        lemma_madelung_index(gs[k].n, gs[k].subshell);
        assert(madelung()[madelung_index(gs[k].n, gs[k].subshell)].0 == gs[k].n);
    }
    if gs.len() == 0 {
        assert(total_electrons(gs) == 0);
    }
    lemma_sort_keeps(gs);
    let s = sort_by_shell(gs);
    let t = render(s);
    lemma_words_render(s);
    assert(trim_start(t) == t);
    assert(trim_end(t) == t);
    assert(trim(t) == t);
    assert(strip_core(t) == t);
    lemma_parsed_render(s);
    let ps = Seq::new(s.len(), |k: int| (s[k].n, s[k].electrons));
    assert(parsed_subshells(words(strip_core(t))) == ps);
    lemma_count_le_sum(ps, max_shell(ps));
    lemma_counts_total(s);
}

/// No subshell `(n, l)` is listed twice.
pub open spec fn distinct_shells(s: Seq<Orbital>) -> bool {
    forall|i: int, j: int|
        0 <= i < j < s.len() ==> !(#[trigger] s[i].n == #[trigger] s[j].n && s[i].subshell
            == s[j].subshell)
}

/// Where a subshell is listed once, its count is what that entry holds.
proof fn lemma_electrons_at(s: Seq<Orbital>, k: int)
    requires
        distinct_shells(s),
        0 <= k < s.len(),
    ensures
        electrons_of(s, s[k].n, s[k].subshell) == s[k].electrons,
{
    let (n, sub) = (s[k].n, s[k].subshell);
    lemma_find_some(s, n, sub, 0, k);
    lemma_find_in_range(s, n, sub, 0);
    let i = find_from(s, n, sub, 0)->0;
    if i < k {
        assert(!(s[i].n == s[k].n && s[i].subshell == s[k].subshell));
    } else if i > k {
        assert(!(s[k].n == s[i].n && s[k].subshell == s[i].subshell));
    }
}

/// Setting one subshell's count keeps every subshell listed at most once.
proof fn lemma_override_distinct(s: Seq<Orbital>, ov: (u8, Subshell, u8))
    requires
        distinct_shells(s),
    ensures
        distinct_shells(apply_override(s, ov)),
        ({
            let t = apply_override(s, ov);
            exists|k: int|
                0 <= k < t.len() && #[trigger] t[k] == Orbital {
                    n: ov.0,
                    subshell: ov.1,
                    electrons: ov.2,
                }
        }),
{
    let o = Orbital { n: ov.0, subshell: ov.1, electrons: ov.2 };
    let t = apply_override(s, ov);
    lemma_find_in_range(s, ov.0, ov.1, 0);
    match find_from(s, ov.0, ov.1, 0) {
        Some(i) => {
            assert forall|a: int, b: int| 0 <= a < b < t.len() implies !(#[trigger] t[a].n
                == #[trigger] t[b].n && t[a].subshell == t[b].subshell) by {
                assert(t[a].n == s[a].n && t[a].subshell == s[a].subshell);
                assert(t[b].n == s[b].n && t[b].subshell == s[b].subshell);
                assert(!(s[a].n == s[b].n && s[a].subshell == s[b].subshell));
            }
            assert(t[i] == o);
        },
        None => {
            assert forall|a: int, b: int| 0 <= a < b < t.len() implies !(#[trigger] t[a].n
                == #[trigger] t[b].n && t[a].subshell == t[b].subshell) by {
                assert(t[a] == s[a]);
                if b < s.len() {
                    assert(t[b] == s[b]);
                    assert(!(s[a].n == s[b].n && s[a].subshell == s[b].subshell));
                } else {
                    if s[a].n == ov.0 && s[a].subshell == ov.1 {
                        lemma_find_some(s, ov.0, ov.1, 0, a);
                    }
                }
            }
            assert(t[s.len() as int] == o);
        },
    }
}

/// Every entry of `occupied(s)` comes from `s` and holds electrons, and every
/// entry of `s` that holds electrons is kept.
proof fn lemma_occupied_members(s: Seq<Orbital>)
    ensures
        forall|k: int|
            0 <= k < occupied(s).len() ==> s.contains(#[trigger] occupied(s)[k]) && occupied(
                s,
            )[k].electrons > 0,
        forall|j: int| 0 <= j < s.len() && #[trigger] s[j].electrons > 0 ==> occupied(s).contains(s[j]),
    decreases s.len(),
{
    if s.len() > 0 {
        let p = s.drop_last();
        lemma_occupied_members(p);
        let op = occupied(p);
        let l = s.last();
        assert(l == s[s.len() - 1]);
        assert forall|k: int| 0 <= k < op.len() implies s.contains(#[trigger] op[k]) by {
            let j = choose|j: int| 0 <= j < p.len() && p[j] == op[k];
            assert(s[j] == op[k]);
        }
        if l.electrons > 0 {
            let o = op.push(l);
            assert forall|k: int| 0 <= k < o.len() implies s.contains(#[trigger] o[k]) && o[k].electrons > 0 by {
                if k < op.len() {
                    assert(o[k] == op[k]);
                } else {
                    assert(s[s.len() - 1] == o[k]);
                }
            }
            assert forall|j: int| 0 <= j < s.len() && #[trigger] s[j].electrons > 0 implies o.contains(s[j]) by {
                if j < p.len() {
                    assert(p[j] == s[j]);
                    let k = choose|k: int| 0 <= k < op.len() && op[k] == p[j];
                    assert(o[k] == op[k]);
                } else {
                    assert(o[op.len() as int] == l);
                }
            }
        } else {
            assert forall|j: int| 0 <= j < s.len() && #[trigger] s[j].electrons > 0 implies op.contains(s[j]) by {
                assert(j < p.len());
                assert(p[j] == s[j]);
            }
        }
    }
}

/// Dropping the empty subshells changes no subshell's count.
proof fn lemma_occupied_electrons(s: Seq<Orbital>, n: u8, sub: Subshell)
    requires
        distinct_shells(s),
    ensures
        electrons_of(occupied(s), n, sub) == electrons_of(s, n, sub),
{
    let o = occupied(s);
    lemma_occupied_members(s);
    lemma_find_in_range(o, n, sub, 0);
    lemma_find_in_range(s, n, sub, 0);
    match find_from(o, n, sub, 0) {
        Some(i) => {
            assert(s.contains(o[i]));
            let j = choose|j: int| 0 <= j < s.len() && s[j] == o[i];
            lemma_electrons_at(s, j);
        },
        None => {
            match find_from(s, n, sub, 0) {
                Some(j) => {
                    if s[j].electrons > 0 {
                        assert(o.contains(s[j]));
                        let i = choose|i: int| 0 <= i < o.len() && o[i] == s[j];
                        lemma_find_some(o, n, sub, 0, i);
                    }
                },
                None => {},
            }
        },
    }
}

/// The naive fill lists every subshell at most once.
proof fn lemma_aufbau_distinct(z: nat)
    ensures
        distinct_shells(aufbau(z)),
{
    let a = aufbau(z);
    lemma_aufbau_order(z);
    assert forall|i: int, j: int| 0 <= i < j < a.len() implies !(#[trigger] a[i].n == #[trigger] a[j].n
        && a[i].subshell == a[j].subshell) by {
        assert(orbital_index(a[i]) == i);
        assert(orbital_index(a[j]) == j);
    }
}

/// An element of the anomaly table gets in its ground state exactly the
/// occupancies that the table lists for it.
proof fn lemma_anomaly_occupancies(z: nat)
    requires
        valid_z(z as int),
        anomaly_table(z as int) is Some,
    ensures
        ({
            let ovs = anomaly_table(z as int)->0;
            &&& electrons_of(ground_state(z), ovs[0].0, ovs[0].1) == ovs[0].2
            &&& electrons_of(ground_state(z), ovs[1].0, ovs[1].1) == ovs[1].2
        }),
{
    let ovs = anomaly_table(z as int)->0;
    let a = aufbau(z);
    lemma_table_first_present(z);
    lemma_aufbau_distinct(z);
    lemma_override_distinct(a, ovs[0]);
    let s1 = apply_override(a, ovs[0]);
    lemma_override_distinct(s1, ovs[1]);
    let s2 = apply_override(s1, ovs[1]);
    reveal_with_fuel(apply_overrides, 3);
    assert(apply_overrides(a, ovs, 2) == s2);
    assert(ovs[0].0 != ovs[1].0 || ovs[0].1 != ovs[1].1);
    let o0 = Orbital { n: ovs[0].0, subshell: ovs[0].1, electrons: ovs[0].2 };
    let o1 = Orbital { n: ovs[1].0, subshell: ovs[1].1, electrons: ovs[1].2 };
    let k0 = choose|k: int| 0 <= k < s1.len() && #[trigger] s1[k] == o0;
    lemma_electrons_at(s1, k0);
    let k1 = choose|k: int| 0 <= k < s2.len() && #[trigger] s2[k] == o1;
    lemma_electrons_at(s2, k1);
    lemma_override_other(s1, ovs[1], ovs[0].0, ovs[0].1);
    lemma_occupied_electrons(s2, ovs[0].0, ovs[0].1);
    lemma_occupied_electrons(s2, ovs[1].0, ovs[1].1);
}

/// The ground-state anomalies: these elements do not follow the naive
/// Aufbau fill, and their configurations carry these occupancies instead:
/// Cr (3d5 4s1), Cu (3d10 4s1), Nb (4d4 5s1), Mo (4d5 5s1), Ru (4d7 5s1), Rh
/// (4d8 5s1), Pd (4d10 5s0), Ag (4d10 5s1), La (4f0 5d1), Ce (4f1 5d1), Gd (4f7
/// 5d1), Pt (5d9 6s1), Au (5d10 6s1), Ac (5f0 6d1), Th (5f0 6d2), Pa (5f2 6d1),
/// U (5f3 6d1), Np (5f4 6d1), Cm (5f7 6d1).
pub proof fn law_anomaly_occupancies()
    ensures
        electrons_of(ground_state(24), 3, Subshell::D) == 5 && electrons_of(ground_state(24), 4, Subshell::S) == 1,
        electrons_of(ground_state(29), 3, Subshell::D) == 10 && electrons_of(ground_state(29), 4, Subshell::S) == 1,
        electrons_of(ground_state(41), 4, Subshell::D) == 4 && electrons_of(ground_state(41), 5, Subshell::S) == 1,
        electrons_of(ground_state(42), 4, Subshell::D) == 5 && electrons_of(ground_state(42), 5, Subshell::S) == 1,
        electrons_of(ground_state(44), 4, Subshell::D) == 7 && electrons_of(ground_state(44), 5, Subshell::S) == 1,
        electrons_of(ground_state(45), 4, Subshell::D) == 8 && electrons_of(ground_state(45), 5, Subshell::S) == 1,
        electrons_of(ground_state(46), 4, Subshell::D) == 10 && electrons_of(ground_state(46), 5, Subshell::S) == 0,
        electrons_of(ground_state(47), 4, Subshell::D) == 10 && electrons_of(ground_state(47), 5, Subshell::S) == 1,
        electrons_of(ground_state(57), 4, Subshell::F) == 0 && electrons_of(ground_state(57), 5, Subshell::D) == 1,
        electrons_of(ground_state(58), 4, Subshell::F) == 1 && electrons_of(ground_state(58), 5, Subshell::D) == 1,
        electrons_of(ground_state(64), 4, Subshell::F) == 7 && electrons_of(ground_state(64), 5, Subshell::D) == 1,
        electrons_of(ground_state(78), 5, Subshell::D) == 9 && electrons_of(ground_state(78), 6, Subshell::S) == 1,
        electrons_of(ground_state(79), 5, Subshell::D) == 10 && electrons_of(ground_state(79), 6, Subshell::S) == 1,
        electrons_of(ground_state(89), 5, Subshell::F) == 0 && electrons_of(ground_state(89), 6, Subshell::D) == 1,
        electrons_of(ground_state(90), 5, Subshell::F) == 0 && electrons_of(ground_state(90), 6, Subshell::D) == 2,
        electrons_of(ground_state(91), 5, Subshell::F) == 2 && electrons_of(ground_state(91), 6, Subshell::D) == 1,
        electrons_of(ground_state(92), 5, Subshell::F) == 3 && electrons_of(ground_state(92), 6, Subshell::D) == 1,
        electrons_of(ground_state(93), 5, Subshell::F) == 4 && electrons_of(ground_state(93), 6, Subshell::D) == 1,
        electrons_of(ground_state(96), 5, Subshell::F) == 7 && electrons_of(ground_state(96), 6, Subshell::D) == 1,
{
    assert(electrons_of(ground_state(24), 3, Subshell::D) == 5 && electrons_of(ground_state(24), 4, Subshell::S) == 1) by {
        lemma_anomaly_occupancies(24);
    }
    assert(electrons_of(ground_state(29), 3, Subshell::D) == 10 && electrons_of(ground_state(29), 4, Subshell::S) == 1) by {
        lemma_anomaly_occupancies(29);
    }
    assert(electrons_of(ground_state(41), 4, Subshell::D) == 4 && electrons_of(ground_state(41), 5, Subshell::S) == 1) by {
        lemma_anomaly_occupancies(41);
    }
    assert(electrons_of(ground_state(42), 4, Subshell::D) == 5 && electrons_of(ground_state(42), 5, Subshell::S) == 1) by {
        lemma_anomaly_occupancies(42);
    }
    assert(electrons_of(ground_state(44), 4, Subshell::D) == 7 && electrons_of(ground_state(44), 5, Subshell::S) == 1) by {
        lemma_anomaly_occupancies(44);
    }
    assert(electrons_of(ground_state(45), 4, Subshell::D) == 8 && electrons_of(ground_state(45), 5, Subshell::S) == 1) by {
        lemma_anomaly_occupancies(45);
    }
    assert(electrons_of(ground_state(46), 4, Subshell::D) == 10 && electrons_of(ground_state(46), 5, Subshell::S) == 0) by {
        lemma_anomaly_occupancies(46);
    }
    assert(electrons_of(ground_state(47), 4, Subshell::D) == 10 && electrons_of(ground_state(47), 5, Subshell::S) == 1) by {
        lemma_anomaly_occupancies(47);
    }
    assert(electrons_of(ground_state(57), 4, Subshell::F) == 0 && electrons_of(ground_state(57), 5, Subshell::D) == 1) by {
        lemma_anomaly_occupancies(57);
    }
    assert(electrons_of(ground_state(58), 4, Subshell::F) == 1 && electrons_of(ground_state(58), 5, Subshell::D) == 1) by {
        lemma_anomaly_occupancies(58);
    }
    assert(electrons_of(ground_state(64), 4, Subshell::F) == 7 && electrons_of(ground_state(64), 5, Subshell::D) == 1) by {
        lemma_anomaly_occupancies(64);
    }
    assert(electrons_of(ground_state(78), 5, Subshell::D) == 9 && electrons_of(ground_state(78), 6, Subshell::S) == 1) by {
        lemma_anomaly_occupancies(78);
    }
    assert(electrons_of(ground_state(79), 5, Subshell::D) == 10 && electrons_of(ground_state(79), 6, Subshell::S) == 1) by {
        lemma_anomaly_occupancies(79);
    }
    assert(electrons_of(ground_state(89), 5, Subshell::F) == 0 && electrons_of(ground_state(89), 6, Subshell::D) == 1) by {
        lemma_anomaly_occupancies(89);
    }
    assert(electrons_of(ground_state(90), 5, Subshell::F) == 0 && electrons_of(ground_state(90), 6, Subshell::D) == 2) by {
        lemma_anomaly_occupancies(90);
    }
    assert(electrons_of(ground_state(91), 5, Subshell::F) == 2 && electrons_of(ground_state(91), 6, Subshell::D) == 1) by {
        lemma_anomaly_occupancies(91);
    }
    assert(electrons_of(ground_state(92), 5, Subshell::F) == 3 && electrons_of(ground_state(92), 6, Subshell::D) == 1) by {
        lemma_anomaly_occupancies(92);
    }
    assert(electrons_of(ground_state(93), 5, Subshell::F) == 4 && electrons_of(ground_state(93), 6, Subshell::D) == 1) by {
        lemma_anomaly_occupancies(93);
    }
    assert(electrons_of(ground_state(96), 5, Subshell::F) == 7 && electrons_of(ground_state(96), 6, Subshell::D) == 1) by {
        lemma_anomaly_occupancies(96);
    }
}

/// The Madelung order, entry by entry.
proof fn lemma_madelung_values()
    ensures
        madelung()[0] == (1u8, Subshell::S),
        madelung()[1] == (2u8, Subshell::S),
        madelung()[2] == (2u8, Subshell::P),
        madelung()[3] == (3u8, Subshell::S),
        madelung()[4] == (3u8, Subshell::P),
        madelung()[5] == (4u8, Subshell::S),
        madelung()[6] == (3u8, Subshell::D),
        madelung()[7] == (4u8, Subshell::P),
        madelung()[8] == (5u8, Subshell::S),
        madelung()[9] == (4u8, Subshell::D),
        madelung()[10] == (5u8, Subshell::P),
        madelung()[11] == (6u8, Subshell::S),
        madelung()[12] == (4u8, Subshell::F),
        madelung()[13] == (5u8, Subshell::D),
        madelung()[14] == (6u8, Subshell::P),
        madelung()[15] == (7u8, Subshell::S),
        madelung()[16] == (5u8, Subshell::F),
        madelung()[17] == (6u8, Subshell::D),
        madelung()[18] == (7u8, Subshell::P),
{
}

/// When `z` electrons run out within the Madelung subshell at position
/// `last`, the naive fill lists the subshells up to `last` and no more, and
/// that last subshell holds what remains once the earlier ones are full.
proof fn lemma_fill_ends_at(z: nat, last: int)
    requires
        0 <= last < 19,
        capacity_from(0) - capacity_from(last as nat) < z,
        z <= capacity_from(0) - capacity_from((last + 1) as nat),
    ensures
        aufbau(z).len() == last + 1,
        forall|k: int|
            0 <= k <= last ==> (#[trigger] aufbau(z)[k]).n == madelung()[k].0 && aufbau(z)[k].subshell
                == madelung()[k].1,
        electrons_of(aufbau(z), madelung()[last].0, madelung()[last].1) == z - (capacity_from(0)
            - capacity_from(last as nat)),
{
    let a = aufbau(z);
    let m = madelung();
    lemma_aufbau_order(z);
    lemma_fill_positions(0, z);
    lemma_aufbau_distinct(z);
    lemma_fill_electrons_at(0, z, last);
    lemma_find_in_range(a, m[last].0, m[last].1, 0);
    let j = find_from(a, m[last].0, m[last].1, 0)->0;
    lemma_madelung_index_of(j);
    lemma_madelung_index_of(last);
    assert(j == last);
    if last + 1 < 19 && a.len() > last + 1 {
        lemma_electrons_at(a, last + 1);
        lemma_fill_electrons_at(0, z, last + 1);
    }
}

/// A p-block element: when the fill of `z` ends in a p subshell whose shell
/// number is the highest so far, that shell is the period, the block is p,
/// and the group is 12 plus the electrons in that subshell.
proof fn lemma_p_block_placement(z: nat, last: int)
    requires
        valid_z(z as int),
        z > 2,
        anomaly_table(z as int) is None,
        0 <= last < 19,
        madelung()[last].1 == Subshell::P,
        forall|k: int| 0 <= k <= last ==> #[trigger] madelung()[k].0 <= madelung()[last].0,
        capacity_from(0) - capacity_from(last as nat) < z,
        z <= capacity_from(0) - capacity_from((last + 1) as nat),
    ensures
        crate::classification::block_of(z) == crate::classification::Block::P,
        crate::classification::period_of(z) == madelung()[last].0,
        crate::classification::group_of(z) == 12 + z - (capacity_from(0) - capacity_from(last as nat)),
{
    let a = aufbau(z);
    lemma_fill_ends_at(z, last);
    assert(a.last() == a[last]);
    lemma_max_n_is_max(a);
    let k = choose|k: int| 0 <= k < a.len() && (#[trigger] a[k]).n == crate::classification::max_n(a);
    assert(a[k].n == madelung()[k].0);
    assert(a[last].n == madelung()[last].0);
}

/// The metalloids of the category heuristic are exactly boron, silicon,
/// germanium, arsenic, antimony and tellurium. Astatine, though on the
/// heuristic's metalloid list, stands in group 17 and is a halogen.
pub proof fn law_category_metalloids()
    ensures
        category_of(5) == Category::Metalloid,
        category_of(14) == Category::Metalloid,
        category_of(32) == Category::Metalloid,
        category_of(33) == Category::Metalloid,
        category_of(51) == Category::Metalloid,
        category_of(52) == Category::Metalloid,
        category_of(85) == Category::Halogen,
        forall|z: nat|
            valid_z(z as int) ==> (#[trigger] category_of(z) == Category::Metalloid <==> (z == 5 || z
                == 14 || z == 32 || z == 33 || z == 51 || z == 52)),
{
    reveal_with_fuel(capacity_from, 20);
    lemma_madelung_values();
    assert(category_of(5) == Category::Metalloid) by {
        assert forall|k: int| 0 <= k <= 2 implies #[trigger] madelung()[k].0 <= madelung()[2].0 by {
            if k == 0 {
            } else if k == 1 {
            } else {
            }
        }
        lemma_p_block_placement(5, 2);
    }
    assert(category_of(14) == Category::Metalloid) by {
        assert forall|k: int| 0 <= k <= 4 implies #[trigger] madelung()[k].0 <= madelung()[4].0 by {
            if k == 0 {
            } else if k == 1 {
            } else if k == 2 {
            } else if k == 3 {
            } else {
            }
        }
        lemma_p_block_placement(14, 4);
    }
    assert(category_of(32) == Category::Metalloid) by {
        assert forall|k: int| 0 <= k <= 7 implies #[trigger] madelung()[k].0 <= madelung()[7].0 by {
            if k == 0 {
            } else if k == 1 {
            } else if k == 2 {
            } else if k == 3 {
            } else if k == 4 {
            } else if k == 5 {
            } else if k == 6 {
            } else {
            }
        }
        lemma_p_block_placement(32, 7);
    }
    assert(category_of(33) == Category::Metalloid) by {
        assert forall|k: int| 0 <= k <= 7 implies #[trigger] madelung()[k].0 <= madelung()[7].0 by {
            if k == 0 {
            } else if k == 1 {
            } else if k == 2 {
            } else if k == 3 {
            } else if k == 4 {
            } else if k == 5 {
            } else if k == 6 {
            } else {
            }
        }
        lemma_p_block_placement(33, 7);
    }
    assert(category_of(51) == Category::Metalloid) by {
        assert forall|k: int| 0 <= k <= 10 implies #[trigger] madelung()[k].0 <= madelung()[10].0 by {
            if k == 0 {
            } else if k == 1 {
            } else if k == 2 {
            } else if k == 3 {
            } else if k == 4 {
            } else if k == 5 {
            } else if k == 6 {
            } else if k == 7 {
            } else if k == 8 {
            } else if k == 9 {
            } else {
            }
        }
        lemma_p_block_placement(51, 10);
    }
    assert(category_of(52) == Category::Metalloid) by {
        assert forall|k: int| 0 <= k <= 10 implies #[trigger] madelung()[k].0 <= madelung()[10].0 by {
            if k == 0 {
            } else if k == 1 {
            } else if k == 2 {
            } else if k == 3 {
            } else if k == 4 {
            } else if k == 5 {
            } else if k == 6 {
            } else if k == 7 {
            } else if k == 8 {
            } else if k == 9 {
            } else {
            }
        }
        lemma_p_block_placement(52, 10);
    }
    assert(category_of(85) == Category::Halogen) by {
        assert forall|k: int| 0 <= k <= 14 implies #[trigger] madelung()[k].0 <= madelung()[14].0 by {
            if k == 0 {
            } else if k == 1 {
            } else if k == 2 {
            } else if k == 3 {
            } else if k == 4 {
            } else if k == 5 {
            } else if k == 6 {
            } else if k == 7 {
            } else if k == 8 {
            } else if k == 9 {
            } else if k == 10 {
            } else if k == 11 {
            } else if k == 12 {
            } else if k == 13 {
            } else {
            }
        }
        lemma_p_block_placement(85, 14);
    }
}

} // verus!
