//! Electron configuration via the Aufbau principle (Madelung ordering),
//! subshell capacities (Pauli exclusion), and Hund's rule for unpaired counts.
use crate::error::DomainError;
use crate::text::{decimal, decimal_chars, extend_chars, push_char, string_of};
use vstd::prelude::*;

verus! {

/// Azimuthal (orbital-shape) subshell type.
#[derive(Debug, Clone, Copy, PartialEq, Eq, Structural)]
pub enum Subshell {
    S,
    P,
    D,
    F,
}

impl Subshell {
    /// The azimuthal quantum number `l` (0 for s, 1 for p, 2 for d, 3 for f).
    pub open spec fn l(self) -> nat {
        match self {
            Subshell::S => 0,
            Subshell::P => 1,
            Subshell::D => 2,
            Subshell::F => 3,
        }
    }

    /// The spectroscopic letter of the subshell.
    pub open spec fn letter(self) -> char {
        match self {
            Subshell::S => 's',
            Subshell::P => 'p',
            Subshell::D => 'd',
            Subshell::F => 'f',
        }
    }

    /// Azimuthal quantum number `l`.
    pub fn azimuthal(self) -> (r: u8)
        ensures
            r == self.l(),
    {
        match self {
            Subshell::S => 0,
            Subshell::P => 1,
            Subshell::D => 2,
            Subshell::F => 3,
        }
    }

    /// Maximum electrons the subshell can hold: `2 * (2l + 1)`.
    pub fn capacity(self) -> (r: u8)
        ensures
            r == 2 * (2 * self.l() + 1),
    {
        match self {
            Subshell::S => 2,
            Subshell::P => 6,
            Subshell::D => 10,
            Subshell::F => 14,
        }
    }

    /// Number of orbitals in the subshell: `2l + 1`.
    pub fn orbital_count(self) -> (r: u8)
        ensures
            r == 2 * self.l() + 1,
    {
        2 * self.azimuthal() + 1
    }

    /// Spectroscopic label.
    pub fn label(self) -> (c: char)
        ensures
            c == self.letter(),
    {
        match self {
            Subshell::S => 's',
            Subshell::P => 'p',
            Subshell::D => 'd',
            Subshell::F => 'f',
        }
    }
}

/// An occupied subshell within a configuration.
#[derive(Debug, Clone, Copy, PartialEq, Eq, Structural)]
pub struct Orbital {
    pub n: u8,
    pub subshell: Subshell,
    pub electrons: u8,
}

/// A full electron configuration.
#[derive(Debug, Clone, PartialEq, Eq)]
pub struct ElectronConfiguration {
    /// Occupied subshells, stored in Aufbau fill order.
    pub orbitals: Vec<Orbital>,
}

/// Unpaired electrons of one subshell by Hund's rule: electrons fill the
/// `2l + 1` orbitals singly before pairing.
pub open spec fn unpaired_in(o: Orbital) -> int {
    let half = 2 * o.subshell.l() + 1;
    if o.electrons <= half {
        o.electrons as int
    } else {
        2 * half - o.electrons
    }
}

/// Total unpaired electrons over a sequence of subshells.
pub open spec fn total_unpaired(s: Seq<Orbital>) -> int
    decreases s.len(),
{
    if s.len() == 0 {
        0
    } else {
        total_unpaired(s.drop_last()) + unpaired_in(s.last())
    }
}

/// Total electrons over a sequence of subshells.
pub open spec fn total_electrons(s: Seq<Orbital>) -> int
    decreases s.len(),
{
    if s.len() == 0 {
        0
    } else {
        total_electrons(s.drop_last()) + s.last().electrons
    }
}

/// No subshell holds more electrons than its capacity.
pub open spec fn within_capacity(s: Seq<Orbital>) -> bool {
    forall|i: int| 0 <= i < s.len() ==> #[trigger] s[i].electrons <= 2 * (2 * s[i].subshell.l() + 1)
}

/// Index of the first subshell `(n, sub)` at or after `from`, if any.
pub open spec fn find_from(s: Seq<Orbital>, n: u8, sub: Subshell, from: int) -> Option<int>
    decreases s.len() - from,
{
    if from < 0 || from >= s.len() {
        None
    } else if s[from].n == n && s[from].subshell == sub {
        Some(from)
    } else {
        find_from(s, n, sub, from + 1)
    }
}

/// Electrons in the first `(n, sub)` subshell of `s`, or 0 when absent.
pub open spec fn electrons_of(s: Seq<Orbital>, n: u8, sub: Subshell) -> int {
    match find_from(s, n, sub, 0) {
        Some(i) => s[i].electrons as int,
        None => 0,
    }
}

impl ElectronConfiguration {
    /// Total number of unpaired electrons (Hund's rule).
    pub fn unpaired_electrons(&self) -> (r: u8)
        requires
            within_capacity(self.orbitals@),
            total_unpaired(self.orbitals@) <= 255,
        ensures
            r == total_unpaired(self.orbitals@),
    {
        let mut sum: u8 = 0;
        let mut i: usize = 0;
        while i < self.orbitals.len()
            invariant
                i <= self.orbitals.len(),
                within_capacity(self.orbitals@),
                total_unpaired(self.orbitals@) <= 255,
                sum == total_unpaired(self.orbitals@.subrange(0, i as int)),
            decreases self.orbitals.len() - i,
        {
            let o = self.orbitals[i];
            let half = o.subshell.orbital_count();
            let u = if o.electrons <= half {
                o.electrons
            } else {
                assert(self.orbitals@[i as int].electrons <= 2 * (2
                    * self.orbitals@[i as int].subshell.l() + 1));
                2 * half - o.electrons
            };
            proof {
                let s = self.orbitals@;
                assert(s.subrange(0, i + 1).drop_last() =~= s.subrange(0, i as int));
                lemma_total_unpaired_prefix_bound(s, i + 1);
            }
            sum = sum + u;
            i = i + 1;
        }
        assert(self.orbitals@.subrange(0, i as int) =~= self.orbitals@);
        sum
    }

    /// Electrons in a specific `(n, subshell)`, or 0 if absent.
    pub fn electrons_in(&self, n: u8, subshell: Subshell) -> (r: u8)
        ensures
            r == electrons_of(self.orbitals@, n, subshell),
    {
        match find_orbital(&self.orbitals, n, subshell) {
            Some(i) => self.orbitals[i].electrons,
            None => 0,
        }
    }

    /// Renders in standard (n, l) order, e.g. "1s2 2s2 2p6 3s2 3p6 3d6 4s2".
    pub fn to_string(&self) -> (s: String)
        ensures
            s@ == render(sort_by_shell(self.orbitals@)),
    {
        let ordered = sort_orbitals(&self.orbitals);
        let mut out: Vec<char> = Vec::new();
        let mut i: usize = 0;
        while i < ordered.len()
            invariant
                i <= ordered.len(),
                out@ == render(ordered@.subrange(0, i as int)),
            decreases ordered.len() - i,
        {
            let ghost prev = ordered@.subrange(0, i as int);
            if i > 0 {
                out.push(' ');
            }
            let o = ordered[i];
            let d = decimal_chars(o.n as u64);
            extend_chars(&mut out, &d);
            out.push(o.subshell.label());
            let e = decimal_chars(o.electrons as u64);
            extend_chars(&mut out, &e);
            proof {
                assert(ordered@.subrange(0, i + 1).drop_last() =~= prev);
            }
            i = i + 1;
        }
        assert(ordered@.subrange(0, i as int) =~= ordered@);
        string_of(&out)
    }
}

proof fn lemma_total_unpaired_prefix_bound(s: Seq<Orbital>, k: int)
    requires
        0 <= k <= s.len(),
        within_capacity(s),
    ensures
        total_unpaired(s.subrange(0, k)) <= total_unpaired(s),
        total_unpaired(s.subrange(0, k)) >= 0,
    decreases s.len(),
{
    if k == s.len() {
        assert(s.subrange(0, k) =~= s);
        lemma_total_unpaired_nonneg(s);
    } else {
        assert(s.drop_last().subrange(0, k) =~= s.subrange(0, k));
        assert forall|i: int| 0 <= i < s.drop_last().len() implies #[trigger] s.drop_last()[i].electrons
            <= 2 * (2 * s.drop_last()[i].subshell.l() + 1) by {
            assert(s.drop_last()[i] == s[i]);
        }
        lemma_total_unpaired_prefix_bound(s.drop_last(), k);
        assert(s.last() == s[s.len() - 1]);
    }
}

proof fn lemma_total_unpaired_nonneg(s: Seq<Orbital>)
    requires
        within_capacity(s),
    ensures
        total_unpaired(s) >= 0,
    decreases s.len(),
{
    if s.len() > 0 {
        assert forall|i: int| 0 <= i < s.drop_last().len() implies #[trigger] s.drop_last()[i].electrons
            <= 2 * (2 * s.drop_last()[i].subshell.l() + 1) by {
            assert(s.drop_last()[i] == s[i]);
        }
        lemma_total_unpaired_nonneg(s.drop_last());
        assert(s.last() == s[s.len() - 1]);
    }
}

/// Index of the first `(n, sub)` subshell.
fn find_orbital(v: &Vec<Orbital>, n: u8, sub: Subshell) -> (r: Option<usize>)
    ensures
        r matches Some(i) ==> find_from(v@, n, sub, 0) == Some(i as int) && i < v.len(),
        r is None ==> find_from(v@, n, sub, 0) is None,
{
    let mut i: usize = 0;
    while i < v.len()
        invariant
            i <= v.len(),
            find_from(v@, n, sub, 0) == find_from(v@, n, sub, i as int),
        decreases v.len() - i,
    {
        if v[i].n == n && v[i].subshell == sub {
            return Some(i);
        }
        i = i + 1;
    }
    None
}

/// The order in which subshells are shown: by `n`, then by `l`.
pub open spec fn shell_before(a: Orbital, b: Orbital) -> bool {
    a.n < b.n || (a.n == b.n && a.subshell.l() < b.subshell.l())
}

/// Position at which `o` goes into `s`: before the first entry that must follow it.
pub open spec fn insert_pos(s: Seq<Orbital>, o: Orbital) -> int
    decreases s.len(),
{
    if s.len() == 0 {
        0
    } else if shell_before(o, s[0]) {
        0
    } else {
        1 + insert_pos(s.drop_first(), o)
    }
}

/// Stable sort of `s` by `(n, l)`: each subshell is inserted after every
/// earlier one that does not follow it.
pub open spec fn sort_by_shell(s: Seq<Orbital>) -> Seq<Orbital>
    decreases s.len(),
{
    if s.len() == 0 {
        s
    } else {
        let sorted = sort_by_shell(s.drop_last());
        sorted.insert(insert_pos(sorted, s.last()), s.last())
    }
}

/// The text of one subshell, e.g. `"3d6"`.
pub open spec fn render_one(o: Orbital) -> Seq<char> {
    decimal(o.n as nat).push(o.subshell.letter()) + decimal(o.electrons as nat)
}

/// Subshells joined by single spaces.
pub open spec fn render(s: Seq<Orbital>) -> Seq<char>
    decreases s.len(),
{
    if s.len() == 0 {
        Seq::empty()
    } else if s.len() == 1 {
        render_one(s[0])
    } else {
        render(s.drop_last()).push(' ') + render_one(s.last())
    }
}

pub(crate) proof fn lemma_insert_pos_bounds(s: Seq<Orbital>, o: Orbital)
    ensures
        0 <= insert_pos(s, o) <= s.len(),
    decreases s.len(),
{
    if s.len() > 0 && !shell_before(o, s[0]) {
        lemma_insert_pos_bounds(s.drop_first(), o);
    }
}

pub(crate) proof fn lemma_sort_len(s: Seq<Orbital>)
    ensures
        sort_by_shell(s).len() == s.len(),
    decreases s.len(),
{
    if s.len() > 0 {
        lemma_sort_len(s.drop_last());
        lemma_insert_pos_bounds(sort_by_shell(s.drop_last()), s.last());
    }
}

fn insertion_point(v: &Vec<Orbital>, o: Orbital) -> (r: usize)
    ensures
        r == insert_pos(v@, o),
{
    let mut i: usize = 0;
    assert(v@.subrange(0, v@.len() as int) =~= v@);
    while i < v.len()
        invariant
            i <= v.len(),
            forall|j: int| 0 <= j < i ==> !shell_before(o, #[trigger] v@[j]),
            insert_pos(v@, o) == i + insert_pos(v@.subrange(i as int, v@.len() as int), o),
        decreases v.len() - i,
    {
        let a = v[i];
        let before = o.n < a.n || (o.n == a.n && o.subshell.azimuthal() < a.subshell.azimuthal());
        if before {
            return i;
        }
        assert(v@.subrange(i as int, v@.len() as int).drop_first() =~= v@.subrange(
            i + 1,
            v@.len() as int,
        ));
        i = i + 1;
    }
    i
}

fn sort_orbitals(v: &Vec<Orbital>) -> (r: Vec<Orbital>)
    ensures
        r@ == sort_by_shell(v@),
{
    let mut sorted: Vec<Orbital> = Vec::new();
    let mut i: usize = 0;
    while i < v.len()
        invariant
            i <= v.len(),
            sorted@ == sort_by_shell(v@.subrange(0, i as int)),
        decreases v.len() - i,
    {
        let o = v[i];
        let p = insertion_point(&sorted, o);
        proof {
            lemma_insert_pos_bounds(sorted@, o);
            lemma_sort_len(v@.subrange(0, i as int));
            assert(v@.subrange(0, i + 1).drop_last() =~= v@.subrange(0, i as int));
        }
        sorted.insert(p, o);
        i = i + 1;
    }
    assert(v@.subrange(0, i as int) =~= v@);
    sorted
}

/// The Madelung (n + l) fill order, covering atomic numbers 1..=118.
pub open spec fn madelung() -> Seq<(u8, Subshell)> {
    seq![
        (1u8, Subshell::S),
        (2u8, Subshell::S),
        (2u8, Subshell::P),
        (3u8, Subshell::S),
        (3u8, Subshell::P),
        (4u8, Subshell::S),
        (3u8, Subshell::D),
        (4u8, Subshell::P),
        (5u8, Subshell::S),
        (4u8, Subshell::D),
        (5u8, Subshell::P),
        (6u8, Subshell::S),
        (4u8, Subshell::F),
        (5u8, Subshell::D),
        (6u8, Subshell::P),
        (7u8, Subshell::S),
        (5u8, Subshell::F),
        (6u8, Subshell::D),
        (7u8, Subshell::P),
    ]
}

fn madelung_at(i: usize) -> (r: (u8, Subshell))
    requires
        i < 19,
    ensures
        r == madelung()[i as int],
{
    match i {
        0 => (1, Subshell::S),
        1 => (2, Subshell::S),
        2 => (2, Subshell::P),
        3 => (3, Subshell::S),
        4 => (3, Subshell::P),
        5 => (4, Subshell::S),
        6 => (3, Subshell::D),
        7 => (4, Subshell::P),
        8 => (5, Subshell::S),
        9 => (4, Subshell::D),
        10 => (5, Subshell::P),
        11 => (6, Subshell::S),
        12 => (4, Subshell::F),
        13 => (5, Subshell::D),
        14 => (6, Subshell::P),
        15 => (7, Subshell::S),
        16 => (5, Subshell::F),
        17 => (6, Subshell::D),
        _ => (7, Subshell::P),
    }
}

/// Filling the Madelung order from position `i` with `remaining` electrons:
/// each subshell takes as many as it holds, until none are left.
pub open spec fn fill_from(i: nat, remaining: nat) -> Seq<Orbital>
    decreases 19 - i,
{
    if remaining == 0 || i >= 19 {
        Seq::empty()
    } else {
        let (n, sub) = madelung()[i as int];
        let cap = 2 * (2 * sub.l() + 1);
        let e: nat = if remaining < cap {
            remaining
        } else {
            cap
        };
        seq![Orbital { n, subshell: sub, electrons: e as u8 }] + fill_from(i + 1, (remaining - e) as nat)
    }
}

/// The naive Aufbau fill of `z` electrons, before anomaly corrections.
pub open spec fn aufbau(z: nat) -> Seq<Orbital> {
    fill_from(0, z)
}

/// Naive Aufbau fill (before anomaly corrections), in fill order.
pub(crate) fn aufbau_fill(z: u8) -> (r: Vec<Orbital>)
    ensures
        r@ == aufbau(z as nat),
{
    let mut remaining: u16 = z as u16;
    let mut orbitals: Vec<Orbital> = Vec::new();
    let mut i: usize = 0;
    while i < 19
        invariant_except_break
            i <= 19,
            remaining <= 255,
            orbitals@ + fill_from(i as nat, remaining as nat) == aufbau(z as nat),
        ensures
            orbitals@ == aufbau(z as nat),
        decreases 19 - i,
    {
        if remaining == 0 {
            assert(fill_from(i as nat, 0) =~= Seq::<Orbital>::empty());
            assert(orbitals@ + Seq::<Orbital>::empty() =~= orbitals@);
            break;
        }
        let (n, subshell) = madelung_at(i);
        let cap = subshell.capacity() as u16;
        let electrons = if remaining < cap {
            remaining
        } else {
            cap
        };
        let ghost before = orbitals@;
        orbitals.push(Orbital { n, subshell, electrons: electrons as u8 });
        proof {
            let o = Orbital { n, subshell, electrons: electrons as u8 };
            assert(fill_from(i as nat, remaining as nat) == seq![o] + fill_from(
                (i + 1) as nat,
                (remaining - electrons) as nat,
            ));
            assert(before + (seq![o] + fill_from((i + 1) as nat, (remaining - electrons) as nat))
                =~= before.push(o) + fill_from((i + 1) as nat, (remaining - electrons) as nat));
        }
        remaining = remaining - electrons;
        i = i + 1;
    }
    proof {
        if i >= 19 {
            assert(fill_from(i as nat, remaining as nat) =~= Seq::<Orbital>::empty());
            assert(orbitals@ + Seq::<Orbital>::empty() =~= orbitals@);
        }
    }
    orbitals
}

/// Known ground-state anomalies: absolute occupancies `(n, subshell, electrons)`
/// for the subshells that deviate from the naive fill.
pub open spec fn anomaly_table(z: int) -> Option<Seq<(u8, Subshell, u8)>> {
    if z == 24 {
        Some(seq![(3u8, Subshell::D, 5u8), (4u8, Subshell::S, 1u8)])
    } else if z == 29 {
        Some(seq![(3u8, Subshell::D, 10u8), (4u8, Subshell::S, 1u8)])
    } else if z == 41 {
        Some(seq![(4u8, Subshell::D, 4u8), (5u8, Subshell::S, 1u8)])
    } else if z == 42 {
        Some(seq![(4u8, Subshell::D, 5u8), (5u8, Subshell::S, 1u8)])
    } else if z == 44 {
        Some(seq![(4u8, Subshell::D, 7u8), (5u8, Subshell::S, 1u8)])
    } else if z == 45 {
        Some(seq![(4u8, Subshell::D, 8u8), (5u8, Subshell::S, 1u8)])
    } else if z == 46 {
        Some(seq![(4u8, Subshell::D, 10u8), (5u8, Subshell::S, 0u8)])
    } else if z == 47 {
        Some(seq![(4u8, Subshell::D, 10u8), (5u8, Subshell::S, 1u8)])
    } else if z == 57 {
        Some(seq![(4u8, Subshell::F, 0u8), (5u8, Subshell::D, 1u8)])
    } else if z == 58 {
        Some(seq![(4u8, Subshell::F, 1u8), (5u8, Subshell::D, 1u8)])
    } else if z == 64 {
        Some(seq![(4u8, Subshell::F, 7u8), (5u8, Subshell::D, 1u8)])
    } else if z == 78 {
        Some(seq![(5u8, Subshell::D, 9u8), (6u8, Subshell::S, 1u8)])
    } else if z == 79 {
        Some(seq![(5u8, Subshell::D, 10u8), (6u8, Subshell::S, 1u8)])
    } else if z == 89 {
        Some(seq![(5u8, Subshell::F, 0u8), (6u8, Subshell::D, 1u8)])
    } else if z == 90 {
        Some(seq![(5u8, Subshell::F, 0u8), (6u8, Subshell::D, 2u8)])
    } else if z == 91 {
        Some(seq![(5u8, Subshell::F, 2u8), (6u8, Subshell::D, 1u8)])
    } else if z == 92 {
        Some(seq![(5u8, Subshell::F, 3u8), (6u8, Subshell::D, 1u8)])
    } else if z == 93 {
        Some(seq![(5u8, Subshell::F, 4u8), (6u8, Subshell::D, 1u8)])
    } else if z == 96 {
        Some(seq![(5u8, Subshell::F, 7u8), (6u8, Subshell::D, 1u8)])
    } else {
        None
    }
}

/// Known ground-state anomalies: absolute occupancies for the orbitals that
/// deviate from naive Aufbau. Orbitals set to 0 are dropped after applying.
fn anomalies(z: u8) -> (r: Option<Vec<(u8, Subshell, u8)>>)
    ensures
        match anomaly_table(z as int) {
            Some(t) => r matches Some(v) && v@ == t,
            None => r is None,
        },
{
    let d = Subshell::D;
    let f = Subshell::F;
    let s = Subshell::S;
    match z {
        24 => Some(vec![(3, d, 5), (4, s, 1)]),
        29 => Some(vec![(3, d, 10), (4, s, 1)]),
        41 => Some(vec![(4, d, 4), (5, s, 1)]),
        42 => Some(vec![(4, d, 5), (5, s, 1)]),
        44 => Some(vec![(4, d, 7), (5, s, 1)]),
        45 => Some(vec![(4, d, 8), (5, s, 1)]),
        46 => Some(vec![(4, d, 10), (5, s, 0)]),
        47 => Some(vec![(4, d, 10), (5, s, 1)]),
        57 => Some(vec![(4, f, 0), (5, d, 1)]),
        58 => Some(vec![(4, f, 1), (5, d, 1)]),
        64 => Some(vec![(4, f, 7), (5, d, 1)]),
        78 => Some(vec![(5, d, 9), (6, s, 1)]),
        79 => Some(vec![(5, d, 10), (6, s, 1)]),
        89 => Some(vec![(5, f, 0), (6, d, 1)]),
        90 => Some(vec![(5, f, 0), (6, d, 2)]),
        91 => Some(vec![(5, f, 2), (6, d, 1)]),
        92 => Some(vec![(5, f, 3), (6, d, 1)]),
        93 => Some(vec![(5, f, 4), (6, d, 1)]),
        96 => Some(vec![(5, f, 7), (6, d, 1)]),
        _ => None,
    }
}

/// One anomaly entry applied: the matching subshell gets the new occupancy,
/// or the subshell is appended when it was not filled.
pub open spec fn apply_override(s: Seq<Orbital>, ov: (u8, Subshell, u8)) -> Seq<Orbital> {
    let o = Orbital { n: ov.0, subshell: ov.1, electrons: ov.2 };
    match find_from(s, ov.0, ov.1, 0) {
        Some(i) => s.update(i, o),
        None => s.push(o),
    }
}

/// The first `k` anomaly entries applied in order.
pub open spec fn apply_overrides(s: Seq<Orbital>, ovs: Seq<(u8, Subshell, u8)>, k: nat) -> Seq<
    Orbital,
>
    decreases k,
{
    if k == 0 {
        s
    } else {
        apply_override(apply_overrides(s, ovs, (k - 1) as nat), ovs[k - 1])
    }
}

/// The subshells that hold at least one electron, in order.
pub open spec fn occupied(s: Seq<Orbital>) -> Seq<Orbital>
    decreases s.len(),
{
    if s.len() == 0 {
        s
    } else if s.last().electrons > 0 {
        occupied(s.drop_last()).push(s.last())
    } else {
        occupied(s.drop_last())
    }
}

/// The ground-state configuration of `z`: the naive fill, with the anomaly
/// table applied and emptied subshells dropped.
pub open spec fn ground_state(z: nat) -> Seq<Orbital> {
    match anomaly_table(z as int) {
        Some(ovs) => occupied(apply_overrides(aufbau(z), ovs, ovs.len())),
        None => aufbau(z),
    }
}

/// The supported range of atomic numbers.
pub open spec fn valid_z(z: int) -> bool {
    1 <= z <= 118
}

fn validate_z(z: u8) -> (r: Result<(), DomainError>)
    ensures
        r is Ok <==> valid_z(z as int),
        r matches Err(e) ==> e == DomainError::InvalidAtomicNumber(z as u16),
{
    if 1 <= z && z <= 118 {
        Ok(())
    } else {
        Err(DomainError::InvalidAtomicNumber(z as u16))
    }
}

/// Computes the ground-state electron configuration for atomic number `z`.
pub fn electron_configuration(z: u8) -> (r: Result<ElectronConfiguration, DomainError>)
    ensures
        r matches Ok(c) ==> valid_z(z as int) && c.orbitals@ == ground_state(z as nat),
        r matches Err(e) ==> !valid_z(z as int) && e == DomainError::InvalidAtomicNumber(z as u16),
        r is Ok <==> valid_z(z as int),
{
    validate_z(z)?;
    let mut orbitals = aufbau_fill(z);
    if let Some(overrides) = anomalies(z) {
        let ghost start = orbitals@;
        let mut k: usize = 0;
        while k < overrides.len()
            invariant
                k <= overrides.len(),
                orbitals@ == apply_overrides(start, overrides@, k as nat),
            decreases overrides.len() - k,
        {
            let (n, subshell, electrons) = overrides[k];
            match find_orbital(&orbitals, n, subshell) {
                Some(j) => {
                    orbitals.set(j, Orbital { n, subshell, electrons });
                },
                None => {
                    orbitals.push(Orbital { n, subshell, electrons });
                },
            }
            k = k + 1;
        }
        let kept = retain_occupied(&orbitals);
        return Ok(ElectronConfiguration { orbitals: kept });
    }
    Ok(ElectronConfiguration { orbitals })
}

fn retain_occupied(v: &Vec<Orbital>) -> (r: Vec<Orbital>)
    ensures
        r@ == occupied(v@),
{
    let mut out: Vec<Orbital> = Vec::new();
    let mut i: usize = 0;
    while i < v.len()
        invariant
            i <= v.len(),
            out@ == occupied(v@.subrange(0, i as int)),
        decreases v.len() - i,
    {
        proof {
            assert(v@.subrange(0, i + 1).drop_last() =~= v@.subrange(0, i as int));
        }
        if v[i].electrons > 0 {
            out.push(v[i]);
        }
        i = i + 1;
    }
    assert(v@.subrange(0, i as int) =~= v@);
    out
}

} // verus!
