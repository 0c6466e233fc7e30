//! The element index: elements ordered by atomic number, with
//! case-insensitive symbol and name lookup, refusing duplicates.
use crate::element::StateOfMatter;
use crate::text::{chars_of, decimal, decimal_chars, extend_chars, str_eq, string_of};
use vstd::prelude::*;

verus! {

/// What the index reads of an element: its atomic number, symbol and name.
#[derive(Debug, Clone, PartialEq, Eq)]
pub struct ElementKey {
    pub atomic_number: u8,
    pub symbol: String,
    pub name: String,
}

/// Why an index could not be built.
#[derive(Debug, Clone, PartialEq, Eq)]
pub enum IndexError {
    Empty,
    DuplicateAtomicNumber(u8),
    DuplicateSymbol(String),
    DuplicateName(String),
}

/// Elements ordered by atomic number (ties in their input order), with
/// their lower-cased symbols and names for lookup.
#[derive(Debug, Clone, PartialEq, Eq)]
pub struct ElementIndex {
    /// `order[i]` is the input position of the `i`-th element.
    pub order: Vec<usize>,
    /// The atomic numbers, in sorted order.
    pub numbers: Vec<u8>,
    /// The lower-cased symbols, in sorted order.
    pub symbols: Vec<String>,
    /// The lower-cased names, in sorted order.
    pub names: Vec<String>,
}

/// The lower-case form of a string, as `str::to_lowercase` gives it.
pub uninterp spec fn lowercase_of(s: Seq<char>) -> Seq<char>;

/// `str::to_lowercase`: the result is [`lowercase_of`] the argument.
#[verifier::external_body]
fn to_lowercase(s: &str) -> (r: String)
    ensures
        r@ == lowercase_of(s@),
{
    s.to_lowercase()
}

/// Input position `a` orders before `b`: a smaller atomic number, or the
/// same one and an earlier position.
pub open spec fn key_before(keys: Seq<ElementKey>, a: int, b: int) -> bool {
    keys[a].atomic_number < keys[b].atomic_number || (keys[a].atomic_number == keys[b].atomic_number && a < b)
}

/// `order` lists every input position once, in [`key_before`] order.
pub open spec fn sorted_order(keys: Seq<ElementKey>, order: Seq<usize>) -> bool {
    &&& order.len() == keys.len()
    &&& forall|t: int| 0 <= t < order.len() ==> (#[trigger] order[t]) < keys.len()
    &&& forall|t: int, u: int| 0 <= t < u < order.len() ==> key_before(keys, #[trigger] order[t] as int, #[trigger] order[u] as int)
}

/// The element at sorted position `i` repeats an earlier one: by atomic
/// number, lower-cased symbol or lower-cased name.
pub open spec fn repeats_number(keys: Seq<ElementKey>, order: Seq<usize>, i: int) -> bool {
    exists|j: int| 0 <= j < i && #[trigger] keys[order[j] as int].atomic_number == keys[order[i] as int].atomic_number
}

/// The element at sorted position `i` repeats an earlier lower-cased symbol.
pub open spec fn repeats_symbol(keys: Seq<ElementKey>, order: Seq<usize>, i: int) -> bool {
    exists|j: int| 0 <= j < i && lowercase_of(#[trigger] keys[order[j] as int].symbol@) == lowercase_of(keys[order[i] as int].symbol@)
}

/// The element at sorted position `i` repeats an earlier lower-cased name.
pub open spec fn repeats_name(keys: Seq<ElementKey>, order: Seq<usize>, i: int) -> bool {
    exists|j: int| 0 <= j < i && lowercase_of(#[trigger] keys[order[j] as int].name@) == lowercase_of(keys[order[i] as int].name@)
}

/// The element at sorted position `i` repeats an earlier one in any way.
pub open spec fn repeats(keys: Seq<ElementKey>, order: Seq<usize>, i: int) -> bool {
    repeats_number(keys, order, i) || repeats_symbol(keys, order, i) || repeats_name(keys, order, i)
}

/// An index error as plain values.
pub enum IndexErrorModel {
    Empty,
    DuplicateAtomicNumber(u8),
    DuplicateSymbol(Seq<char>),
    DuplicateName(Seq<char>),
}

/// An index error's plain values.
pub open spec fn error_model(e: IndexError) -> IndexErrorModel {
    match e {
        IndexError::Empty => IndexErrorModel::Empty,
        IndexError::DuplicateAtomicNumber(z) => IndexErrorModel::DuplicateAtomicNumber(z),
        IndexError::DuplicateSymbol(s) => IndexErrorModel::DuplicateSymbol(s@),
        IndexError::DuplicateName(s) => IndexErrorModel::DuplicateName(s@),
    }
}

/// The error for the first repeating element at sorted position `i`: its
/// number first, then its symbol, then its name.
pub open spec fn repeat_error(keys: Seq<ElementKey>, order: Seq<usize>, i: int) -> IndexErrorModel {
    let k = keys[order[i] as int];
    if repeats_number(keys, order, i) {
        IndexErrorModel::DuplicateAtomicNumber(k.atomic_number)
    } else if repeats_symbol(keys, order, i) {
        IndexErrorModel::DuplicateSymbol(k.symbol@)
    } else {
        IndexErrorModel::DuplicateName(k.name@)
    }
}

impl ElementIndex {
    /// The index holds the sorted keys, lower-cased.
    pub open spec fn indexes(&self, keys: Seq<ElementKey>) -> bool {
        &&& sorted_order(keys, self.order@)
        &&& self.numbers@.len() == keys.len()
        &&& self.symbols@.len() == keys.len()
        &&& self.names@.len() == keys.len()
        &&& forall|t: int| 0 <= t < keys.len() ==> {
            &&& self.numbers@[t] == keys[#[trigger] self.order@[t] as int].atomic_number
            &&& self.symbols@[t]@ == lowercase_of(keys[self.order@[t] as int].symbol@)
            &&& self.names@[t]@ == lowercase_of(keys[self.order@[t] as int].name@)
        }
    }

    /// The number of elements.
    pub fn len(&self) -> (n: usize)
        ensures
            n == self.order@.len(),
    {
        self.order.len()
    }

    /// Whether the index holds no element.
    pub fn is_empty(&self) -> (b: bool)
        ensures
            b == (self.order@.len() == 0),
    {
        self.order.len() == 0
    }

    /// The sorted position of the element with atomic number `z`.
    pub fn get_by_atomic_number(&self, z: u8) -> (r: Option<usize>)
        requires
            self.numbers@.len() == self.order@.len(),
        ensures
            match r {
                Some(p) => p < self.numbers@.len() && self.numbers@[p as int] == z,
                None => forall|p: int| 0 <= p < self.numbers@.len() ==> self.numbers@[p] != z,
            },
    {
        let mut i: usize = 0;
        while i < self.numbers.len()
            invariant
                i <= self.numbers@.len(),
                forall|p: int| 0 <= p < i ==> self.numbers@[p] != z,
            decreases self.numbers@.len() - i,
        {
            if self.numbers[i] == z {
                return Some(i);
            }
            i = i + 1;
        }
        None
    }

    /// The sorted position of the element whose symbol matches, ignoring case.
    pub fn get_by_symbol(&self, symbol: &str) -> (r: Option<usize>)
        ensures
            match r {
                Some(p) => p < self.symbols@.len() && self.symbols@[p as int]@ == lowercase_of(symbol@),
                None => forall|p: int| 0 <= p < self.symbols@.len() ==> self.symbols@[p]@ != lowercase_of(symbol@),
            },
    {
        let wanted = to_lowercase(symbol);
        find_string(&self.symbols, wanted.as_str())
    }

    /// The sorted position of the element whose name matches, ignoring case.
    pub fn get_by_name(&self, name: &str) -> (r: Option<usize>)
        ensures
            match r {
                Some(p) => p < self.names@.len() && self.names@[p as int]@ == lowercase_of(name@),
                None => forall|p: int| 0 <= p < self.names@.len() ==> self.names@[p]@ != lowercase_of(name@),
            },
    {
        let wanted = to_lowercase(name);
        find_string(&self.names, wanted.as_str())
    }
}

/// The first position holding `s`.
fn find_string(v: &Vec<String>, s: &str) -> (r: Option<usize>)
    ensures
        match r {
            Some(p) => p < v@.len() && v@[p as int]@ == s@,
            None => forall|p: int| 0 <= p < v@.len() ==> v@[p]@ != s@,
        },
{
    let mut i: usize = 0;
    while i < v.len()
        invariant
            i <= v@.len(),
            forall|p: int| 0 <= p < i ==> v@[p]@ != s@,
        decreases v@.len() - i,
    {
        if str_eq(v[i].as_str(), s) {
            return Some(i);
        }
        i = i + 1;
    }
    None
}

/// The positions `0..n` sorted by atomic number, ties in position order
/// (a stable sort by atomic number).
fn sort_positions(keys: &[ElementKey]) -> (order: Vec<usize>)
    ensures
        sorted_order(keys@, order@),
{
    let mut order: Vec<usize> = Vec::new();
    let mut i: usize = 0;
    while i < keys.len()
        invariant
            i <= keys@.len(),
            order@.len() == i,
            forall|t: int| 0 <= t < order@.len() ==> (#[trigger] order@[t]) < i,
            forall|t: int, u: int|
                0 <= t < u < order@.len() ==> key_before(keys@, #[trigger] order@[t] as int, #[trigger] order@[u] as int),
        decreases keys@.len() - i,
    {
        let z = keys[i].atomic_number;
        let mut p: usize = 0;
        while p < order.len() && keys[order[p]].atomic_number <= z
            invariant
                p <= order@.len(),
                order@.len() == i,
                i < keys@.len(),
                z == keys@[i as int].atomic_number,
                forall|t: int| 0 <= t < order@.len() ==> (#[trigger] order@[t]) < i,
                forall|t: int| 0 <= t < p ==> keys@[#[trigger] order@[t] as int].atomic_number <= z,
            decreases order@.len() - p,
        {
            p = p + 1;
        }
        let ghost before = order@;
        proof {
            // Everything after the slot orders after the new position.
            assert forall|t: int| p <= t < before.len() implies keys@[#[trigger] before[t] as int].atomic_number > z by {
                if p < before.len() {
                    assert(keys@[before[p as int] as int].atomic_number > z);
                    if t > p {
                        assert(key_before(keys@, before[p as int] as int, before[t] as int));
                    }
                }
            }
        }
        order.insert(p, i);
        proof {
            assert forall|t: int, u: int|
                0 <= t < u < order@.len() implies key_before(keys@, #[trigger] order@[t] as int, #[trigger] order@[u] as int) by {
                if u < p {
                    assert(order@[t] == before[t] && order@[u] == before[u]);
                } else if u == p {
                    assert(order@[t] == before[t]);
                    assert(before[t] < i);
                } else if t == p {
                    assert(order@[u] == before[u - 1]);
                } else if t < p {
                    assert(order@[t] == before[t] && order@[u] == before[u - 1]);
                } else {
                    assert(order@[t] == before[t - 1] && order@[u] == before[u - 1]);
                }
            }
            assert forall|t: int| 0 <= t < order@.len() implies (#[trigger] order@[t]) < i + 1 by {
                if t < p {
                    assert(order@[t] == before[t]);
                } else if t > p {
                    assert(order@[t] == before[t - 1]);
                }
            }
        }
        i = i + 1;
    }
    order
}

/// Sort the elements by atomic number and index them, refusing an empty set
/// and any element that repeats an earlier one's atomic number, symbol or
/// name (ignoring case), checked in that order element by element.
pub fn build_index(keys: &[ElementKey]) -> (r: Result<ElementIndex, IndexError>)
    ensures
        keys@.len() == 0 ==> r == Err::<ElementIndex, IndexError>(IndexError::Empty),
        r matches Ok(idx) ==> idx.indexes(keys@) && forall|i: int| 0 <= i < keys@.len() ==> !repeats(keys@, idx.order@, i),
        r matches Err(e) ==> keys@.len() == 0 || exists|order: Seq<usize>, i: int|
            sorted_order(keys@, order) && 0 <= i < keys@.len() && repeats(keys@, order, i) && (forall|j: int| 0 <= j < i ==> !repeats(keys@, order, j))
                && error_model(e) == repeat_error(keys@, order, i),
{
    if keys.len() == 0 {
        return Err(IndexError::Empty);
    }
    let order = sort_positions(keys);
    let mut numbers: Vec<u8> = Vec::new();
    let mut symbols: Vec<String> = Vec::new();
    let mut names: Vec<String> = Vec::new();
    let mut i: usize = 0;
    while i < order.len()
        invariant
            sorted_order(keys@, order@),
            i <= order@.len(),
            numbers@.len() == i,
            symbols@.len() == i,
            names@.len() == i,
            forall|t: int| 0 <= t < i ==> {
                &&& numbers@[t] == keys@[#[trigger] order@[t] as int].atomic_number
                &&& symbols@[t]@ == lowercase_of(keys@[order@[t] as int].symbol@)
                &&& names@[t]@ == lowercase_of(keys@[order@[t] as int].name@)
            },
            forall|j: int| 0 <= j < i ==> !repeats(keys@, order@, j),
        decreases order@.len() - i,
    {
        let k = &keys[order[i]];
        let sym = to_lowercase(k.symbol.as_str());
        let name = to_lowercase(k.name.as_str());
        let mut j: usize = 0;
        let mut dup_number = false;
        let mut dup_symbol = false;
        let mut dup_name = false;
        while j < i
            invariant
                i < order@.len(),
                j <= i,
                numbers@.len() == i,
                symbols@.len() == i,
                names@.len() == i,
                sorted_order(keys@, order@),
                k == keys@[order@[i as int] as int],
                sym@ == lowercase_of(k.symbol@),
                name@ == lowercase_of(k.name@),
                forall|t: int| 0 <= t < i ==> {
                    &&& numbers@[t] == keys@[#[trigger] order@[t] as int].atomic_number
                    &&& symbols@[t]@ == lowercase_of(keys@[order@[t] as int].symbol@)
                    &&& names@[t]@ == lowercase_of(keys@[order@[t] as int].name@)
                },
                dup_number == exists|t: int| 0 <= t < j && #[trigger] keys@[order@[t] as int].atomic_number == k.atomic_number,
                dup_symbol == exists|t: int| 0 <= t < j && lowercase_of(#[trigger] keys@[order@[t] as int].symbol@) == sym@,
                dup_name == exists|t: int| 0 <= t < j && lowercase_of(#[trigger] keys@[order@[t] as int].name@) == name@,
            decreases i - j,
        {
            assert(numbers@[j as int] == keys@[order@[j as int] as int].atomic_number);
            if numbers[j] == k.atomic_number {
                dup_number = true;
            }
            if str_eq(symbols[j].as_str(), sym.as_str()) {
                dup_symbol = true;
            }
            if str_eq(names[j].as_str(), name.as_str()) {
                dup_name = true;
            }
            j = j + 1;
        }
        if dup_number || dup_symbol || dup_name {
            let e = if dup_number {
                IndexError::DuplicateAtomicNumber(k.atomic_number)
            } else if dup_symbol {
                IndexError::DuplicateSymbol(k.symbol.clone())
            } else {
                IndexError::DuplicateName(k.name.clone())
            };
            proof {
                assert(repeats(keys@, order@, i as int));
                assert(error_model(e) == repeat_error(keys@, order@, i as int));
                assert(sorted_order(keys@, order@) && 0 <= i < keys@.len() && repeats(keys@, order@, i as int)
                    && (forall|j: int| 0 <= j < i ==> !repeats(keys@, order@, j))
                    && error_model(e) == repeat_error(keys@, order@, i as int));
            }
            return Err(e);
        }
        numbers.push(k.atomic_number);
        symbols.push(sym);
        names.push(name);
        i = i + 1;
    }
    Ok(ElementIndex { order, numbers, symbols, names })
}

/// The physical state named by `"solid"`, `"liquid"` or `"gas"`.
pub fn parse_state(s: &str) -> (r: Option<StateOfMatter>)
    ensures
        r == (if s@ == "solid"@ {
            Some(StateOfMatter::Solid)
        } else if s@ == "liquid"@ {
            Some(StateOfMatter::Liquid)
        } else if s@ == "gas"@ {
            Some(StateOfMatter::Gas)
        } else {
            None::<StateOfMatter>
        }),
{
    if str_eq(s, "solid") {
        Some(StateOfMatter::Solid)
    } else if str_eq(s, "liquid") {
        Some(StateOfMatter::Liquid)
    } else if str_eq(s, "gas") {
        Some(StateOfMatter::Gas)
    } else {
        None
    }
}

/// `"atomic_number {z} out of range 1..=118"`.
pub fn atomic_number_message(z: u8) -> (s: String)
    ensures
        s@ == "atomic_number "@ + decimal(z as nat) + " out of range 1..=118"@,
{
    let mut t = chars_of("atomic_number ");
    extend_chars(&mut t, &decimal_chars(z as u64));
    extend_chars(&mut t, &chars_of(" out of range 1..=118"));
    string_of(&t)
}

/// The validation message for an atomic number outside `1..=118`, or `None`
/// for one inside it.
pub fn atomic_number_error(z: u8) -> (r: Option<String>)
    ensures
        r is None <==> 1 <= z <= 118,
        r matches Some(m) ==> m@ == "atomic_number "@ + decimal(z as nat) + " out of range 1..=118"@,
{
    if 1 <= z && z <= 118 {
        None
    } else {
        Some(atomic_number_message(z))
    }
}

/// `"unknown state: {s}"`.
pub fn unknown_state_message(s: &str) -> (m: String)
    ensures
        m@ == "unknown state: "@ + s@,
{
    let mut t = chars_of("unknown state: ");
    extend_chars(&mut t, &chars_of(s));
    string_of(&t)
}

} // verus!
