//! Metal and halogen activity series, and single-displacement outranking.
use crate::text::str_eq;
use vstd::prelude::*;

verus! {

/// Metal reactivity, most reactive first (standard school activity series, H included).
pub open spec fn metal_series() -> Seq<Seq<char>> {
    seq![
        "K", "Na", "Li", "Ca", "Mg", "Al", "Zn", "Fe", "Ni", "Sn", "Pb", "H", "Cu", "Ag", "Hg", "Au"
    ].map_values(|s: &str| s@)
}

/// Halogen reactivity, most reactive first.
pub open spec fn halogen_series() -> Seq<Seq<char>> {
    seq!["F", "Cl", "Br", "I"].map_values(|s: &str| s@)
}

/// Metal reactivity, most reactive first (standard school activity series, H included).
pub fn metal_activity_series() -> (v: Vec<&'static str>)
    ensures
        v@.map_values(|s: &str| s@) == metal_series(),
{
    vec!["K", "Na", "Li", "Ca", "Mg", "Al", "Zn", "Fe", "Ni", "Sn", "Pb", "H", "Cu", "Ag", "Hg", "Au"]
}

/// Halogen reactivity, most reactive first.
pub fn halogen_activity_series() -> (v: Vec<&'static str>)
    ensures
        v@.map_values(|s: &str| s@) == halogen_series(),
{
    vec!["F", "Cl", "Br", "I"]
}

/// Index of the first entry of `series` equal to `s`.
pub open spec fn rank_in(series: Seq<Seq<char>>, s: Seq<char>) -> Option<int>
    decreases series.len(),
{
    if series.len() == 0 {
        None
    } else if series[0] == s {
        Some(0)
    } else {
        match rank_in(series.drop_first(), s) {
            Some(i) => Some(i + 1),
            None => None,
        }
    }
}

/// `Some(true)` when `free` stands above `bound` in the first series holding
/// both, `Some(false)` when it does not, `None` when no series holds both.
pub open spec fn displaces_of(free: Seq<char>, bound: Seq<char>) -> Option<bool> {
    match (rank_in(metal_series(), free), rank_in(metal_series(), bound)) {
        (Some(f), Some(b)) => Some(f < b),
        _ => match (rank_in(halogen_series(), free), rank_in(halogen_series(), bound)) {
            (Some(f), Some(b)) => Some(f < b),
            _ => None,
        },
    }
}

fn position(series: &Vec<&'static str>, s: &str) -> (r: Option<usize>)
    ensures
        r matches Some(i) ==> rank_in(series@.map_values(|x: &str| x@), s@) == Some(i as int),
        r is None ==> rank_in(series@.map_values(|x: &str| x@), s@) is None,
{
    let ghost names = series@.map_values(|x: &str| x@);
    let mut i: usize = 0;
    assert(names.subrange(0, names.len() as int) =~= names);
    while i < series.len()
        invariant
            i <= series.len(),
            names == series@.map_values(|x: &str| x@),
            rank_in(names, s@) == (match rank_in(names.subrange(i as int, names.len() as int), s@) {
                Some(k) => Some(k + i),
                None => None::<int>,
            }),
        decreases series.len() - i,
    {
        assert(names.subrange(i as int, names.len() as int).drop_first() =~= names.subrange(
            i + 1,
            names.len() as int,
        ));
        if str_eq(series[i], s) {
            assert(names.subrange(i as int, names.len() as int)[0] == s@);
            return Some(i);
        }
        i = i + 1;
    }
    None
}

/// `Some(true)` when `free` can displace `bound` from a compound: `free` is
/// higher (more reactive) in a shared series. `Some(false)` when both are in
/// a shared series but `free` does not outrank `bound` (including the same
/// element). `None` when the two share no series.
pub fn displaces(free: &str, bound: &str) -> (r: Option<bool>)
    ensures
        r == displaces_of(free@, bound@),
{
    let metals = metal_activity_series();
    let f = position(&metals, free);
    let b = position(&metals, bound);
    if let (Some(f), Some(b)) = (f, b) {
        return Some(f < b);
    }
    let halogens = halogen_activity_series();
    let f = position(&halogens, free);
    let b = position(&halogens, bound);
    if let (Some(f), Some(b)) = (f, b) {
        return Some(f < b);
    }
    None
}

proof fn lemma_rank_in_found(series: Seq<Seq<char>>, s: Seq<char>)
    ensures
        rank_in(series, s) matches Some(i) ==> 0 <= i < series.len() && series[i] == s,
    decreases series.len(),
{
    if series.len() > 0 && series[0] != s {
        lemma_rank_in_found(series.drop_first(), s);
    }
}

/// Displacement is one-way: if `a` displaces `b`, then `b` does not displace
/// `a`; and no element displaces itself. The outcome is defined for both
/// orders or for neither, and for two different elements it flips with the
/// order.
pub proof fn law_displacement_antisymmetric(a: Seq<char>, b: Seq<char>)
    ensures
        displaces_of(a, b) == Some(true) ==> displaces_of(b, a) == Some(false),
        displaces_of(a, a) != Some(true),
        displaces_of(a, b) is Some <==> displaces_of(b, a) is Some,
        a != b ==> (displaces_of(a, b) matches Some(x) ==> displaces_of(b, a) == Some(!x)),
{
    lemma_rank_in_found(metal_series(), a);
    lemma_rank_in_found(metal_series(), b);
    lemma_rank_in_found(halogen_series(), a);
    lemma_rank_in_found(halogen_series(), b);
}

proof fn lemma_rank_in_first(series: Seq<Seq<char>>, i: int)
    requires
        0 <= i < series.len(),
        forall|k: int| 0 <= k < i ==> #[trigger] series[k] != series[i],
    ensures
        rank_in(series, series[i]) == Some(i),
    decreases i,
{
    if i > 0 {
        let t = series.drop_first();
        assert(t[i - 1] == series[i]);
        assert forall|k: int| 0 <= k < i - 1 implies #[trigger] t[k] != t[i - 1] by {
            assert(t[k] == series[k + 1]);
        }
        lemma_rank_in_first(t, i - 1);
        assert(series[0] != series[i]);
    }
}

/// The metal activity series, most reactive first: K, Na, Li, Ca, Mg, Al, Zn,
/// Fe, Ni, Sn, Pb, H, Cu, Ag, Hg, Au. Of any two of them, the free one
/// displaces the bound one exactly when it comes earlier in this order (so
/// copper displaces silver, and hydrogen displaces copper); none displaces
/// itself.
pub proof fn law_metal_activity_order()
    ensures
        ({
            let order = seq!["K"@, "Na"@, "Li"@, "Ca"@, "Mg"@, "Al"@, "Zn"@, "Fe"@, "Ni"@, "Sn"@, "Pb"@, "H"@, "Cu"@, "Ag"@, "Hg"@, "Au"@];
            forall|i: int, j: int|
                0 <= i < order.len() && 0 <= j < order.len() ==> displaces_of(
                    #[trigger] order[i],
                    #[trigger] order[j],
                ) == Some(i < j)
        }),
{
    let order = seq!["K"@, "Na"@, "Li"@, "Ca"@, "Mg"@, "Al"@, "Zn"@, "Fe"@, "Ni"@, "Sn"@, "Pb"@, "H"@, "Cu"@, "Ag"@, "Hg"@, "Au"@];
    reveal_strlit("K");
    reveal_strlit("Na");
    reveal_strlit("Li");
    reveal_strlit("Ca");
    reveal_strlit("Mg");
    reveal_strlit("Al");
    reveal_strlit("Zn");
    reveal_strlit("Fe");
    reveal_strlit("Ni");
    reveal_strlit("Sn");
    reveal_strlit("Pb");
    reveal_strlit("H");
    reveal_strlit("Cu");
    reveal_strlit("Ag");
    reveal_strlit("Hg");
    reveal_strlit("Au");

    assert(metal_series() =~= order);
    lemma_rank_in_first(metal_series(), 0);
    assert(rank_in(metal_series(), order[1]) == Some(1int)) by {
        assert forall|k: int| 0 <= k < 1 implies #[trigger] metal_series()[k] != metal_series()[1] by {
            if k == 0 {
                assert(order[0].len() != order[1].len());
            }
        }
        lemma_rank_in_first(metal_series(), 1);
    }
    assert(rank_in(metal_series(), order[2]) == Some(2int)) by {
        assert forall|k: int| 0 <= k < 2 implies #[trigger] metal_series()[k] != metal_series()[2] by {
            if k == 0 {
                assert(order[0].len() != order[2].len());
            } else if k == 1 {
                assert(order[1][0] != order[2][0]);
            }
        }
        lemma_rank_in_first(metal_series(), 2);
    }
    assert(rank_in(metal_series(), order[3]) == Some(3int)) by {
        assert forall|k: int| 0 <= k < 3 implies #[trigger] metal_series()[k] != metal_series()[3] by {
            if k == 0 {
                assert(order[0].len() != order[3].len());
            } else if k == 1 {
                assert(order[1][0] != order[3][0]);
            } else if k == 2 {
                assert(order[2][0] != order[3][0]);
            }
        }
        lemma_rank_in_first(metal_series(), 3);
    }
    assert(rank_in(metal_series(), order[4]) == Some(4int)) by {
        assert forall|k: int| 0 <= k < 4 implies #[trigger] metal_series()[k] != metal_series()[4] by {
            if k == 0 {
                assert(order[0].len() != order[4].len());
            } else if k == 1 {
                assert(order[1][0] != order[4][0]);
            } else if k == 2 {
                assert(order[2][0] != order[4][0]);
            } else if k == 3 {
                assert(order[3][0] != order[4][0]);
            }
        }
        lemma_rank_in_first(metal_series(), 4);
    }
    assert(rank_in(metal_series(), order[5]) == Some(5int)) by {
        assert forall|k: int| 0 <= k < 5 implies #[trigger] metal_series()[k] != metal_series()[5] by {
            if k == 0 {
                assert(order[0].len() != order[5].len());
            } else if k == 1 {
                assert(order[1][0] != order[5][0]);
            } else if k == 2 {
                assert(order[2][0] != order[5][0]);
            } else if k == 3 {
                assert(order[3][0] != order[5][0]);
            } else if k == 4 {
                assert(order[4][0] != order[5][0]);
            }
        }
        lemma_rank_in_first(metal_series(), 5);
    }
    assert(rank_in(metal_series(), order[6]) == Some(6int)) by {
        assert forall|k: int| 0 <= k < 6 implies #[trigger] metal_series()[k] != metal_series()[6] by {
            if k == 0 {
                assert(order[0].len() != order[6].len());
            } else if k == 1 {
                assert(order[1][0] != order[6][0]);
            } else if k == 2 {
                assert(order[2][0] != order[6][0]);
            } else if k == 3 {
                assert(order[3][0] != order[6][0]);
            } else if k == 4 {
                assert(order[4][0] != order[6][0]);
            } else if k == 5 {
                assert(order[5][0] != order[6][0]);
            }
        }
        lemma_rank_in_first(metal_series(), 6);
    }
    assert(rank_in(metal_series(), order[7]) == Some(7int)) by {
        assert forall|k: int| 0 <= k < 7 implies #[trigger] metal_series()[k] != metal_series()[7] by {
            if k == 0 {
                assert(order[0].len() != order[7].len());
            } else if k == 1 {
                assert(order[1][0] != order[7][0]);
            } else if k == 2 {
                assert(order[2][0] != order[7][0]);
            } else if k == 3 {
                assert(order[3][0] != order[7][0]);
            } else if k == 4 {
                assert(order[4][0] != order[7][0]);
            } else if k == 5 {
                assert(order[5][0] != order[7][0]);
            } else if k == 6 {
                assert(order[6][0] != order[7][0]);
            }
        }
        lemma_rank_in_first(metal_series(), 7);
    }
    assert(rank_in(metal_series(), order[8]) == Some(8int)) by {
        assert forall|k: int| 0 <= k < 8 implies #[trigger] metal_series()[k] != metal_series()[8] by {
            if k == 0 {
                assert(order[0].len() != order[8].len());
            } else if k == 1 {
                assert(order[1][1] != order[8][1]);
            } else if k == 2 {
                assert(order[2][0] != order[8][0]);
            } else if k == 3 {
                assert(order[3][0] != order[8][0]);
            } else if k == 4 {
                assert(order[4][0] != order[8][0]);
            } else if k == 5 {
                assert(order[5][0] != order[8][0]);
            } else if k == 6 {
                assert(order[6][0] != order[8][0]);
            } else if k == 7 {
                assert(order[7][0] != order[8][0]);
            }
        }
        lemma_rank_in_first(metal_series(), 8);
    }
    assert(rank_in(metal_series(), order[9]) == Some(9int)) by {
        assert forall|k: int| 0 <= k < 9 implies #[trigger] metal_series()[k] != metal_series()[9] by {
            if k == 0 {
                assert(order[0].len() != order[9].len());
            } else if k == 1 {
                assert(order[1][0] != order[9][0]);
            } else if k == 2 {
                assert(order[2][0] != order[9][0]);
            } else if k == 3 {
                assert(order[3][0] != order[9][0]);
            } else if k == 4 {
                assert(order[4][0] != order[9][0]);
            } else if k == 5 {
                assert(order[5][0] != order[9][0]);
            } else if k == 6 {
                assert(order[6][0] != order[9][0]);
            } else if k == 7 {
                assert(order[7][0] != order[9][0]);
            } else if k == 8 {
                assert(order[8][0] != order[9][0]);
            }
        }
        lemma_rank_in_first(metal_series(), 9);
    }
    assert(rank_in(metal_series(), order[10]) == Some(10int)) by {
        assert forall|k: int| 0 <= k < 10 implies #[trigger] metal_series()[k] != metal_series()[10] by {
            if k == 0 {
                assert(order[0].len() != order[10].len());
            } else if k == 1 {
                assert(order[1][0] != order[10][0]);
            } else if k == 2 {
                assert(order[2][0] != order[10][0]);
            } else if k == 3 {
                assert(order[3][0] != order[10][0]);
            } else if k == 4 {
                assert(order[4][0] != order[10][0]);
            } else if k == 5 {
                assert(order[5][0] != order[10][0]);
            } else if k == 6 {
                assert(order[6][0] != order[10][0]);
            } else if k == 7 {
                assert(order[7][0] != order[10][0]);
            } else if k == 8 {
                assert(order[8][0] != order[10][0]);
            } else if k == 9 {
                assert(order[9][0] != order[10][0]);
            }
        }
        lemma_rank_in_first(metal_series(), 10);
    }
    assert(rank_in(metal_series(), order[11]) == Some(11int)) by {
        assert forall|k: int| 0 <= k < 11 implies #[trigger] metal_series()[k] != metal_series()[11] by {
            if k == 0 {
                assert(order[0][0] != order[11][0]);
            } else if k == 1 {
                assert(order[1].len() != order[11].len());
            } else if k == 2 {
                assert(order[2].len() != order[11].len());
            } else if k == 3 {
                assert(order[3].len() != order[11].len());
            } else if k == 4 {
                assert(order[4].len() != order[11].len());
            } else if k == 5 {
                assert(order[5].len() != order[11].len());
            } else if k == 6 {
                assert(order[6].len() != order[11].len());
            } else if k == 7 {
                assert(order[7].len() != order[11].len());
            } else if k == 8 {
                assert(order[8].len() != order[11].len());
            } else if k == 9 {
                assert(order[9].len() != order[11].len());
            } else if k == 10 {
                assert(order[10].len() != order[11].len());
            }
        }
        lemma_rank_in_first(metal_series(), 11);
    }
    assert(rank_in(metal_series(), order[12]) == Some(12int)) by {
        assert forall|k: int| 0 <= k < 12 implies #[trigger] metal_series()[k] != metal_series()[12] by {
            if k == 0 {
                assert(order[0].len() != order[12].len());
            } else if k == 1 {
                assert(order[1][0] != order[12][0]);
            } else if k == 2 {
                assert(order[2][0] != order[12][0]);
            } else if k == 3 {
                assert(order[3][1] != order[12][1]);
            } else if k == 4 {
                assert(order[4][0] != order[12][0]);
            } else if k == 5 {
                assert(order[5][0] != order[12][0]);
            } else if k == 6 {
                assert(order[6][0] != order[12][0]);
            } else if k == 7 {
                assert(order[7][0] != order[12][0]);
            } else if k == 8 {
                assert(order[8][0] != order[12][0]);
            } else if k == 9 {
                assert(order[9][0] != order[12][0]);
            } else if k == 10 {
                assert(order[10][0] != order[12][0]);
            } else if k == 11 {
                assert(order[11].len() != order[12].len());
            }
        }
        lemma_rank_in_first(metal_series(), 12);
    }
    assert(rank_in(metal_series(), order[13]) == Some(13int)) by {
        assert forall|k: int| 0 <= k < 13 implies #[trigger] metal_series()[k] != metal_series()[13] by {
            if k == 0 {
                assert(order[0].len() != order[13].len());
            } else if k == 1 {
                assert(order[1][0] != order[13][0]);
            } else if k == 2 {
                assert(order[2][0] != order[13][0]);
            } else if k == 3 {
                assert(order[3][0] != order[13][0]);
            } else if k == 4 {
                assert(order[4][0] != order[13][0]);
            } else if k == 5 {
                assert(order[5][1] != order[13][1]);
            } else if k == 6 {
                assert(order[6][0] != order[13][0]);
            } else if k == 7 {
                assert(order[7][0] != order[13][0]);
            } else if k == 8 {
                assert(order[8][0] != order[13][0]);
            } else if k == 9 {
                assert(order[9][0] != order[13][0]);
            } else if k == 10 {
                assert(order[10][0] != order[13][0]);
            } else if k == 11 {
                assert(order[11].len() != order[13].len());
            } else if k == 12 {
                assert(order[12][0] != order[13][0]);
            }
        }
        lemma_rank_in_first(metal_series(), 13);
    }
    assert(rank_in(metal_series(), order[14]) == Some(14int)) by {
        assert forall|k: int| 0 <= k < 14 implies #[trigger] metal_series()[k] != metal_series()[14] by {
            if k == 0 {
                assert(order[0].len() != order[14].len());
            } else if k == 1 {
                assert(order[1][0] != order[14][0]);
            } else if k == 2 {
                assert(order[2][0] != order[14][0]);
            } else if k == 3 {
                assert(order[3][0] != order[14][0]);
            } else if k == 4 {
                assert(order[4][0] != order[14][0]);
            } else if k == 5 {
                assert(order[5][0] != order[14][0]);
            } else if k == 6 {
                assert(order[6][0] != order[14][0]);
            } else if k == 7 {
                assert(order[7][0] != order[14][0]);
            } else if k == 8 {
                assert(order[8][0] != order[14][0]);
            } else if k == 9 {
                assert(order[9][0] != order[14][0]);
            } else if k == 10 {
                assert(order[10][0] != order[14][0]);
            } else if k == 11 {
                assert(order[11].len() != order[14].len());
            } else if k == 12 {
                assert(order[12][0] != order[14][0]);
            } else if k == 13 {
                assert(order[13][0] != order[14][0]);
            }
        }
        lemma_rank_in_first(metal_series(), 14);
    }
    assert(rank_in(metal_series(), order[15]) == Some(15int)) by {
        assert forall|k: int| 0 <= k < 15 implies #[trigger] metal_series()[k] != metal_series()[15] by {
            if k == 0 {
                assert(order[0].len() != order[15].len());
            } else if k == 1 {
                assert(order[1][0] != order[15][0]);
            } else if k == 2 {
                assert(order[2][0] != order[15][0]);
            } else if k == 3 {
                assert(order[3][0] != order[15][0]);
            } else if k == 4 {
                assert(order[4][0] != order[15][0]);
            } else if k == 5 {
                assert(order[5][1] != order[15][1]);
            } else if k == 6 {
                assert(order[6][0] != order[15][0]);
            } else if k == 7 {
                assert(order[7][0] != order[15][0]);
            } else if k == 8 {
                assert(order[8][0] != order[15][0]);
            } else if k == 9 {
                assert(order[9][0] != order[15][0]);
            } else if k == 10 {
                assert(order[10][0] != order[15][0]);
            } else if k == 11 {
                assert(order[11].len() != order[15].len());
            } else if k == 12 {
                assert(order[12][0] != order[15][0]);
            } else if k == 13 {
                assert(order[13][1] != order[15][1]);
            } else if k == 14 {
                assert(order[14][0] != order[15][0]);
            }
        }
        lemma_rank_in_first(metal_series(), 15);
    }
}

/// The halogen series, most reactive first: F, Cl, Br, I. None of them is a
/// metal of the activity series, and of any two of them the free halogen
/// displaces the bound one exactly when it comes earlier in this order.
pub proof fn law_halogen_activity_order()
    ensures
        ({
            let order = seq!["F"@, "Cl"@, "Br"@, "I"@];
            forall|i: int, j: int|
                0 <= i < order.len() && 0 <= j < order.len() ==> displaces_of(
                    #[trigger] order[i],
                    #[trigger] order[j],
                ) == Some(i < j)
        }),
{
    let order = seq!["F"@, "Cl"@, "Br"@, "I"@];
    reveal_strlit("F");
    reveal_strlit("Cl");
    reveal_strlit("Br");
    reveal_strlit("I");
    reveal_strlit("K");
    reveal_strlit("Na");
    reveal_strlit("Li");
    reveal_strlit("Ca");
    reveal_strlit("Mg");
    reveal_strlit("Al");
    reveal_strlit("Zn");
    reveal_strlit("Fe");
    reveal_strlit("Ni");
    reveal_strlit("Sn");
    reveal_strlit("Pb");
    reveal_strlit("H");
    reveal_strlit("Cu");
    reveal_strlit("Ag");
    reveal_strlit("Hg");
    reveal_strlit("Au");
    assert(halogen_series() =~= order);
    lemma_rank_in_first(halogen_series(), 0);
    assert(rank_in(halogen_series(), order[1]) == Some(1int)) by {
        assert forall|k: int| 0 <= k < 1 implies #[trigger] halogen_series()[k] != halogen_series()[1] by {
            if k == 0 {
                assert(order[0].len() != order[1].len());
            }
        }
        lemma_rank_in_first(halogen_series(), 1);
    }
    assert(rank_in(halogen_series(), order[2]) == Some(2int)) by {
        assert forall|k: int| 0 <= k < 2 implies #[trigger] halogen_series()[k] != halogen_series()[2] by {
            if k == 0 {
                assert(order[0].len() != order[2].len());
            } else if k == 1 {
                assert(order[1][0] != order[2][0]);
            }
        }
        lemma_rank_in_first(halogen_series(), 2);
    }
    assert(rank_in(halogen_series(), order[3]) == Some(3int)) by {
        assert forall|k: int| 0 <= k < 3 implies #[trigger] halogen_series()[k] != halogen_series()[3] by {
            if k == 0 {
                assert(order[0][0] != order[3][0]);
            } else if k == 1 {
                assert(order[1].len() != order[3].len());
            } else if k == 2 {
                assert(order[2].len() != order[3].len());
            }
        }
        lemma_rank_in_first(halogen_series(), 3);
    }
    let metals = seq!["K"@, "Na"@, "Li"@, "Ca"@, "Mg"@, "Al"@, "Zn"@, "Fe"@, "Ni"@, "Sn"@, "Pb"@, "H"@, "Cu"@, "Ag"@, "Hg"@, "Au"@];
    assert(metal_series() =~= metals);
    assert forall|i: int| 0 <= i < 4 implies rank_in(metal_series(), #[trigger] order[i]) is None by {
        lemma_rank_in_found(metal_series(), order[i]);
        if let Some(r) = rank_in(metal_series(), order[i]) {
            assert(metals[r] == order[i]);
            if i == 0 {
                if r == 0 {
                    assert(metals[0][0] != order[0][0]);
                } else if r == 1 {
                    assert(metals[1].len() != order[0].len());
                } else if r == 2 {
                    assert(metals[2].len() != order[0].len());
                } else if r == 3 {
                    assert(metals[3].len() != order[0].len());
                } else if r == 4 {
                    assert(metals[4].len() != order[0].len());
                } else if r == 5 {
                    assert(metals[5].len() != order[0].len());
                } else if r == 6 {
                    assert(metals[6].len() != order[0].len());
                } else if r == 7 {
                    assert(metals[7].len() != order[0].len());
                } else if r == 8 {
                    assert(metals[8].len() != order[0].len());
                } else if r == 9 {
                    assert(metals[9].len() != order[0].len());
                } else if r == 10 {
                    assert(metals[10].len() != order[0].len());
                } else if r == 11 {
                    assert(metals[11][0] != order[0][0]);
                } else if r == 12 {
                    assert(metals[12].len() != order[0].len());
                } else if r == 13 {
                    assert(metals[13].len() != order[0].len());
                } else if r == 14 {
                    assert(metals[14].len() != order[0].len());
                } else if r == 15 {
                    assert(metals[15].len() != order[0].len());
                }
            } else if i == 1 {
                if r == 0 {
                    assert(metals[0].len() != order[1].len());
                } else if r == 1 {
                    assert(metals[1][0] != order[1][0]);
                } else if r == 2 {
                    assert(metals[2][0] != order[1][0]);
                } else if r == 3 {
                    assert(metals[3][1] != order[1][1]);
                } else if r == 4 {
                    assert(metals[4][0] != order[1][0]);
                } else if r == 5 {
                    assert(metals[5][0] != order[1][0]);
                } else if r == 6 {
                    assert(metals[6][0] != order[1][0]);
                } else if r == 7 {
                    assert(metals[7][0] != order[1][0]);
                } else if r == 8 {
                    assert(metals[8][0] != order[1][0]);
                } else if r == 9 {
                    assert(metals[9][0] != order[1][0]);
                } else if r == 10 {
                    assert(metals[10][0] != order[1][0]);
                } else if r == 11 {
                    assert(metals[11].len() != order[1].len());
                } else if r == 12 {
                    assert(metals[12][1] != order[1][1]);
                } else if r == 13 {
                    assert(metals[13][0] != order[1][0]);
                } else if r == 14 {
                    assert(metals[14][0] != order[1][0]);
                } else if r == 15 {
                    assert(metals[15][0] != order[1][0]);
                }
            } else if i == 2 {
                if r == 0 {
                    assert(metals[0].len() != order[2].len());
                } else if r == 1 {
                    assert(metals[1][0] != order[2][0]);
                } else if r == 2 {
                    assert(metals[2][0] != order[2][0]);
                } else if r == 3 {
                    assert(metals[3][0] != order[2][0]);
                } else if r == 4 {
                    assert(metals[4][0] != order[2][0]);
                } else if r == 5 {
                    assert(metals[5][0] != order[2][0]);
                } else if r == 6 {
                    assert(metals[6][0] != order[2][0]);
                } else if r == 7 {
                    assert(metals[7][0] != order[2][0]);
                } else if r == 8 {
                    assert(metals[8][0] != order[2][0]);
                } else if r == 9 {
                    assert(metals[9][0] != order[2][0]);
                } else if r == 10 {
                    assert(metals[10][0] != order[2][0]);
                } else if r == 11 {
                    assert(metals[11].len() != order[2].len());
                } else if r == 12 {
                    assert(metals[12][0] != order[2][0]);
                } else if r == 13 {
                    assert(metals[13][0] != order[2][0]);
                } else if r == 14 {
                    assert(metals[14][0] != order[2][0]);
                } else if r == 15 {
                    assert(metals[15][0] != order[2][0]);
                }
            } else if i == 3 {
                if r == 0 {
                    assert(metals[0][0] != order[3][0]);
                } else if r == 1 {
                    assert(metals[1].len() != order[3].len());
                } else if r == 2 {
                    assert(metals[2].len() != order[3].len());
                } else if r == 3 {
                    assert(metals[3].len() != order[3].len());
                } else if r == 4 {
                    assert(metals[4].len() != order[3].len());
                } else if r == 5 {
                    assert(metals[5].len() != order[3].len());
                } else if r == 6 {
                    assert(metals[6].len() != order[3].len());
                } else if r == 7 {
                    assert(metals[7].len() != order[3].len());
                } else if r == 8 {
                    assert(metals[8].len() != order[3].len());
                } else if r == 9 {
                    assert(metals[9].len() != order[3].len());
                } else if r == 10 {
                    assert(metals[10].len() != order[3].len());
                } else if r == 11 {
                    assert(metals[11][0] != order[3][0]);
                } else if r == 12 {
                    assert(metals[12].len() != order[3].len());
                } else if r == 13 {
                    assert(metals[13].len() != order[3].len());
                } else if r == 14 {
                    assert(metals[14].len() != order[3].len());
                } else if r == 15 {
                    assert(metals[15].len() != order[3].len());
                }
            }
        }
    }
}

} // verus!
