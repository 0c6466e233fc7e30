//! Rows of exact rationals dotted with integer vectors: the dot product as a
//! numerator over a positive denominator, and how scaling a row or adding
//! two rows changes it.
use crate::fraction::Fraction;
use vstd::prelude::*;

verus! {

/// The common denominator of the first `k` entries of `row`.
pub open spec fn dot_den(row: Seq<Fraction>, k: int) -> int
    decreases k,
{
    if k <= 0 {
        1
    } else {
        dot_den(row, k - 1) * row[k - 1].den
    }
}

/// The numerator of `Σ row[j] · x[j]` over the first `k` entries, over
/// [`dot_den`].
pub open spec fn dot_num(row: Seq<Fraction>, x: Seq<int>, k: int) -> int
    decreases k,
{
    if k <= 0 {
        0
    } else {
        dot_num(row, x, k - 1) * row[k - 1].den + row[k - 1].num * x[k - 1] * dot_den(row, k - 1)
    }
}

/// Every entry has a positive denominator.
pub open spec fn dens_pos(row: Seq<Fraction>) -> bool {
    forall|j: int| 0 <= j < row.len() ==> #[trigger] row[j].den > 0
}

/// The row dotted with `x` is zero.
pub open spec fn row_zero(row: Seq<Fraction>, x: Seq<int>) -> bool {
    dot_num(row, x, row.len() as int) == 0
}

pub proof fn lemma_dot_den_pos(row: Seq<Fraction>, k: int)
    requires
        dens_pos(row),
        0 <= k <= row.len(),
    ensures
        dot_den(row, k) > 0,
    decreases k,
{
    if k > 0 {
        lemma_dot_den_pos(row, k - 1);
        let a = dot_den(row, k - 1);
        let b = row[k - 1].den;
        assert(a * b > 0) by (nonlinear_arith)
            requires
                a > 0,
                b > 0,
        ;
    }
}

// Ring identities on products, each a fixed regrouping of its factors, that
// the inductive steps below put together.
proof fn lemma_swap4(a: int, b: int, c: int, d: int)
    by (nonlinear_arith)
    ensures
        (a * b) * (c * d) == (a * c) * (b * d),
{
}

proof fn lemma_m6a(a: int, b: int, c: int, d: int, e: int, f: int)
    ensures
        a * b * (c * d) * (e * f) == (a * c * e) * (b * d * f),
{
    lemma_swap4(a, b, c, d);
    lemma_swap4(a * c, b * d, e, f);
}

#[verifier::rlimit(100)]
proof fn lemma_s1(a: int, dn: int, b: int, d: int, q: int)
    by (nonlinear_arith)
    ensures
        a * dn * (b * d) * q == (a * b * q) * (dn * d),
{
}

#[verifier::rlimit(100)]
proof fn lemma_s6(nn: int, xv: int, e: int, b: int, d: int, q: int)
    by (nonlinear_arith)
    ensures
        nn * xv * e * (b * d) * q == (nn * d * q) * (xv * e * b),
{
}

#[verifier::rlimit(100)]
proof fn lemma_s4(p: int, c: int, d: int, e: int, dn: int)
    by (nonlinear_arith)
    ensures
        p * (c * d) * (e * dn) == (p * c * e) * (dn * d),
{
}

#[verifier::rlimit(100)]
proof fn lemma_s5(p: int, n: int, xv: int, b: int, e: int, dn: int)
    by (nonlinear_arith)
    ensures
        p * (n * xv * b) * (e * dn) == (p * n * dn) * (xv * e * b),
{
}

#[verifier::rlimit(100)]
proof fn lemma_g1(a: int, b: int, c: int, z: int, e: int, f: int)
    by (nonlinear_arith)
    ensures
        a * b * c * z * (e * f) == (a * (b * e) * c * z) * f,
{
}

#[verifier::rlimit(100)]
proof fn lemma_g2(a: int, y: int, c: int, d: int, e: int, f: int)
    by (nonlinear_arith)
    ensures
        (a * y * c * (d * e)) * f == (a * e * f) * (y * c * d),
{
}

#[verifier::rlimit(100)]
proof fn lemma_g3(a: int, y: int, c: int, d: int, e: int, f: int)
    by (nonlinear_arith)
    ensures
        (a * y * c * (d * e)) * f == (a * e * f) * (y * d * c),
{
}

#[verifier::rlimit(100)]
proof fn lemma_g5(a: int, y: int, c: int, d: int, e: int, f: int)
    by (nonlinear_arith)
    ensures
        a * y * (c * d) * (e * f) == (a * d * f) * (y * c * e),
{
}

#[verifier::rlimit(100)]
proof fn lemma_g6(a: int, b: int, c: int, d: int, e: int, f: int)
    by (nonlinear_arith)
    ensures
        a * b * (c * d) * (e * f) == (a * c) * (e * f * b * d),
{
}

#[verifier::rlimit(100)]
proof fn lemma_g7(a: int, b: int, c: int, d: int, e: int, f: int)
    by (nonlinear_arith)
    ensures
        a * b * (c * d) * (e * f) == (a * c) * (e * f * d * b),
{
}

#[verifier::rlimit(100)]
proof fn lemma_g8(w: int, b: int, c: int, d: int, e: int)
    by (nonlinear_arith)
    ensures
        w * b * (c * d * e) == w * (b * c * d * e),
{
}

proof fn lemma_m3(a: int, b: int, c: int)
    by (nonlinear_arith)
    ensures
        a * (b * c) == (a * b) * c,
{
}

proof fn lemma_m4(p: int, j: int, a: int, b: int)
    by (nonlinear_arith)
    ensures
        p * j * a * b == (p * a * b) * j,
{
}

#[verifier::rlimit(100)]
proof fn lemma_m5(n: int, x: int, p: int, a: int, b: int)
    by (nonlinear_arith)
    ensures
        n * x * p * a * b == (n * x * b) * (p * a),
{
}

#[verifier::rlimit(100)]
proof fn lemma_m5b(n: int, x: int, p: int, a: int, b: int)
    by (nonlinear_arith)
    ensures
        n * x * p * a * b == (n * x * a) * (p * b),
{
}

proof fn lemma_distrib(x: int, y: int, z: int)
    ensures
        (x + y) * z == x * z + y * z,
{
    vstd::arithmetic::mul::lemma_mul_is_distributive_add_other_way(z, x, y);
}

proof fn lemma_distrib_l(x: int, y: int, z: int)
    ensures
        z * (x + y) == z * x + z * y,
{
    vstd::arithmetic::mul::lemma_mul_is_distributive_add(z, x, y);
}

/// Scaling every entry by `p / q` scales the dot product by `p / q`.
pub proof fn lemma_dot_scale(old: Seq<Fraction>, new: Seq<Fraction>, x: Seq<int>, p: int, q: int, k: int)
    requires
        0 <= k <= old.len(),
        new.len() == old.len(),
        forall|j: int| 0 <= j < old.len() ==> #[trigger] new[j].num * old[j].den * q == p * old[j].num * new[j].den,
    ensures
        dot_num(new, x, k) * dot_den(old, k) * q == p * dot_num(old, x, k) * dot_den(new, k),
    decreases k,
{
    if k > 0 {
        lemma_dot_scale(old, new, x, p, q, k - 1);
        let j = k - 1;
        let a = dot_num(new, x, j);
        let b = dot_den(old, j);
        let c = dot_num(old, x, j);
        let e = dot_den(new, j);
        let dn = new[j].den as int;
        let d = old[j].den as int;
        let nn = new[j].num as int;
        let n = old[j].num as int;
        let xv = x[j];
        assert(nn * d * q == p * n * dn);
        assert(a * b * q == p * c * e);
        lemma_distrib(a * dn, nn * xv * e, b * d);
        lemma_distrib(a * dn * (b * d), nn * xv * e * (b * d), q);
        assert(dot_num(new, x, k) == a * dn + nn * xv * e);
        assert(dot_den(old, k) == b * d);
        assert(dot_num(old, x, k) == c * d + n * xv * b);
        assert(dot_den(new, k) == e * dn);
        lemma_s1(a, dn, b, d, q);
        lemma_s6(nn, xv, e, b, d, q);
        assert((a * dn + nn * xv * e) * (b * d) * q == (a * b * q) * (dn * d) + (nn * d * q) * (xv * e * b));
        lemma_distrib_l(c * d, n * xv * b, p);
        lemma_distrib(p * (c * d), p * (n * xv * b), e * dn);
        lemma_s4(p, c, d, e, dn);
        lemma_s5(p, n, xv, b, e, dn);
        assert(p * (c * d + n * xv * b) * (e * dn) == (p * c * e) * (dn * d) + (p * n * dn) * (xv * e * b));
        assert(dot_num(new, x, k) * dot_den(old, k) * q == (a * dn + nn * xv * e) * (b * d) * q);
        assert((a * b * q) * (dn * d) == (p * c * e) * (dn * d));
        assert((nn * d * q) * (xv * e * b) == (p * n * dn) * (xv * e * b));
        assert(p * dot_num(old, x, k) * dot_den(new, k) == p * (c * d + n * xv * b) * (e * dn));
    } else {
        assert(p * 0 == 0 && 0 * q == 0) by (nonlinear_arith);
    }
}

/// Adding two rows entrywise adds their dot products.
pub proof fn lemma_dot_add(a: Seq<Fraction>, b: Seq<Fraction>, s: Seq<Fraction>, x: Seq<int>, k: int)
    requires
        0 <= k <= a.len(),
        b.len() == a.len(),
        s.len() == a.len(),
        forall|j: int|
            0 <= j < a.len() ==> #[trigger] s[j].num * a[j].den * b[j].den == (a[j].num * b[j].den + b[j].num
                * a[j].den) * s[j].den,
    ensures
        dot_num(s, x, k) * dot_den(a, k) * dot_den(b, k) == (dot_num(a, x, k) * dot_den(b, k) + dot_num(b, x, k)
            * dot_den(a, k)) * dot_den(s, k),
    decreases k,
{
    if k > 0 {
        lemma_dot_add(a, b, s, x, k - 1);
        let j = k - 1;
        let sn = dot_num(s, x, j);
        let sd = dot_den(s, j);
        let an = dot_num(a, x, j);
        let ad = dot_den(a, j);
        let bn = dot_num(b, x, j);
        let bd = dot_den(b, j);
        let ns = s[j].num as int;
        let ds = s[j].den as int;
        let na = a[j].num as int;
        let da = a[j].den as int;
        let nb = b[j].num as int;
        let db = b[j].den as int;
        let xv = x[j];
        assert(ns * da * db == (na * db + nb * da) * ds);
        assert(sn * ad * bd == (an * bd + bn * ad) * sd);
        let y = xv * sd;
        let w = y * ad * bd;
        let big = sd * ds * da * db;
        // left side: the previous sum and the new entry
        lemma_distrib(sn * ds, ns * xv * sd, ad * da);
        lemma_distrib(sn * ds * (ad * da), ns * xv * sd * (ad * da), bd * db);
        lemma_m6a(sn, ds, ad, da, bd, db);
        vstd::arithmetic::mul::lemma_mul_is_associative(ns, xv, sd);
        assert(ns * xv * sd * (ad * da) * (bd * db) == ns * y * (ad * da) * (bd * db));
        lemma_g5(ns, y, ad, da, bd, db);
        // right side, term by term
        let ta = an * da + na * xv * ad;
        let tb = bn * db + nb * xv * bd;
        lemma_distrib(ta * (bd * db), tb * (ad * da), sd * ds);
        lemma_distrib(an * da, na * xv * ad, bd * db);
        lemma_distrib(bn * db, nb * xv * bd, ad * da);
        lemma_distrib(an * da * (bd * db), na * xv * ad * (bd * db), sd * ds);
        lemma_distrib(bn * db * (ad * da), nb * xv * bd * (ad * da), sd * ds);
        lemma_g6(an, da, bd, db, sd, ds);
        lemma_g7(bn, db, ad, da, sd, ds);
        lemma_g1(na, xv, ad, bd * db, sd, ds);
        lemma_g2(na, y, ad, bd, db, ds);
        lemma_g1(nb, xv, bd, ad * da, sd, ds);
        lemma_g3(nb, y, bd, ad, da, ds);
        // the hypotheses, multiplied out
        lemma_distrib(an * bd, bn * ad, sd);
        assert((sn * ad * bd) * (ds * da * db) == ((an * bd) * sd + (bn * ad) * sd) * (ds * da * db));
        lemma_distrib((an * bd) * sd, (bn * ad) * sd, ds * da * db);
        lemma_g8(an * bd, sd, ds, da, db);
        lemma_g8(bn * ad, sd, ds, da, db);
        lemma_distrib(na * db, nb * da, ds);
        assert((ns * da * db) * w == ((na * db) * ds + (nb * da) * ds) * w);
        lemma_distrib((na * db) * ds, (nb * da) * ds, w);
    }
}

/// A row that is zero except at `a` and `b` dots to the sum of those two
/// entries' products.
pub proof fn lemma_dot_pair(row: Seq<Fraction>, x: Seq<int>, a: int, b: int, k: int)
    requires
        0 <= a < row.len(),
        0 <= b < row.len(),
        a != b,
        0 <= k <= row.len(),
        forall|j: int| 0 <= j < row.len() && j != a && j != b ==> (#[trigger] row[j]).num == 0,
    ensures
        dot_num(row, x, k) * row[a].den * row[b].den == ((if a < k {
            row[a].num * x[a] * row[b].den
        } else {
            0
        }) + (if b < k {
            row[b].num * x[b] * row[a].den
        } else {
            0
        })) * dot_den(row, k),
    decreases k,
{
    if k > 0 {
        lemma_dot_pair(row, x, a, b, k - 1);
        let j = k - 1;
        let prev = dot_num(row, x, j);
        let pd = dot_den(row, j);
        let da = row[a].den as int;
        let db = row[b].den as int;
        let ta = if a < j {
            row[a].num * x[a] * db
        } else {
            0
        };
        let tb = if b < j {
            row[b].num * x[b] * da
        } else {
            0
        };
        assert(prev * da * db == (ta + tb) * pd);
        let dj = row[j].den as int;
        let nj = row[j].num as int;
        let xj = x[j];
        lemma_distrib(prev * dj, nj * xj * pd, da);
        lemma_distrib(prev * dj * da, nj * xj * pd * da, db);
        assert(dot_num(row, x, k) == prev * dj + nj * xj * pd);
        assert(dot_den(row, k) == pd * dj);
        let lhs = (prev * dj + nj * xj * pd) * da * db;
        assert(lhs == prev * dj * da * db + nj * xj * pd * da * db);
        lemma_m4(prev, dj, da, db);
        assert(prev * dj * da * db == (ta + tb) * pd * dj);
        if j == a {
            assert(ta == 0);
            assert(dj == da);
            lemma_m5(nj, xj, pd, da, db);
            lemma_distrib(nj * xj * db, tb, pd * dj);
            lemma_m3(tb, pd, dj);
            assert(lhs == (nj * xj * db + tb) * (pd * dj));
        } else if j == b {
            assert(tb == 0);
            assert(dj == db);
            lemma_m5b(nj, xj, pd, da, db);
            lemma_distrib(ta, nj * xj * da, pd * dj);
            lemma_m3(ta, pd, dj);
            assert(lhs == (ta + nj * xj * da) * (pd * dj));
        } else {
            assert(nj == 0);
            assert(nj * xj * pd * da * db == 0) by (nonlinear_arith)
                requires
                    nj == 0,
            ;
            lemma_m3(ta + tb, pd, dj);
            assert(lhs == (ta + tb) * (pd * dj));
        }
    } else {
        let da = row[a].den as int;
        let db = row[b].den as int;
        assert(0 * da * db == 0) by (nonlinear_arith);
    }
}

/// Like [`lemma_dot_pair`], for a row whose other terms vanish because the
/// entry or the coefficient is zero.
pub proof fn lemma_dot_vanish_pair(row: Seq<Fraction>, x: Seq<int>, a: int, b: int, k: int)
    requires
        0 <= a < row.len(),
        0 <= b < row.len(),
        a != b,
        0 <= k <= row.len(),
        forall|j: int| 0 <= j < row.len() && j != a && j != b ==> (#[trigger] row[j]).num == 0 || x[j] == 0,
    ensures
        dot_num(row, x, k) * row[a].den * row[b].den == ((if a < k {
            row[a].num * x[a] * row[b].den
        } else {
            0
        }) + (if b < k {
            row[b].num * x[b] * row[a].den
        } else {
            0
        })) * dot_den(row, k),
    decreases k,
{
    if k > 0 {
        lemma_dot_vanish_pair(row, x, a, b, k - 1);
        let j = k - 1;
        let prev = dot_num(row, x, j);
        let pd = dot_den(row, j);
        let da = row[a].den as int;
        let db = row[b].den as int;
        let ta = if a < j {
            row[a].num * x[a] * db
        } else {
            0
        };
        let tb = if b < j {
            row[b].num * x[b] * da
        } else {
            0
        };
        assert(prev * da * db == (ta + tb) * pd);
        let dj = row[j].den as int;
        let nj = row[j].num as int;
        let xj = x[j];
        lemma_distrib(prev * dj, nj * xj * pd, da);
        lemma_distrib(prev * dj * da, nj * xj * pd * da, db);
        assert(dot_num(row, x, k) == prev * dj + nj * xj * pd);
        assert(dot_den(row, k) == pd * dj);
        let lhs = (prev * dj + nj * xj * pd) * da * db;
        assert(lhs == prev * dj * da * db + nj * xj * pd * da * db);
        lemma_m4(prev, dj, da, db);
        assert(prev * dj * da * db == (ta + tb) * pd * dj);
        if j == a {
            assert(ta == 0);
            assert(dj == da);
            lemma_m5(nj, xj, pd, da, db);
            lemma_distrib(nj * xj * db, tb, pd * dj);
            lemma_m3(tb, pd, dj);
            assert(lhs == (nj * xj * db + tb) * (pd * dj));
        } else if j == b {
            assert(tb == 0);
            assert(dj == db);
            lemma_m5b(nj, xj, pd, da, db);
            lemma_distrib(ta, nj * xj * da, pd * dj);
            lemma_m3(ta, pd, dj);
            assert(lhs == (ta + nj * xj * da) * (pd * dj));
        } else {
            assert(nj == 0 || xj == 0);
            assert(nj * xj * pd * da * db == 0) by (nonlinear_arith)
                requires
                    nj == 0 || xj == 0,
            ;
            lemma_m3(ta + tb, pd, dj);
            assert(lhs == (ta + tb) * (pd * dj));
        }
    } else {
        let da = row[a].den as int;
        let db = row[b].den as int;
        assert(0 * da * db == 0) by (nonlinear_arith);
    }
}

/// A row whose entries are all zero dots to zero with anything.
pub proof fn lemma_dot_zero_row(row: Seq<Fraction>, x: Seq<int>, k: int)
    requires
        0 <= k <= row.len(),
        forall|j: int| 0 <= j < row.len() ==> (#[trigger] row[j]).num == 0,
    ensures
        dot_num(row, x, k) == 0,
    decreases k,
{
    if k > 0 {
        lemma_dot_zero_row(row, x, k - 1);
        let nj = row[k - 1].num as int;
        assert(nj * x[k - 1] * dot_den(row, k - 1) == 0) by (nonlinear_arith)
            requires
                nj == 0,
        ;
    }
}

} // verus!
