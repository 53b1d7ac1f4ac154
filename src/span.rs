//! Linear combinations and spans of integer vectors, read modulo a prime.
use crate::field::{is_prime, lemma_no_zero_divisors};
use vstd::arithmetic::div_mod::*;
use vstd::prelude::*;

verus! {

/// Coefficient `i` of `c`; coefficients past the end of `c` are zero.
pub open spec fn coef(c: Seq<int>, i: int) -> int {
    if 0 <= i < c.len() {
        c[i]
    } else {
        0
    }
}

/// Coordinate `j` of the linear combination `sum_i c[i] * rows[i]`.
pub open spec fn comb(c: Seq<int>, rows: Seq<Seq<int>>, j: int) -> int
    decreases rows.len(),
{
    if rows.len() == 0 {
        0
    } else {
        comb(c, rows.drop_last(), j) + coef(c, rows.len() - 1) * rows.last()[j]
    }
}

/// Modulo `p`, the vector `v` is the combination of `rows` with coefficients `c`.
pub open spec fn is_comb(p: int, v: Seq<int>, c: Seq<int>, rows: Seq<Seq<int>>) -> bool {
    forall|j: int| 0 <= j < v.len() ==> #[trigger] (comb(c, rows, j) % p) == v[j] % p
}

/// `v` lies in the span of `rows` over GF(p).
pub open spec fn in_span(p: int, v: Seq<int>, rows: Seq<Seq<int>>) -> bool {
    exists|c: Seq<int>| #[trigger] is_comb(p, v, c, rows)
}

/// Pointwise `a * x + b * y`, over the first `n` coefficients.
pub open spec fn lin(x: Seq<int>, y: Seq<int>, a: int, b: int, n: nat) -> Seq<int> {
    Seq::new(n, |l: int| a * coef(x, l) + b * coef(y, l))
}

/// The coefficient vector of length `n` that picks row `i`.
pub open spec fn unit(i: int, n: nat) -> Seq<int> {
    Seq::new(n, |l: int| if l == i { 1int } else { 0int })
}

/// The coefficients, over the rows that `g` expresses each row of `x` in, of the
/// combination of the first `m` rows of `x` with coefficients `c`.
pub open spec fn compose(c: Seq<int>, g: Seq<Seq<int>>, m: nat, n: nat) -> Seq<int>
    decreases m,
{
    if m == 0 {
        Seq::new(n, |l: int| 0int)
    } else {
        lin(compose(c, g, (m - 1) as nat, n), g[m - 1], 1, coef(c, m - 1), n)
    }
}

pub proof fn lemma_comb_lin(x: Seq<int>, y: Seq<int>, a: int, b: int, n: nat, rows: Seq<Seq<int>>, j: int)
    requires
        rows.len() <= n,
    ensures
        comb(lin(x, y, a, b, n), rows, j) == a * comb(x, rows, j) + b * comb(y, rows, j),
    decreases rows.len(),
{
    if rows.len() > 0 {
        let k = rows.len() - 1;
        lemma_comb_lin(x, y, a, b, n, rows.drop_last(), j);
        let cx = comb(x, rows.drop_last(), j);
        let cy = comb(y, rows.drop_last(), j);
        let xk = coef(x, k);
        let yk = coef(y, k);
        let v = rows.last()[j];
        assert((a * xk + b * yk) * v + (a * cx + b * cy) == a * (cx + xk * v) + b * (cy + yk * v))
            by (nonlinear_arith);
    }
}

pub proof fn lemma_comb_unit(i: int, n: nat, rows: Seq<Seq<int>>, j: int)
    requires
        rows.len() <= n,
        0 <= i < rows.len(),
    ensures
        comb(unit(i, n), rows, j) == rows[i][j],
    decreases rows.len(),
{
    lemma_comb_zero(unit(i, n), rows, j, i);
    assert(coef(unit(i, n), i) == 1);
}

/// Coefficients that are zero over the first `rows.len()` rows, but at `i`, give no more than row `i`'s term.
pub proof fn lemma_comb_zero(c: Seq<int>, rows: Seq<Seq<int>>, j: int, i: int)
    requires
        forall|l: int| 0 <= l < rows.len() && l != i ==> coef(c, l) == 0,
    ensures
        comb(c, rows, j) == if 0 <= i < rows.len() { coef(c, i) * rows[i][j] } else { 0 },
    decreases rows.len(),
{
    if rows.len() > 0 {
        lemma_comb_zero(c, rows.drop_last(), j, i);
    }
}

/// Coefficients past the rows that exist leave a combination unchanged.
pub proof fn lemma_comb_push(c: Seq<int>, rows: Seq<Seq<int>>, r: Seq<int>, j: int)
    requires
        c.len() <= rows.len(),
    ensures
        comb(c, rows.push(r), j) == comb(c, rows, j),
{
    assert(rows.push(r).drop_last() =~= rows);
}

/// Where each row of `x` is, modulo `p`, the combination of `y` with coefficients `g`,
/// a combination of `x` is a combination of `y`.
pub proof fn lemma_comb_compose(p: int, c: Seq<int>, x: Seq<Seq<int>>, g: Seq<Seq<int>>, y: Seq<Seq<int>>, n: nat, j: int)
    requires
        p > 1,
        y.len() <= n,
        g.len() >= x.len(),
        forall|k: int| 0 <= k < x.len() ==> #[trigger] (comb(g[k], y, j) % p) == x[k][j] % p,
    ensures
        comb(c, x, j) % p == comb(compose(c, g, x.len(), n), y, j) % p,
    decreases x.len(),
{
    if x.len() == 0 {
        lemma_comb_zero(compose(c, g, 0, n), y, j, -1);
    } else {
        let m = (x.len() - 1) as nat;
        let xs = x.drop_last();
        assert forall|k: int| 0 <= k < xs.len() implies #[trigger] (comb(g[k], y, j) % p) == xs[k][j] % p by {
            assert(xs[k] == x[k]);
        }
        lemma_comb_compose(p, c, xs, g, y, n, j);
        let prev = compose(c, g, m, n);
        lemma_comb_lin(prev, g[m as int], 1, coef(c, m as int), n, y, j);
        let a = comb(c, xs, j);
        let a2 = comb(prev, y, j);
        let b = x.last()[j];
        let b2 = comb(g[m as int], y, j);
        let cm = coef(c, m as int);
        assert(b == x[m as int][j]);
        assert(b2 % p == b % p);
        lemma_mod_lin(p, a, a2, b, b2, cm);
        assert(1 * a2 == a2);
    }
}

/// Sums of congruent terms are congruent.
pub proof fn lemma_mod_lin(p: int, a: int, a2: int, b: int, b2: int, c: int)
    requires
        p > 0,
        a % p == a2 % p,
        b % p == b2 % p,
    ensures
        (a + c * b) % p == (a2 + c * b2) % p,
{
    lemma_mul_mod_noop_right(c, b, p);
    lemma_mul_mod_noop_right(c, b2, p);
    lemma_add_mod_noop(a, c * b, p);
    lemma_add_mod_noop(a2, c * b2, p);
}

/// Where every term but the one of row `i` vanishes modulo `p`, so does the rest of the combination.
pub proof fn lemma_comb_single_mod(p: int, c: Seq<int>, rows: Seq<Seq<int>>, j: int, i: int)
    requires
        p > 1,
        forall|l: int| 0 <= l < rows.len() && l != i ==> #[trigger] (coef(c, l) * rows[l][j]) % p == 0,
    ensures
        comb(c, rows, j) % p == if 0 <= i < rows.len() { (coef(c, i) * rows[i][j]) % p } else { 0 },
    decreases rows.len(),
{
    if rows.len() == 0 {
        lemma_small_mod(0, p as nat);
    } else {
        let k = rows.len() - 1;
        let rs = rows.drop_last();
        assert forall|l: int| 0 <= l < rs.len() && l != i implies #[trigger] (coef(c, l) * rs[l][j]) % p == 0 by {
            assert(rs[l] == rows[l]);
            assert((coef(c, l) * rows[l][j]) % p == 0);
        }
        lemma_comb_single_mod(p, c, rs, j, i);
        let a = comb(c, rs, j);
        let t = coef(c, k) * rows[k][j];
        assert(t == coef(c, k) * rows.last()[j]);
        lemma_add_mod_noop(a, t, p);
        lemma_mod_bound(a, p);
        lemma_mod_bound(t, p);
        if k == i {
            lemma_small_mod(0, p as nat);
            lemma_add_mod_noop(0, t, p);
        } else {
            assert(t % p == 0);
            lemma_small_mod((a % p) as nat, p as nat);
        }
    }
}

/// Residues `rows` below `p`, in echelon form with pivot columns `piv`: each row is not
/// zero at its own pivot and is zero at the pivots of the rows before it.
pub open spec fn echelon(p: int, n: int, rows: Seq<Seq<int>>, piv: Seq<int>) -> bool {
    &&& rows.len() == piv.len()
    &&& forall|i: int| 0 <= i < rows.len() ==> (#[trigger] rows[i]).len() == n && 0 <= piv[i] < n && rows[i][piv[i]] != 0
    &&& forall|i: int, j: int| 0 <= i < rows.len() && 0 <= j < n ==> 0 <= #[trigger] rows[i][j] < p
    &&& forall|i: int, l: int| 0 <= l < i < rows.len() ==> #[trigger] rows[i][piv[l]] == 0
}

/// A combination of rows in echelon form that vanishes at every pivot has all
/// its coefficients zero, modulo `p`: the first `k` of them, by induction.
pub proof fn lemma_echelon_independent(p: int, n: int, rows: Seq<Seq<int>>, piv: Seq<int>, x: Seq<int>, k: int)
    requires
        is_prime(p),
        echelon(p, n, rows, piv),
        forall|i: int| 0 <= i < rows.len() ==> #[trigger] comb(x, rows, piv[i]) % p == 0,
        0 <= k <= rows.len(),
    ensures
        forall|l: int| 0 <= l < k ==> #[trigger] coef(x, l) % p == 0,
    decreases k,
{
    if k > 0 {
        let i = k - 1;
        lemma_echelon_independent(p, n, rows, piv, x, i);
        let col = piv[i];
        assert forall|l: int| 0 <= l < rows.len() && l != i implies #[trigger] (coef(x, l) * rows[l][col]) % p == 0 by {
            if l < i {
                lemma_mul_mod_noop_left(coef(x, l), rows[l][col], p);
                let z = coef(x, l) % p;
                assert(z == 0);
                assert(z * rows[l][col] == 0) by (nonlinear_arith)
                    requires z == 0;
                lemma_small_mod(0, p as nat);
            } else {
                assert(rows[l][piv[i]] == 0);
                let z = rows[l][col];
                assert(coef(x, l) * z == 0) by (nonlinear_arith)
                    requires z == 0;
                lemma_small_mod(0, p as nat);
            }
        }
        lemma_comb_single_mod(p, x, rows, col, i);
        assert(comb(x, rows, piv[i]) % p == 0);
        let a = rows[i][col];
        assert(0 < a < p);
        lemma_small_mod(a as nat, p as nat);
        assert(a * coef(x, i) == coef(x, i) * a);
        lemma_no_zero_divisors(p, a, coef(x, i));
    }
}

/// A combination whose coefficients are all zero modulo `p` is zero modulo `p`.
pub proof fn lemma_comb_zero_mod(p: int, c: Seq<int>, rows: Seq<Seq<int>>, j: int)
    requires
        p > 1,
        forall|l: int| 0 <= l < rows.len() ==> #[trigger] coef(c, l) % p == 0,
    ensures
        comb(c, rows, j) % p == 0,
{
    assert forall|l: int| 0 <= l < rows.len() && l != -1 implies #[trigger] (coef(c, l) * rows[l][j]) % p == 0 by {
        lemma_mul_mod_noop_left(coef(c, l), rows[l][j], p);
        assert((coef(c, l) % p) * rows[l][j] == 0);
        lemma_small_mod(0, p as nat);
    }
    lemma_comb_single_mod(p, c, rows, j, -1);
}

/// Combinations whose coefficients agree on the rows that exist are equal.
pub proof fn lemma_comb_agree(c: Seq<int>, d: Seq<int>, rows: Seq<Seq<int>>, j: int)
    requires
        forall|l: int| 0 <= l < rows.len() ==> #[trigger] coef(c, l) == coef(d, l),
    ensures
        comb(c, rows, j) == comb(d, rows, j),
    decreases rows.len(),
{
    if rows.len() > 0 {
        lemma_comb_agree(c, d, rows.drop_last(), j);
    }
}

/// A combination whose coefficients stop before row `m` only reads the first `m` rows.
pub proof fn lemma_comb_take(c: Seq<int>, rows: Seq<Seq<int>>, m: int, j: int)
    requires
        c.len() <= m <= rows.len(),
    ensures
        comb(c, rows, j) == comb(c, rows.take(m), j),
    decreases rows.len(),
{
    if rows.len() > m {
        assert(rows.drop_last().take(m) =~= rows.take(m));
        lemma_comb_take(c, rows.drop_last(), m, j);
    } else {
        assert(rows.take(m) =~= rows);
    }
}

/// The zero vector of length `n`.
pub open spec fn zeros(n: nat) -> Seq<int> {
    Seq::new(n, |j: int| 0int)
}

/// Some combination of `rows` with a coefficient that is not zero modulo `p` is zero
/// modulo `p` at each of the `n` coordinates.
pub open spec fn dependent(p: int, rows: Seq<Seq<int>>, n: nat) -> bool {
    exists|c: Seq<int>| #[trigger] is_comb(p, zeros(n), c, rows) && exists|l: int| 0 <= l < rows.len() && #[trigger] coef(c, l) % p != 0
}

/// The rank of the `n`-coordinate vectors `rows` over GF(p) is below both their number and
/// `n`: with at most `n` rows, they are dependent; with more, some unit vector is not in
/// their span.
pub open spec fn rank_deficient(p: int, rows: Seq<Seq<int>>, n: nat) -> bool {
    if rows.len() <= n {
        dependent(p, rows, n)
    } else {
        exists|j: int| 0 <= j < n && !#[trigger] in_span(p, unit(j, n), rows)
    }
}

} // verus!
