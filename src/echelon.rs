//! Exact span membership and rank deficiency over a prime field, by Gaussian elimination
//! into echelon form.
use crate::field::{is_prime, lemma_inverse, lemma_product_nonzero, PrimeField};
use crate::span::{
    coef, comb, compose, dependent, echelon, in_span, is_comb, lemma_comb_agree, lemma_comb_compose,
    lemma_comb_lin, lemma_comb_push, lemma_comb_take, lemma_comb_unit, lemma_comb_zero, lemma_comb_zero_mod,
    lemma_echelon_independent, lemma_mod_lin, lin, rank_deficient, unit, zeros,
};
use vstd::arithmetic::div_mod::*;
use vstd::prelude::*;

verus! {

/// A vector of residues, read as integers.
pub open spec fn ints(s: Seq<u64>) -> Seq<int> {
    s.map_values(|x: u64| x as int)
}

/// Rows of residues, read as integer vectors.
pub open spec fn int_rows(b: Seq<Vec<u64>>) -> Seq<Seq<int>> {
    b.map_values(|r: Vec<u64>| ints(r@))
}

/// Pivot columns, read as integers.
pub open spec fn int_cols(piv: Seq<usize>) -> Seq<int> {
    piv.map_values(|q: usize| q as int)
}

/// A row of the wire space, read as an integer vector.
pub open spec fn row_view<const BASE: usize>(r: [u8; BASE]) -> Seq<int> {
    r@.map_values(|x: u8| x as int)
}

/// Rows of the wire space, read as integer vectors.
pub open spec fn rows_view<const BASE: usize>(f: Seq<[u8; BASE]>) -> Seq<Seq<int>> {
    f.map_values(|r: [u8; BASE]| row_view(r))
}

/// Every entry is a residue below `p`.
pub open spec fn residues(p: int, s: Seq<u64>) -> bool {
    forall|j: int| 0 <= j < s.len() ==> #[trigger] s[j] < p
}

proof fn lemma_step_value(p: int, a: int, w: int, t: int, b: int)
    requires
        p > 0,
    ensures
        ((a * w) % p + (p - (t * b) % p)) % p == (a * w - t * b) % p,
{
    let x = (a * w) % p;
    let y = (t * b) % p;
    assert(x + (p - y) == p + (x - y));
    lemma_mod_add_multiples_vanish(x - y, p);
    lemma_sub_mod_noop(a * w, t * b, p);
}

/// `a * w - t * b`, entry by entry, modulo `p`.
fn combine_rows(p: u64, a: u64, w: &Vec<u64>, t: u64, b: &Vec<u64>) -> (r: Vec<u64>)
    requires
        1 < p < 0x1_0000_0000,
        a < p,
        t < p,
        w@.len() == b@.len(),
        residues(p as int, w@),
        residues(p as int, b@),
    ensures
        r@.len() == w@.len(),
        residues(p as int, r@),
        forall|j: int| 0 <= j < w@.len() ==> #[trigger] r@[j] as int == (a * w@[j] - t * b@[j]) % (p as int),
{
    let mut r: Vec<u64> = Vec::new();
    let mut j: usize = 0;
    while j < w.len()
        invariant
            1 < p < 0x1_0000_0000,
            a < p,
            t < p,
            w@.len() == b@.len(),
            residues(p as int, w@),
            residues(p as int, b@),
            j <= w@.len(),
            r@.len() == j,
            residues(p as int, r@),
            forall|jj: int| 0 <= jj < j ==> #[trigger] r@[jj] as int == (a * w@[jj] - t * b@[jj]) % (p as int),
        decreases w@.len() - j,
    {
        let wj = w[j];
        let bj = b[j];
        assert(a * wj < 0x1_0000_0000 * 0x1_0000_0000) by (nonlinear_arith)
            requires a < 0x1_0000_0000, wj < 0x1_0000_0000;
        assert(t * bj < 0x1_0000_0000 * 0x1_0000_0000) by (nonlinear_arith)
            requires t < 0x1_0000_0000, bj < 0x1_0000_0000;
        let x = (a * wj) % p;
        let y = (t * bj) % p;
        let z = (x + (p - y)) % p;
        proof {
            lemma_step_value(p as int, a as int, wj as int, t as int, bj as int);
        }
        r.push(z);
        j = j + 1;
    }
    r
}

/// Reduces `w` against the echelon rows `basis`: the result is zero at every pivot and equals
/// `s * w - comb(h, basis)` modulo `p`, for a scalar `s` that is not zero.
fn reduce(p: u64, basis: &Vec<Vec<u64>>, piv: &Vec<usize>, n: usize, w: Vec<u64>) -> (r: (Vec<u64>, Ghost<int>, Ghost<Seq<int>>))
    requires
        is_prime(p as int),
        p < 0x1_0000_0000,
        echelon(p as int, n as int, int_rows(basis@), int_cols(piv@)),
        w@.len() == n,
        residues(p as int, w@),
    ensures
        r.0@.len() == n,
        residues(p as int, r.0@),
        forall|i: int| 0 <= i < piv@.len() ==> #[trigger] r.0@[piv@[i] as int] == 0,
        r.1@ % (p as int) != 0,
        r.2@.len() == basis@.len(),
        forall|j: int| 0 <= j < n ==> #[trigger] ((r.0@[j] as int) % (p as int))
            == (r.1@ * w@[j] - comb(r.2@, int_rows(basis@), j)) % (p as int),
{
    let ghost pp = p as int;
    let ghost bb = int_rows(basis@);
    let ghost w0 = w@;
    let ghost mut s: int = 1;
    let ghost mut h: Seq<int> = Seq::new(basis@.len(), |l: int| 0int);
    let mut w = w;
    let mut i: usize = 0;
    proof {
        lemma_small_mod(1, pp as nat);
        assert forall|j: int| 0 <= j < n implies #[trigger] ((w@[j] as int) % pp) == (s * w0[j] - comb(h, bb, j)) % pp by {
            lemma_comb_zero(h, bb, j, -1);
        }
    }
    while i < basis.len()
        invariant
            is_prime(pp),
            pp == p,
            p < 0x1_0000_0000,
            bb == int_rows(basis@),
            echelon(pp, n as int, bb, int_cols(piv@)),
            i <= basis@.len(),
            w@.len() == n,
            residues(pp, w@),
            forall|l: int| 0 <= l < i ==> #[trigger] w@[piv@[l] as int] == 0,
            s % pp != 0,
            h.len() == basis@.len(),
            forall|j: int| 0 <= j < n ==> #[trigger] ((w@[j] as int) % pp) == (s * w0[j] - comb(h, bb, j)) % pp,
        decreases basis@.len() - i,
    {
        let b = &basis[i];
        let q = piv[i];
        proof {
            assert(bb[i as int] == ints(b@));
            assert(bb[i as int].len() == n);
            assert(b@.len() == n);
            assert(int_cols(piv@)[i as int] == q as int);
            assert forall|j: int| 0 <= j < n implies #[trigger] b@[j] < p by {
                assert(bb[i as int][j] == b@[j] as int);
            }
        }
        let a = b[q];
        let t = w[q];
        let nw = combine_rows(p, a, &w, t, b);
        proof {
            let nb = basis@.len();
            let ai = a as int;
            let ti = t as int;
            let h2 = lin(h, unit(i as int, nb), ai, ti, nb);
            assert(bb[i as int][q as int] == a as int);
            assert forall|j: int| 0 <= j < n implies #[trigger] ((nw@[j] as int) % pp) == ((a * s) * w0[j] - comb(h2, bb, j)) % pp by {
                let wj = w@[j] as int;
                let bj = b@[j] as int;
                let c = comb(h, bb, j);
                let z = s * w0[j] - c;
                assert(bb[i as int][j] == bj);
                lemma_small_mod(nw@[j] as nat, pp as nat);
                lemma_small_mod(wj as nat, pp as nat);
                lemma_mod_lin(pp, -ti * bj, -ti * bj, wj, z, ai);
                assert(-ti * bj + ai * wj == ai * wj - ti * bj) by (nonlinear_arith);
                lemma_comb_lin(h, unit(i as int, nb), ai, ti, nb, bb, j);
                lemma_comb_unit(i as int, nb, bb, j);
                assert(-ti * bj + ai * z == (ai * s) * w0[j] - (ai * c + ti * bj)) by (nonlinear_arith)
                    requires z == s * w0[j] - c;
            }
            assert forall|l: int| 0 <= l <= i implies #[trigger] nw@[piv@[l] as int] == 0 by {
                let ql = piv@[l] as int;
                assert(int_cols(piv@)[l] == ql);
                assert(bb[l].len() == n);
                assert(0 <= ql < n);
                if l < i {
                    assert(bb[i as int][ql] == 0);
                    assert(ints(b@)[ql] == b@[ql] as int);
                    assert(b@[ql] == 0);
                    assert(w@[ql] == 0);
                    assert(a * w@[ql] - t * b@[ql] == 0) by (nonlinear_arith)
                        requires w@[ql] == 0, b@[ql] == 0;
                } else {
                    assert(a * w@[ql] - t * b@[ql] == 0) by (nonlinear_arith)
                        requires w@[ql] == t, b@[ql] == a;
                }
                lemma_small_mod(0, pp as nat);
            }
            lemma_small_mod(a as nat, pp as nat);
            lemma_product_nonzero(pp, a as int, s);
            s = a * s;
            h = h2;
        }
        w = nw;
        i = i + 1;
    }
    (w, Ghost(s), Ghost(h))
}

/// Dividing a congruence by a scalar: from `s * x == y` and `s * inv == 1`, `x == inv * y`, modulo `p`.
proof fn lemma_unscale(p: int, s: int, inv: int, x: int, y: int)
    requires
        p > 0,
        (s * x) % p == y % p,
        (s * inv) % p == 1,
    ensures
        x % p == (inv * y) % p,
{
    lemma_mul_mod_noop_right(inv, y, p);
    lemma_mul_mod_noop_right(inv, s * x, p);
    assert(inv * (s * x) == (s * inv) * x) by (nonlinear_arith);
    lemma_mul_mod_noop_left(s * inv, x, p);
    assert(1 * x == x);
}

/// An inverse of `s` modulo the prime `p`, for `s` that is not zero modulo `p`.
proof fn lemma_inverse_of(p: int, s: int) -> (inv: int)
    requires
        is_prime(p),
        s % p != 0,
    ensures
        (s * inv) % p == 1,
{
    lemma_mod_bound(s, p);
    let inv = lemma_inverse(p, s % p);
    lemma_mul_mod_noop_left(s, inv, p);
    inv
}

/// The residues modulo `p` of a row of the wire space.
fn to_residues<const BASE: usize>(p: u64, row: &[u8; BASE]) -> (r: Vec<u64>)
    requires
        p > 1,
    ensures
        r@.len() == BASE,
        residues(p as int, r@),
        forall|j: int| 0 <= j < BASE ==> #[trigger] (r@[j] as int) == row_view(*row)[j] % (p as int),
{
    let mut r: Vec<u64> = Vec::new();
    let mut j: usize = 0;
    while j < BASE
        invariant
            p > 1,
            j <= BASE,
            r@.len() == j,
            residues(p as int, r@),
            forall|jj: int| 0 <= jj < j ==> #[trigger] (r@[jj] as int) == row_view(*row)[jj] % (p as int),
        decreases BASE - j,
    {
        let x = row[j] as u64 % p;
        r.push(x);
        j = j + 1;
    }
    r
}

/// The first column at which `w` is not zero, if there is one.
fn nonzero_column(w: &Vec<u64>) -> (r: Option<usize>)
    ensures
        r matches Some(q) ==> q < w@.len() && w@[q as int] != 0,
        r is None ==> forall|j: int| 0 <= j < w@.len() ==> #[trigger] w@[j] == 0,
{
    let mut j: usize = 0;
    while j < w.len()
        invariant
            j <= w@.len(),
            forall|jj: int| 0 <= jj < j ==> #[trigger] w@[jj] == 0,
        decreases w@.len() - j,
    {
        if w[j] != 0 {
            return Some(j);
        }
        j = j + 1;
    }
    None
}

/// Modulo `p`, a reduced row that came from `f`, the row `k` of `fr`, is a combination of `fr`.
proof fn lemma_reduced_in_rows(p: int, fr: Seq<Seq<int>>, k: int, bb: Seq<Seq<int>>, e: Seq<Seq<int>>, red: Seq<int>, s: int, h: Seq<int>, n: int)
    requires
        p > 1,
        0 <= k < fr.len(),
        red.len() == n,
        e.len() == bb.len(),
        forall|i: int| 0 <= i < bb.len() ==> #[trigger] is_comb(p, bb[i], e[i], fr),
        forall|i: int| 0 <= i < bb.len() ==> (#[trigger] bb[i]).len() == n,
        forall|j: int| 0 <= j < n ==> #[trigger] (red[j] % p) == (s * fr[k][j] - comb(h, bb, j)) % p,
    ensures
        is_comb(p, red, lin(unit(k, fr.len()), compose(h, e, bb.len(), fr.len()), s, -1, fr.len()), fr),
{
    let cc = compose(h, e, bb.len(), fr.len());
    let c = lin(unit(k, fr.len()), cc, s, -1, fr.len());
    assert forall|j: int| 0 <= j < red.len() implies #[trigger] (comb(c, fr, j) % p) == red[j] % p by {
        assert forall|i: int| 0 <= i < bb.len() implies #[trigger] (comb(e[i], fr, j) % p) == bb[i][j] % p by {
            assert(is_comb(p, bb[i], e[i], fr));
        }
        lemma_comb_compose(p, h, bb, e, fr, fr.len(), j);
        lemma_comb_lin(unit(k, fr.len()), cc, s, -1, fr.len(), fr, j);
        lemma_comb_unit(k, fr.len(), fr, j);
        let sf = s * fr[k][j];
        lemma_mod_lin(p, sf, sf, comb(h, bb, j), comb(cc, fr, j), -1);
    }
}

/// Modulo `p`, a row `f` with `s * f == comb(h, bb) + red` is a combination of `bb` with `red` appended.
proof fn lemma_row_in_grown_basis(p: int, f: Seq<int>, bb: Seq<Seq<int>>, red: Seq<int>, s: int, inv: int, h: Seq<int>)
    requires
        p > 1,
        h.len() <= bb.len(),
        (s * inv) % p == 1,
        forall|j: int| 0 <= j < f.len() ==> #[trigger] (red[j] % p) == (s * f[j] - comb(h, bb, j)) % p,
    ensures
        is_comb(p, f, lin(h, unit(bb.len() as int, bb.len() + 1), inv, inv, bb.len() + 1), bb.push(red)),
{
    let nb = bb.push(red);
    let m = (bb.len() + 1) as nat;
    let c = lin(h, unit(bb.len() as int, m), inv, inv, m);
    assert forall|j: int| 0 <= j < f.len() implies #[trigger] (comb(c, nb, j) % p) == f[j] % p by {
        lemma_comb_lin(h, unit(bb.len() as int, m), inv, inv, m, nb, j);
        lemma_comb_unit(bb.len() as int, m, nb, j);
        lemma_comb_push(h, bb, red, j);
        let ch = comb(h, bb, j);
        // red + ch == s * f, modulo p
        lemma_mod_lin(p, red[j], s * f[j] - ch, 1, 1, ch);
        assert(ch * 1 == ch);
        assert(red[j] + ch * 1 == red[j] + ch);
        assert(s * f[j] - ch + ch * 1 == s * f[j]);
        lemma_unscale(p, s, inv, f[j], red[j] + ch);
        assert(inv * ch + inv * nb[bb.len() as int][j] == inv * (red[j] + ch)) by (nonlinear_arith)
            requires nb[bb.len() as int][j] == red[j];
    }
}

/// Modulo `p`, a row `f` with `s * f == comb(h, bb)` is a combination of `bb`.
proof fn lemma_row_in_basis(p: int, f: Seq<int>, bb: Seq<Seq<int>>, s: int, inv: int, h: Seq<int>)
    requires
        p > 1,
        h.len() == bb.len(),
        (s * inv) % p == 1,
        forall|j: int| 0 <= j < f.len() ==> #[trigger] ((s * f[j]) % p) == comb(h, bb, j) % p,
    ensures
        is_comb(p, f, lin(h, h, inv, 0, bb.len()), bb),
{
    assert forall|j: int| 0 <= j < f.len() implies #[trigger] (comb(lin(h, h, inv, 0, bb.len()), bb, j) % p) == f[j] % p by {
        lemma_comb_lin(h, h, inv, 0, bb.len(), bb, j);
        lemma_unscale(p, s, inv, f[j], comb(h, bb, j));
        assert(inv * comb(h, bb, j) + 0 * comb(h, bb, j) == inv * comb(h, bb, j));
    }
}

/// An echelon basis of `rows` modulo `p`, with its pivot columns, and coefficients that
/// show each basis row to be a combination of `rows`, and each row of `rows` a combination
/// of the basis.
fn echelon_basis<const BASE: usize>(p: u64, rows: &[[u8; BASE]]) -> (r: (Vec<Vec<u64>>, Vec<usize>, Ghost<Seq<Seq<int>>>, Ghost<Seq<Seq<int>>>))
    requires
        is_prime(p as int),
        p < 0x1_0000_0000,
    ensures
        echelon(p as int, BASE as int, int_rows(r.0@), int_cols(r.1@)),
        r.2@.len() == r.0@.len(),
        forall|i: int| 0 <= i < r.0@.len() ==> #[trigger] is_comb(p as int, int_rows(r.0@)[i], r.2@[i], rows_view(rows@)),
        r.3@.len() == rows@.len(),
        forall|k: int| 0 <= k < rows@.len() ==> #[trigger] is_comb(p as int, rows_view(rows@)[k], r.3@[k], int_rows(r.0@)),
{
    let ghost pp = p as int;
    let ghost fr = rows_view(rows@);
    let mut basis: Vec<Vec<u64>> = Vec::new();
    let mut piv: Vec<usize> = Vec::new();
    let ghost mut e: Seq<Seq<int>> = Seq::empty();
    let ghost mut g: Seq<Seq<int>> = Seq::empty();
    let mut k: usize = 0;
    while k < rows.len()
        invariant
            pp == p,
            is_prime(pp),
            p < 0x1_0000_0000,
            fr == rows_view(rows@),
            k <= rows@.len(),
            echelon(pp, BASE as int, int_rows(basis@), int_cols(piv@)),
            e.len() == basis@.len(),
            forall|i: int| 0 <= i < basis@.len() ==> #[trigger] is_comb(pp, int_rows(basis@)[i], e[i], fr),
            g.len() == k,
            forall|kk: int| 0 <= kk < k ==> #[trigger] is_comb(pp, fr[kk], g[kk], int_rows(basis@)),
            forall|kk: int| 0 <= kk < k ==> (#[trigger] g[kk]).len() <= basis@.len(),
        decreases rows@.len() - k,
    {
        let ghost bb = int_rows(basis@);
        let w = to_residues(p, &rows[k]);
        let (red, Ghost(s), Ghost(h)) = reduce(p, &basis, &piv, BASE, w);
        let ghost f = fr[k as int];
        proof {
            assert(f == row_view(rows@[k as int]));
            assert(f.len() == BASE);
            // red == s * f - comb(h, bb), modulo p
            assert forall|j: int| 0 <= j < BASE implies #[trigger] ((red@[j] as int) % pp) == (s * f[j] - comb(h, bb, j)) % pp by {
                let c = comb(h, bb, j);
                lemma_small_mod(w@[j] as nat, pp as nat);
                lemma_mod_bound(f[j], pp);
                lemma_small_mod((f[j] % pp) as nat, pp as nat);
                lemma_mod_lin(pp, -c, -c, w@[j] as int, f[j], s);
                assert(-c + s * (w@[j] as int) == s * (w@[j] as int) - c);
                assert(-c + s * f[j] == s * f[j] - c);
            }
        }
        let ghost inv = lemma_inverse_of(pp, s);
        match nonzero_column(&red) {
            None => {
                proof {
                    assert forall|j: int| 0 <= j < f.len() implies #[trigger] ((s * f[j]) % pp) == comb(h, bb, j) % pp by {
                        let c = comb(h, bb, j);
                        assert(red@[j] == 0);
                        lemma_small_mod(0, pp as nat);
                        lemma_mod_lin(pp, s * f[j] - c, 0, c, c, 1);
                        assert(s * f[j] - c + 1 * c == s * f[j]);
                        assert(0 + 1 * c == c);
                    }
                    lemma_row_in_basis(pp, f, bb, s, inv, h);
                    g = g.push(lin(h, h, inv, 0, bb.len()));
                    assert forall|kk: int| 0 <= kk < k + 1 implies #[trigger] is_comb(pp, fr[kk], g[kk], int_rows(basis@)) by {
                        if kk < k {
                            assert(g[kk] == g.drop_last()[kk]);
                        }
                    }
                }
            },
            Some(q) => {
                let ghost nred = ints(red@);
                proof {
                    lemma_reduced_in_rows(pp, fr, k as int, bb, e, nred, s, h, BASE as int);
                    lemma_row_in_grown_basis(pp, f, bb, nred, s, inv, h);
                }
                let ghost opiv = piv@;
                basis.push(red);
                piv.push(q);
                proof {
                    let nb = int_rows(basis@);
                    assert(nb =~= bb.push(nred));
                    assert(int_cols(piv@) =~= int_cols(piv@.drop_last()).push(q as int));
                    e = e.push(lin(unit(k as int, fr.len()), compose(h, e, bb.len(), fr.len()), s, -1, fr.len()));
                    let gk = lin(h, unit(bb.len() as int, bb.len() + 1), inv, inv, bb.len() + 1);
                    assert forall|kk: int| 0 <= kk < k implies #[trigger] is_comb(pp, fr[kk], g[kk], nb) by {
                        assert(is_comb(pp, fr[kk], g[kk], bb));
                        assert forall|j: int| 0 <= j < fr[kk].len() implies #[trigger] (comb(g[kk], nb, j) % pp) == fr[kk][j] % pp by {
                            lemma_comb_push(g[kk], bb, nred, j);
                        }
                    }
                    g = g.push(gk);
                    assert forall|kk: int| 0 <= kk < k + 1 implies #[trigger] is_comb(pp, fr[kk], g[kk], nb) by {
                        if kk < k {
                            assert(g[kk] == g.drop_last()[kk]);
                        }
                    }
                    assert forall|i: int| 0 <= i < basis@.len() implies #[trigger] is_comb(pp, nb[i], e[i], fr) by {
                        if i < basis@.len() - 1 {
                            assert(nb[i] == bb[i]);
                            assert(e[i] == e.drop_last()[i]);
                        }
                    }
                    assert forall|kk: int| 0 <= kk < k + 1 implies (#[trigger] g[kk]).len() <= basis@.len() by {
                        if kk < k {
                            assert(g[kk] == g.drop_last()[kk]);
                        }
                    }
                    // the echelon form is kept
                    let ncols = int_cols(piv@);
                    let m = basis@.len() - 1;
                    assert(nb[m] == nred);
                    assert forall|i: int, l: int| 0 <= l < i < nb.len() implies #[trigger] nb[i][ncols[l]] == 0 by {
                        if i == m {
                            assert(ncols[l] == piv@[l] as int);
                            assert(opiv[l] == piv@[l]);
                            assert(int_cols(opiv)[l] == opiv[l] as int);
                            assert(bb[l].len() == BASE);
                            assert(0 <= opiv[l] < BASE);
                            assert(red@[opiv[l] as int] == 0);
                            assert(nred[opiv[l] as int] == 0);
                        } else {
                            assert(nb[i] == bb[i]);
                            assert(ncols[l] == int_cols(opiv)[l]);
                            assert(bb[i][int_cols(opiv)[l]] == 0);
                        }
                    }
                    assert forall|i: int| 0 <= i < nb.len() implies (#[trigger] nb[i]).len() == BASE && 0 <= ncols[i] < BASE && nb[i][ncols[i]] != 0 by {
                        if i < m {
                            assert(nb[i] == bb[i]);
                            assert(ncols[i] == int_cols(opiv)[i]);
                        }
                    }
                    assert forall|i: int, j: int| 0 <= i < nb.len() && 0 <= j < BASE implies 0 <= #[trigger] nb[i][j] < pp by {
                        if i < m {
                            assert(nb[i] == bb[i]);
                        }
                    }
                }
            },
        }
        k = k + 1;
    }
    (basis, piv, Ghost(e), Ghost(g))
}

/// Whether `v` lies in the span of `fixed` over the field.
pub fn is_in_span<const BASE: usize>(field: &PrimeField, v: &[u8; BASE], fixed: &[[u8; BASE]]) -> (r: bool)
    ensures
        r == in_span(field.modulus(), row_view(*v), rows_view(fixed@)),
{
    let p = field.order();
    let ghost pp = p as int;
    let ghost fr = rows_view(fixed@);
    let ghost vv = row_view(*v);
    let (basis, piv, Ghost(e), Ghost(g)) = echelon_basis(p, fixed);
    let ghost bb = int_rows(basis@);
    let w = to_residues(p, v);
    let (red, Ghost(s), Ghost(h)) = reduce(p, &basis, &piv, BASE, w);
    proof {
        // red == s * v - comb(h, bb), modulo p
        assert forall|j: int| 0 <= j < BASE implies #[trigger] ((red@[j] as int) % pp) == (s * vv[j] - comb(h, bb, j)) % pp by {
            let c = comb(h, bb, j);
            lemma_small_mod(w@[j] as nat, pp as nat);
            lemma_mod_bound(vv[j], pp);
            lemma_small_mod((vv[j] % pp) as nat, pp as nat);
            lemma_mod_lin(pp, -c, -c, w@[j] as int, vv[j], s);
            assert(-c + s * (w@[j] as int) == s * (w@[j] as int) - c);
            assert(-c + s * vv[j] == s * vv[j] - c);
        }
    }
    let ghost inv = lemma_inverse_of(pp, s);
    match nonzero_column(&red) {
        None => {
            proof {
                let cc = compose(h, e, bb.len(), fr.len());
                let c = lin(cc, cc, inv, 0, fr.len());
                assert forall|j: int| 0 <= j < vv.len() implies #[trigger] (comb(c, fr, j) % pp) == vv[j] % pp by {
                    assert forall|i: int| 0 <= i < bb.len() implies #[trigger] (comb(e[i], fr, j) % pp) == bb[i][j] % pp by {
                        assert(is_comb(pp, bb[i], e[i], fr));
                    }
                    lemma_comb_compose(pp, h, bb, e, fr, fr.len(), j);
                    lemma_comb_lin(cc, cc, inv, 0, fr.len(), fr, j);
                    let ch = comb(h, bb, j);
                    assert(red@[j] == 0);
                    lemma_small_mod(0, pp as nat);
                    lemma_mod_lin(pp, s * vv[j] - ch, 0, ch, ch, 1);
                    assert(s * vv[j] - ch + 1 * ch == s * vv[j]);
                    assert(0 + 1 * ch == ch);
                    lemma_unscale(pp, s, inv, vv[j], comb(cc, fr, j));
                    assert(inv * comb(cc, fr, j) + 0 * comb(cc, fr, j) == inv * comb(cc, fr, j));
                }
                assert(is_comb(pp, vv, c, fr));
            }
            true
        },
        Some(q) => {
            proof {
                if in_span(pp, vv, fr) {
                    let c = choose|c: Seq<int>| #[trigger] is_comb(pp, vv, c, fr);
                    let gc = compose(c, g, fr.len(), bb.len());
                    let z = lin(gc, h, s, -1, bb.len());
                    assert forall|j: int| 0 <= j < BASE implies #[trigger] (comb(z, bb, j) % pp) == (red@[j] as int) % pp by {
                        assert forall|k: int| 0 <= k < fr.len() implies #[trigger] (comb(g[k], bb, j) % pp) == fr[k][j] % pp by {
                            assert(is_comb(pp, fr[k], g[k], bb));
                            assert(fr[k] == row_view(fixed@[k]));
                        }
                        lemma_comb_compose(pp, c, fr, g, bb, bb.len(), j);
                        lemma_comb_lin(gc, h, s, -1, bb.len(), bb, j);
                        let ch = comb(h, bb, j);
                        lemma_mod_lin(pp, -ch, -ch, vv[j], comb(gc, bb, j), s);
                        assert(-ch + s * vv[j] == s * vv[j] - ch);
                        assert(-ch + s * comb(gc, bb, j) == s * comb(gc, bb, j) + -1 * ch);
                    }
                    let cols = int_cols(piv@);
                    assert forall|i: int| 0 <= i < bb.len() implies #[trigger] comb(z, bb, cols[i]) % pp == 0 by {
                        assert(bb[i].len() == BASE);
                        assert(cols[i] == piv@[i] as int);
                        assert(red@[piv@[i] as int] == 0);
                        lemma_small_mod(0, pp as nat);
                    }
                    lemma_echelon_independent(pp, BASE as int, bb, cols, z, bb.len() as int);
                    lemma_comb_zero_mod(pp, z, bb, q as int);
                    lemma_small_mod(red@[q as int] as nat, pp as nat);
                    assert(false);
                }
            }
            false
        },
    }
}

/// A row in the span of the rows before it makes the rows dependent.
proof fn lemma_dependent_from_span(p: int, fr: Seq<Seq<int>>, k: int, n: nat)
    requires
        p > 1,
        0 <= k < fr.len(),
        fr[k].len() == n,
        in_span(p, fr[k], fr.take(k)),
    ensures
        dependent(p, fr, n),
{
    let pre = fr.take(k);
    let c = choose|c: Seq<int>| #[trigger] is_comb(p, fr[k], c, pre);
    let ct = Seq::new(k as nat, |l: int| coef(c, l));
    let m = (k + 1) as nat;
    let c2 = lin(ct, unit(k, m), 1, -1, m);
    let t = fr.take(k + 1);
    assert forall|j: int| 0 <= j < zeros(n).len() implies #[trigger] (comb(c2, fr, j) % p) == zeros(n)[j] % p by {
        lemma_comb_take(c2, fr, k + 1, j);
        lemma_comb_lin(ct, unit(k, m), 1, -1, m, t, j);
        lemma_comb_unit(k, m, t, j);
        assert(t.take(k) =~= pre);
        lemma_comb_take(ct, t, k, j);
        lemma_comb_agree(ct, c, pre, j);
        assert(is_comb(p, fr[k], c, pre));
        let a = comb(c, pre, j);
        let b = fr[k][j];
        assert(t[k] == fr[k]);
        lemma_mod_lin(p, a, b, b, b, -1);
        assert(1 * a == a);
        assert(b + -1 * b == 0);
        lemma_small_mod(0, p as nat);
    }
    assert(coef(c2, k) == -1);
    lemma_fundamental_div_mod_converse_mod(-1, p, -1, p - 1);
    assert(coef(c2, k) % p != 0);
    assert(is_comb(p, zeros(n), c2, fr));
}

/// Rows that are independent stay so when a row outside their span is appended.
proof fn lemma_independent_step(p: int, pre: Seq<Seq<int>>, f: Seq<int>, n: nat)
    requires
        is_prime(p),
        !dependent(p, pre, n),
        !in_span(p, f, pre),
        f.len() == n,
    ensures
        !dependent(p, pre.push(f), n),
{
    let nw = pre.push(f);
    let k = pre.len() as int;
    if dependent(p, nw, n) {
        let c = choose|c: Seq<int>| #[trigger] is_comb(p, zeros(n), c, nw) && exists|l: int| 0 <= l < nw.len() && #[trigger] coef(c, l) % p != 0;
        let l = choose|l: int| 0 <= l < nw.len() && #[trigger] coef(c, l) % p != 0;
        let ck = coef(c, k);
        assert(nw.drop_last() =~= pre);
        if ck % p == 0 {
            assert forall|j: int| 0 <= j < zeros(n).len() implies #[trigger] (comb(c, pre, j) % p) == zeros(n)[j] % p by {
                let a = comb(c, pre, j);
                let b = ck * f[j];
                assert(comb(c, nw, j) == a + b);
                assert(comb(c, nw, j) % p == zeros(n)[j] % p);
                lemma_mul_mod_noop_left(ck, f[j], p);
                assert((ck % p) * f[j] == 0);
                lemma_small_mod(0, p as nat);
                lemma_mod_lin(p, a, a, b, 0, 1);
                assert(a + 1 * b == a + b);
                assert(a + 1 * 0 == a);
            }
            assert(is_comb(p, zeros(n), c, pre));
            assert(l < k);
            assert(dependent(p, pre, n));
        } else {
            let inv = lemma_inverse_of(p, ck);
            let c3 = lin(c, c, -inv, 0, pre.len());
            assert forall|j: int| 0 <= j < f.len() implies #[trigger] (comb(c3, pre, j) % p) == f[j] % p by {
                let a = comb(c, pre, j);
                let b = ck * f[j];
                assert(comb(c, nw, j) == a + b);
                assert(comb(c, nw, j) % p == zeros(n)[j] % p);
                lemma_small_mod(0, p as nat);
                lemma_mod_lin(p, a + b, 0, a, a, -1);
                assert(a + b + -1 * a == b);
                assert(0 + -1 * a == -a);
                lemma_unscale(p, ck, inv, f[j], -a);
                lemma_comb_lin(c, c, -inv, 0, pre.len(), pre, j);
                assert(-inv * a + 0 * a == inv * (-a)) by (nonlinear_arith);
            }
            assert(is_comb(p, f, c3, pre));
        }
    }
}

/// Whether the rank of `rows` over the field is below both their number and `BASE`.
pub fn is_rank_deficient<const BASE: usize>(field: &PrimeField, rows: &[[u8; BASE]]) -> (r: bool)
    ensures
        r == rank_deficient(field.modulus(), rows_view(rows@), BASE as nat),
{
    let p = field.order();
    let ghost pp = p as int;
    let ghost fr = rows_view(rows@);
    if rows.len() <= BASE {
        let mut prefix: Vec<[u8; BASE]> = Vec::new();
        let mut k: usize = 0;
        while k < rows.len()
            invariant
                pp == field.modulus(),
                is_prime(pp),
                fr == rows_view(rows@),
                k <= rows@.len(),
                prefix@ == rows@.take(k as int),
                !dependent(pp, rows_view(prefix@), BASE as nat),
                rows@.len() <= BASE,
            decreases rows@.len() - k,
        {
            proof {
                assert(rows_view(prefix@) =~= fr.take(k as int));
                assert(fr[k as int] == row_view(rows@[k as int]));
            }
            if is_in_span(field, &rows[k], prefix.as_slice()) {
                proof {
                    lemma_dependent_from_span(pp, fr, k as int, BASE as nat);
                    assert(fr.len() == rows@.len());
                }
                return true;
            }
            proof {
                lemma_independent_step(pp, rows_view(prefix@), fr[k as int], BASE as nat);
            }
            prefix.push(rows[k]);
            proof {
                assert(rows_view(prefix@) =~= rows_view(rows@.take(k as int)).push(fr[k as int]));
                assert(rows@.take(k + 1) =~= rows@.take(k as int).push(rows@[k as int]));
            }
            k = k + 1;
        }
        proof {
            assert(rows@.take(k as int) =~= rows@);
        }
        false
    } else {
        let mut j: usize = 0;
        while j < BASE
            invariant
                pp == field.modulus(),
                fr == rows_view(rows@),
                j <= BASE,
                rows@.len() > BASE,
                forall|jj: int| 0 <= jj < j ==> #[trigger] in_span(pp, unit(jj, BASE as nat), fr),
            decreases BASE - j,
        {
            let mut e: [u8; BASE] = [0u8; BASE];
            e[j] = 1;
            proof {
                assert(row_view(e) =~= unit(j as int, BASE as nat));
            }
            if !is_in_span(field, &e, rows) {
                proof {
                    assert(fr.len() == rows@.len());
                    assert(!in_span(pp, unit(j as int, BASE as nat), fr));
                }
                return true;
            }
            j = j + 1;
        }
        false
    }
}

} // verus!
