//! Laws of spans and of the feasibility check.
use crate::echelon::{row_view, rows_view};
use crate::span::{
    coef, comb, compose, in_span, is_comb, lemma_comb_compose, lemma_comb_lin, lemma_comb_unit, lemma_mod_lin, lin, unit,
};
use crate::model::{AlgebraicRepresentation, CollisionStructure};
use vstd::prelude::*;

verus! {

/// Every row of `f` is a row of `g`.
pub open spec fn rows_within(f: Seq<Seq<int>>, g: Seq<Seq<int>>) -> bool {
    forall|i: int| 0 <= i < f.len() ==> #[trigger] g.contains(f[i])
}

/// Adding rows keeps what is in the span: a vector in the span of `f` is in the span of
/// any `g` that holds every row of `f`.
pub proof fn lemma_span_superset(p: int, v: Seq<int>, f: Seq<Seq<int>>, g: Seq<Seq<int>>)
    requires
        p > 1,
        rows_within(f, g),
        in_span(p, v, f),
    ensures
        in_span(p, v, g),
{
    let c = choose|c: Seq<int>| #[trigger] is_comb(p, v, c, f);
    let idx = Seq::new(f.len(), |i: int| choose|l: int| 0 <= l < g.len() && g[l] == f[i]);
    let gc = Seq::new(f.len(), |i: int| unit(idx[i], g.len()));
    let w = compose(c, gc, f.len(), g.len());
    assert forall|j: int| 0 <= j < v.len() implies #[trigger] (comb(w, g, j) % p) == v[j] % p by {
        assert forall|k: int| 0 <= k < f.len() implies #[trigger] (comb(gc[k], g, j) % p) == f[k][j] % p by {
            assert(g.contains(f[k]));
            let l = idx[k];
            assert(0 <= l < g.len() && g[l] == f[k]);
            lemma_comb_unit(l, g.len(), g, j);
        }
        lemma_comb_compose(p, c, f, gc, g, g.len(), j);
    }
    assert(is_comb(p, v, w, g));
}

/// Appending a row keeps what is in the span.
pub proof fn lemma_span_push(p: int, u: Seq<int>, f: Seq<Seq<int>>, v: Seq<int>)
    requires
        p > 1,
        in_span(p, u, f),
    ensures
        in_span(p, u, f.push(v)),
{
    let g = f.push(v);
    assert forall|i: int| 0 <= i < f.len() implies #[trigger] g.contains(f[i]) by {
        assert(g[i] == f[i]);
    }
    lemma_span_superset(p, u, f, g);
}

/// A row that is in the span of `f` adds nothing to it.
proof fn lemma_span_absorbed(p: int, u: Seq<int>, f: Seq<Seq<int>>, v: Seq<int>)
    requires
        p > 1,
        u.len() <= v.len(),
        in_span(p, v, f),
        in_span(p, u, f.push(v)),
    ensures
        in_span(p, u, f),
{
    let g = f.push(v);
    let c = choose|c: Seq<int>| #[trigger] is_comb(p, u, c, g);
    let cv = choose|c: Seq<int>| #[trigger] is_comb(p, v, c, f);
    let cl = coef(c, f.len() as int);
    let w = lin(c, cv, 1, cl, f.len());
    assert forall|j: int| 0 <= j < u.len() implies #[trigger] (comb(w, f, j) % p) == u[j] % p by {
        assert(g.drop_last() =~= f);
        assert(comb(c, g, j) == comb(c, f, j) + cl * v[j]);
        assert(is_comb(p, v, cv, f));
        lemma_mod_lin(p, comb(c, f, j), comb(c, f, j), v[j], comb(cv, f, j), cl);
        lemma_comb_lin(c, cv, 1, cl, f.len(), f, j);
        assert(1 * comb(c, f, j) == comb(c, f, j));
    }
    assert(is_comb(p, u, w, f));
}

/// Span monotonicity: `v` is in the span of `f` exactly when appending `v` to `f` leaves
/// the span unchanged, over vectors of `n` coordinates.
pub proof fn lemma_span_monotone(p: int, v: Seq<int>, f: Seq<Seq<int>>, n: nat)
    requires
        p > 1,
        v.len() == n,
    ensures
        in_span(p, v, f) <==> (forall|u: Seq<int>| u.len() == n ==> (#[trigger] in_span(p, u, f.push(v)) <==> in_span(p, u, f))),
{
    if in_span(p, v, f) {
        assert forall|u: Seq<int>| u.len() == n implies (#[trigger] in_span(p, u, f.push(v)) <==> in_span(p, u, f)) by {
            if in_span(p, u, f) {
                lemma_span_push(p, u, f, v);
            }
            if in_span(p, u, f.push(v)) {
                lemma_span_absorbed(p, u, f, v);
            }
        }
    } else {
        let g = f.push(v);
        let e = unit(f.len() as int, g.len());
        assert forall|j: int| 0 <= j < v.len() implies #[trigger] (comb(e, g, j) % p) == v[j] % p by {
            lemma_comb_unit(f.len() as int, g.len(), g, j);
        }
        assert(is_comb(p, v, e, g));
        assert(in_span(p, v, g));
    }
}

/// The agreeing queries and the differing queries of a well-formed structure partition
/// `0..N`: together they have `N` entries, none is in both, and every query is in one.
pub proof fn lemma_same_different_partition<const N: usize, const DIFF: usize>(cs: CollisionStructure<N, DIFF>)
    requires
        cs.wf(),
    ensures
        cs.permutation@.take(cs.n_same()).len() + DIFF == N,
        forall|t: int, u: int| 0 <= t < cs.n_same() && 0 <= u < DIFF ==> #[trigger] cs.permutation@.take(cs.n_same())[t] != #[trigger] cs.diff_at(u).0,
        forall|i: int| 0 <= i < N ==> #[trigger] cs.permutation@.take(cs.n_same()).contains(i as usize) || exists|u: int| 0 <= u < DIFF && #[trigger] cs.diff_at(u).0 == i,
{
    let same = cs.permutation@.take(cs.n_same());
    assert forall|t: int, u: int| 0 <= t < cs.n_same() && 0 <= u < DIFF implies #[trigger] same[t] != #[trigger] cs.diff_at(u).0 by {
        assert(same[t] == cs.permutation@[t]);
    }
    assert forall|i: int| 0 <= i < N implies #[trigger] same.contains(i as usize) || exists|u: int| 0 <= u < DIFF && #[trigger] cs.diff_at(u).0 == i by {
        assert(cs.permutation@.contains(i as usize));
        let t = choose|t: int| 0 <= t < cs.permutation@.len() && cs.permutation@[t] == i as usize;
        if t < cs.n_same() {
            assert(same[t] == i as usize);
        } else {
            assert(cs.diff_at(t - cs.n_same()).0 == i);
        }
    }
}

/// A row of a concatenation is a row of one of its parts.
proof fn lemma_contains_add<A>(a: Seq<A>, b: Seq<A>, r: A)
    ensures
        (a + b).contains(r) <==> (a.contains(r) || b.contains(r)),
{
    if (a + b).contains(r) {
        let i = choose|i: int| 0 <= i < (a + b).len() && (a + b)[i] == r;
        if i >= a.len() {
            assert(b[i - a.len()] == r);
        }
    }
    if a.contains(r) {
        let i = choose|i: int| 0 <= i < a.len() && a[i] == r;
        assert((a + b)[i] == r);
    }
    if b.contains(r) {
        let i = choose|i: int| 0 <= i < b.len() && b[i] == r;
        assert((a + b)[a.len() + i] == r);
    }
}

/// Rows of one sequence that are all rows of another stay so when both are read as vectors.
proof fn lemma_rows_within_view<const BASE: usize>(f: Seq<[u8; BASE]>, g: Seq<[u8; BASE]>)
    requires
        forall|i: int| 0 <= i < f.len() ==> #[trigger] g.contains(f[i]),
    ensures
        rows_within(rows_view(f), rows_view(g)),
{
    assert forall|i: int| 0 <= i < rows_view(f).len() implies #[trigger] rows_view(g).contains(rows_view(f)[i]) by {
        assert(g.contains(f[i]));
        let l = choose|l: int| 0 <= l < g.len() && g[l] == f[i];
        assert(rows_view(g)[l] == rows_view(f)[i]);
    }
}

impl<const BASE: usize, const N: usize, const OUT: usize> AlgebraicRepresentation<BASE, N, OUT> {
    /// The fixed rows only grow: those fixed before entry `t` of the differing part are the
    /// first of those fixed before any later entry.
    pub proof fn lemma_fixed_grows<const DIFF: usize>(self, cs: CollisionStructure<N, DIFF>, t: int, t2: int)
        requires
            0 <= t <= t2,
        ensures
            self.fixed_before(cs, t2).take(self.fixed_before(cs, t).len() as int) == self.fixed_before(cs, t),
            self.fixed_before(cs, t).len() <= self.fixed_before(cs, t2).len(),
        decreases t2,
    {
        if t2 > t {
            self.lemma_fixed_grows(cs, t, t2 - 1);
            let a = self.fixed_before(cs, t2 - 1);
            assert((a + self.step_rows(cs, t2 - 1)).take(a.len() as int) =~= a);
            assert(self.fixed_before(cs, t2).take(self.fixed_before(cs, t).len() as int) =~= a.take(self.fixed_before(cs, t).len() as int));
        } else {
            assert(self.fixed_before(cs, t2).take(self.fixed_before(cs, t).len() as int) =~= self.fixed_before(cs, t));
        }
    }

    /// Once a row is determined by what is fixed before entry `t` of the differing part, it
    /// stays determined before every later entry: fixing more cannot free it again.
    pub proof fn lemma_determined_stays<const DIFF: usize>(self, cs: CollisionStructure<N, DIFF>, p: int, v: Seq<int>, t: int, t2: int)
        requires
            p > 1,
            0 <= t <= t2,
            in_span(p, v, rows_view(self.fixed_before(cs, t))),
        ensures
            in_span(p, v, rows_view(self.fixed_before(cs, t2))),
    {
        self.lemma_fixed_grows(cs, t, t2);
        let f = self.fixed_before(cs, t);
        let g = self.fixed_before(cs, t2);
        assert forall|i: int| 0 <= i < f.len() implies #[trigger] g.contains(f[i]) by {
            assert(g[i] == g.take(f.len() as int)[i]);
        }
        lemma_rows_within_view(f, g);
        lemma_span_superset(p, v, rows_view(f), rows_view(g));
    }

    /// The rows agreed before the queries differ depend on the agreeing entries alone.
    proof fn lemma_same_rows_agree<const DIFF: usize>(self, cs: CollisionStructure<N, DIFF>, cs2: CollisionStructure<N, DIFF>, t: int)
        requires
            forall|u: int| 0 <= u < t ==> #[trigger] cs.permutation@[u] == cs2.permutation@[u],
        ensures
            self.same_rows(cs, t) == self.same_rows(cs2, t),
        decreases t,
    {
        if t > 0 {
            self.lemma_same_rows_agree(cs, cs2, t - 1);
        }
    }

    /// A row is fixed before entry `t` exactly when it is shared from the start or added by
    /// an earlier entry.
    proof fn lemma_fixed_rows<const DIFF: usize>(self, cs: CollisionStructure<N, DIFF>, t: int, r: [u8; BASE])
        requires
            t >= 0,
        ensures
            self.fixed_before(cs, t).contains(r) <==> (self.seed(cs).contains(r) || exists|u: int| 0 <= u < t && #[trigger] self.step_rows(cs, u).contains(r)),
        decreases t,
    {
        if t > 0 {
            self.lemma_fixed_rows(cs, t - 1, r);
            lemma_contains_add(self.fixed_before(cs, t - 1), self.step_rows(cs, t - 1), r);
        }
    }

    /// Swapping two entries `a` and `b` of the differing part, each with its direction, leaves
    /// the span of all the rows fixed at the end unchanged.
    pub proof fn lemma_swap_keeps_span<const DIFF: usize>(self, cs: CollisionStructure<N, DIFF>, cs2: CollisionStructure<N, DIFF>, a: int, b: int, p: int, v: Seq<int>)
        requires
            p > 1,
            DIFF <= N,
            0 <= a < DIFF,
            0 <= b < DIFF,
            forall|t: int| 0 <= t < cs.n_same() ==> #[trigger] cs2.permutation@[t] == cs.permutation@[t],
            cs2.diff_at(a) == cs.diff_at(b),
            cs2.diff_at(b) == cs.diff_at(a),
            forall|u: int| 0 <= u < DIFF && u != a && u != b ==> #[trigger] cs2.diff_at(u) == cs.diff_at(u),
        ensures
            in_span(p, v, rows_view(self.fixed_before(cs, DIFF as int))) <==> in_span(p, v, rows_view(self.fixed_before(cs2, DIFF as int))),
    {
        self.lemma_same_rows_agree(cs, cs2, cs.n_same());
        assert(self.seed(cs) == self.seed(cs2));
        let f1 = self.fixed_before(cs, DIFF as int);
        let f2 = self.fixed_before(cs2, DIFF as int);
        let sw = |u: int| if u == a { b } else if u == b { a } else { u };
        assert forall|u: int| 0 <= u < DIFF implies #[trigger] self.step_rows(cs2, u) == self.step_rows(cs, sw(u)) by {}
        assert forall|i: int| 0 <= i < f1.len() implies #[trigger] f2.contains(f1[i]) by {
            let r = f1[i];
            self.lemma_fixed_rows(cs, DIFF as int, r);
            self.lemma_fixed_rows(cs2, DIFF as int, r);
            if !self.seed(cs).contains(r) {
                let u = choose|u: int| 0 <= u < DIFF && #[trigger] self.step_rows(cs, u).contains(r);
                assert(self.step_rows(cs2, sw(u)).contains(r));
            }
        }
        assert forall|i: int| 0 <= i < f2.len() implies #[trigger] f1.contains(f2[i]) by {
            let r = f2[i];
            self.lemma_fixed_rows(cs, DIFF as int, r);
            self.lemma_fixed_rows(cs2, DIFF as int, r);
            if !self.seed(cs).contains(r) {
                let u = choose|u: int| 0 <= u < DIFF && #[trigger] self.step_rows(cs2, u).contains(r);
                assert(self.step_rows(cs, sw(u)).contains(r));
            }
        }
        lemma_rows_within_view(f1, f2);
        lemma_rows_within_view(f2, f1);
        if in_span(p, v, rows_view(f1)) {
            lemma_span_superset(p, v, rows_view(f1), rows_view(f2));
        }
        if in_span(p, v, rows_view(f2)) {
            lemma_span_superset(p, v, rows_view(f2), rows_view(f1));
        }
    }
}

/// Two runs take the same differing queries, in the same order and directions.
pub open spec fn same_differing<const BASE: usize, const N: usize, const OUT: usize, const DIFF: usize>(
    p1: AlgebraicRepresentation<BASE, N, OUT>,
    cs1: CollisionStructure<N, DIFF>,
    p2: AlgebraicRepresentation<BASE, N, OUT>,
    cs2: CollisionStructure<N, DIFF>,
) -> bool {
    forall|u: int| 0 <= u < DIFF ==> {
        &&& #[trigger] cs1.diff_at(u).1 == cs2.diff_at(u).1
        &&& p1.constraints@[cs1.diff_at(u).0] == p2.constraints@[cs2.diff_at(u).0]
    }
}

/// With the same differing queries, rows fixed in the first run before entry `t` are fixed
/// in the second, when the second shares every row that the first shares.
proof fn lemma_fixed_within<const BASE: usize, const N: usize, const OUT: usize, const DIFF: usize>(
    p1: AlgebraicRepresentation<BASE, N, OUT>,
    cs1: CollisionStructure<N, DIFF>,
    p2: AlgebraicRepresentation<BASE, N, OUT>,
    cs2: CollisionStructure<N, DIFF>,
    t: int,
)
    requires
        0 <= t <= DIFF,
        same_differing(p1, cs1, p2, cs2),
        forall|i: int| 0 <= i < p1.seed(cs1).len() ==> #[trigger] p2.seed(cs2).contains(p1.seed(cs1)[i]),
    ensures
        forall|i: int| 0 <= i < p1.fixed_before(cs1, t).len() ==> #[trigger] p2.fixed_before(cs2, t).contains(p1.fixed_before(cs1, t)[i]),
    decreases t,
{
    if t > 0 {
        lemma_fixed_within(p1, cs1, p2, cs2, t - 1);
        let a1 = p1.fixed_before(cs1, t - 1);
        let a2 = p2.fixed_before(cs2, t - 1);
        assert(cs1.diff_at(t - 1).1 == cs2.diff_at(t - 1).1);
        let st = p1.step_rows(cs1, t - 1);
        assert(st == p2.step_rows(cs2, t - 1));
        assert forall|i: int| 0 <= i < p1.fixed_before(cs1, t).len() implies #[trigger] p2.fixed_before(cs2, t).contains(p1.fixed_before(cs1, t)[i]) by {
            let r = p1.fixed_before(cs1, t)[i];
            lemma_contains_add(a2, st, r);
            if i < a1.len() {
                assert(r == a1[i]);
                assert(a2.contains(r));
            } else {
                assert(r == st[i - a1.len()]);
                assert(st.contains(r));
            }
        }
    }
}

/// Rejection persists: where a second run shares every row that a first run shares and
/// takes the same differing queries, a check that rejects in the first rejects in the second,
/// at the divergence point and at every entry `t`, and so the second is rejected too.
pub proof fn lemma_rejection_persists<const BASE: usize, const N: usize, const OUT: usize, const DIFF: usize>(
    p1: AlgebraicRepresentation<BASE, N, OUT>,
    cs1: CollisionStructure<N, DIFF>,
    p2: AlgebraicRepresentation<BASE, N, OUT>,
    cs2: CollisionStructure<N, DIFF>,
    p: int,
)
    requires
        p > 1,
        1 <= DIFF,
        same_differing(p1, cs1, p2, cs2),
        forall|i: int| 0 <= i < p1.seed(cs1).len() ==> #[trigger] p2.seed(cs2).contains(p1.seed(cs1)[i]),
    ensures
        !p1.star_open(cs1, p) ==> !p2.star_open(cs2, p),
        forall|t: int| 0 <= t < DIFF && !#[trigger] p1.step_open(cs1, p, t) ==> !p2.step_open(cs2, p, t),
        !p1.admits(cs1, p) ==> !p2.admits(cs2, p),
{
    let s1 = p1.seed(cs1);
    let s2 = p2.seed(cs2);
    lemma_rows_within_view(s1, s2);
    assert(cs1.diff_at(0).1 == cs2.diff_at(0).1);
    if !p1.star_open(cs1, p) {
        let (a, b) = p1.constraints@[cs1.diff_at(0).0].star_sides(cs1.diff_at(0).1);
        lemma_span_superset(p, row_view(a), rows_view(s1), rows_view(s2));
        lemma_span_superset(p, row_view(b), rows_view(s1), rows_view(s2));
    }
    assert forall|t: int| 0 <= t < DIFF && !#[trigger] p1.step_open(cs1, p, t) implies !p2.step_open(cs2, p, t) by {
        lemma_fixed_within(p1, cs1, p2, cs2, t);
        assert(cs1.diff_at(t).1 == cs2.diff_at(t).1);
        let (free, f1, f2) = p1.constraints@[cs1.diff_at(t).0].split(cs1.diff_at(t).1);
        let g1 = p1.fixed_before(cs1, t).push(f1).push(f2);
        let g2 = p2.fixed_before(cs2, t).push(f1).push(f2);
        assert forall|i: int| 0 <= i < g1.len() implies #[trigger] g2.contains(g1[i]) by {
            if i < p1.fixed_before(cs1, t).len() {
                let r = g1[i];
                assert(r == p1.fixed_before(cs1, t)[i]);
                assert(p2.fixed_before(cs2, t).contains(r));
                let l = choose|l: int| 0 <= l < p2.fixed_before(cs2, t).len() && p2.fixed_before(cs2, t)[l] == r;
                assert(g2[l] == r);
            } else if i == p1.fixed_before(cs1, t).len() {
                assert(g2[p2.fixed_before(cs2, t).len() as int] == f1);
            } else {
                assert(g2[p2.fixed_before(cs2, t).len() + 1int] == f2);
            }
        }
        lemma_rows_within_view(g1, g2);
        lemma_span_superset(p, row_view(free), rows_view(g1), rows_view(g2));
    }
}

} // verus!
