//! Linicrypt programs in algebraic form, collision structures, and whether a program
//! admits a structure.
use crate::echelon::{is_in_span, is_rank_deficient, row_view, rows_view};
use crate::field::PrimeField;
use crate::span::{in_span, rank_deficient};
use vstd::prelude::*;
use vstd::string::StringExecFns;

verus! {

/// The operation of a call to the ideal primitive.
#[derive(Debug, Clone, Copy, PartialEq, Eq, Structural)]
pub enum Operation {
    /// Evaluation.
    E,
    /// Inversion; declared for inverse-queryable primitives and not interpreted anywhere.
    D,
}

/// One call to the ideal primitive: inputs `k` and `x` and output `y`, each a row over the wires.
#[derive(Debug, Clone, Copy, PartialEq, Eq)]
pub struct Constraint<const BASE: usize> {
    pub op: Operation,
    pub k: [u8; BASE],
    pub x: [u8; BASE],
    pub y: [u8; BASE],
}

/// A program over `BASE` wires: `OUT` output rows `m` and `N` calls to the primitive, in order.
#[derive(Debug, Clone, Copy)]
pub struct AlgebraicRepresentation<const BASE: usize, const N: usize, const OUT: usize> {
    pub m: [[u8; BASE]; OUT],
    pub constraints: [Constraint<BASE>; N],
}

/// Which side of a query stays free where the two executions differ.
#[derive(Debug, Clone, Copy, PartialEq, Eq, Structural)]
pub enum Direction {
    /// Forward: the output `y` stays free.
    F,
    /// Backward: the input `x` stays free.
    B,
}

/// A candidate collision pattern over `N` queries: the first `N - DIFF` entries of
/// `permutation` are the queries on which the two executions agree, the last `DIFF` those
/// on which they differ, each with its direction in `cs_type`.
#[derive(Debug, Clone, Copy, PartialEq, Eq)]
pub struct CollisionStructure<const N: usize, const DIFF: usize> {
    pub permutation: [usize; N],
    pub cs_type: [Direction; DIFF],
}

/// The decimal digits of `n`.
pub open spec fn decimal(n: nat) -> Seq<char>
    decreases n,
{
    if n < 10 {
        seq![digit_char(n)]
    } else {
        decimal(n / 10) + seq![digit_char(n % 10)]
    }
}

/// The character of a decimal digit.
pub open spec fn digit_char(d: nat) -> char {
    (('0' as u8) + (d as u8)) as char
}

/// The decimal texts of the first `t` entries of `s`, one after the other.
pub open spec fn decimals(s: Seq<usize>, t: int) -> Seq<char>
    decreases t,
{
    if t <= 0 {
        Seq::empty()
    } else {
        decimals(s, t - 1) + decimal(s[t - 1] as nat)
    }
}

/// The letters of the first `t` directions of `s`, one after the other.
pub open spec fn direction_letters(s: Seq<Direction>, t: int) -> Seq<char>
    decreases t,
{
    if t <= 0 {
        Seq::empty()
    } else {
        direction_letters(s, t - 1) + s[t - 1].letter()
    }
}

/// The decimal text of `n`.
pub fn decimal_string(n: usize) -> (r: String)
    ensures
        r@ == decimal(n as nat),
    decreases n,
{
    let d = n % 10;
    let text = if d == 0 {
        proof { reveal_strlit("0"); }
        "0"
    } else if d == 1 {
        proof { reveal_strlit("1"); }
        "1"
    } else if d == 2 {
        proof { reveal_strlit("2"); }
        "2"
    } else if d == 3 {
        proof { reveal_strlit("3"); }
        "3"
    } else if d == 4 {
        proof { reveal_strlit("4"); }
        "4"
    } else if d == 5 {
        proof { reveal_strlit("5"); }
        "5"
    } else if d == 6 {
        proof { reveal_strlit("6"); }
        "6"
    } else if d == 7 {
        proof { reveal_strlit("7"); }
        "7"
    } else if d == 8 {
        proof { reveal_strlit("8"); }
        "8"
    } else {
        proof { reveal_strlit("9"); }
        "9"
    };
    if n < 10 {
        String::from_str(text)
    } else {
        let mut r = decimal_string(n / 10);
        r.append(text);
        r
    }
}

impl Direction {
    /// The letter of the direction.
    pub open spec fn letter(self) -> Seq<char> {
        match self {
            Direction::F => seq!['F'],
            Direction::B => seq!['B'],
        }
    }

    /// The letter of the direction, as text.
    pub fn to_string(&self) -> (r: String)
        ensures
            r@ == self.letter(),
    {
        match self {
            Direction::F => {
                proof { reveal_strlit("F"); }
                String::from_str("F")
            },
            Direction::B => {
                proof { reveal_strlit("B"); }
                String::from_str("B")
            },
        }
    }
}

impl<const BASE: usize> Constraint<BASE> {
    /// The rows `k`, `x`, `y` of the query.
    pub open spec fn rows(self) -> Seq<[u8; BASE]> {
        seq![self.k, self.x, self.y]
    }

    /// For a query taken in direction `d`: the side that must stay free, then the two that
    /// are fixed.
    pub open spec fn split(self, d: Direction) -> ([u8; BASE], [u8; BASE], [u8; BASE]) {
        match d {
            Direction::F => (self.y, self.k, self.x),
            Direction::B => (self.x, self.k, self.y),
        }
    }

    /// For the divergence point taken in direction `d`: the two sides of which at least one
    /// must stay free.
    pub open spec fn star_sides(self, d: Direction) -> ([u8; BASE], [u8; BASE]) {
        match d {
            Direction::F => (self.k, self.x),
            Direction::B => (self.k, self.y),
        }
    }
}

impl<const N: usize, const DIFF: usize> CollisionStructure<N, DIFF> {
    /// The number of queries on which the two executions agree.
    pub open spec fn n_same(self) -> int {
        N - DIFF
    }

    /// `permutation` is a bijection on `0..N`, and at least one query differs.
    pub open spec fn wf(self) -> bool {
        &&& 1 <= DIFF <= N
        &&& forall|t: int| 0 <= t < N ==> #[trigger] self.permutation@[t] < N
        &&& forall|t: int, u: int| 0 <= t < u < N ==> self.permutation@[t] != self.permutation@[u]
        &&& forall|i: usize| i < N ==> #[trigger] self.permutation@.contains(i)
    }

    /// The text of the structure: the permutation's entries, the number of agreeing
    /// queries, and the directions, separated by commas.
    pub open spec fn id_text(self) -> Seq<char> {
        decimals(self.permutation@, N as int) + seq![','] + decimal(self.n_same() as nat) + seq![',']
            + direction_letters(self.cs_type@, DIFF as int)
    }

    /// Whether the structure is well formed, as `wf` states.
    pub fn is_well_formed(&self) -> (r: bool)
        ensures
            r == self.wf(),
    {
        if DIFF < 1 || DIFF > N {
            return false;
        }
        let mut t: usize = 0;
        while t < N
            invariant
                t <= N,
                forall|tt: int| 0 <= tt < t ==> #[trigger] self.permutation@[tt] < N,
                forall|tt: int, uu: int| 0 <= tt < uu < t ==> self.permutation@[tt] != self.permutation@[uu],
            decreases N - t,
        {
            if self.permutation[t] >= N {
                return false;
            }
            let mut u: usize = 0;
            while u < t
                invariant
                    t < N,
                    u <= t,
                    forall|uu: int| 0 <= uu < u ==> self.permutation@[uu] != self.permutation@[t as int],
                decreases t - u,
            {
                if self.permutation[u] == self.permutation[t] {
                    return false;
                }
                u = u + 1;
            }
            t = t + 1;
        }
        let mut i: usize = 0;
        while i < N
            invariant
                i <= N,
                forall|tt: int| 0 <= tt < N ==> #[trigger] self.permutation@[tt] < N,
                forall|tt: int, uu: int| 0 <= tt < uu < N ==> self.permutation@[tt] != self.permutation@[uu],
                forall|ii: usize| ii < i ==> #[trigger] self.permutation@.contains(ii),
            decreases N - i,
        {
            let mut found = false;
            let mut t: usize = 0;
            while t < N
                invariant
                    i < N,
                    t <= N,
                    found ==> self.permutation@.contains(i),
                    !found ==> forall|tt: int| 0 <= tt < t ==> self.permutation@[tt] != i,
                decreases N - t,
            {
                if self.permutation[t] == i {
                    found = true;
                }
                t = t + 1;
            }
            if !found {
                proof {
                    if self.permutation@.contains(i) {
                        let tt = choose|tt: int| 0 <= tt < self.permutation@.len() && self.permutation@[tt] == i;
                        assert(self.permutation@[tt] != i);
                    }
                }
                return false;
            }
            i = i + 1;
        }
        true
    }

    /// The queries on which the two executions agree, in order.
    pub fn same(&self) -> (r: Vec<usize>)
        requires
            DIFF <= N,
        ensures
            r@ == self.permutation@.take(N - DIFF),
    {
        let mut r: Vec<usize> = Vec::new();
        let mut t: usize = 0;
        while t < N - DIFF
            invariant
                DIFF <= N,
                t <= N - DIFF,
                r@ == self.permutation@.take(t as int),
            decreases N - DIFF - t,
        {
            r.push(self.permutation[t]);
            proof {
                assert(self.permutation@.take(t + 1) =~= self.permutation@.take(t as int).push(self.permutation@[t as int]));
            }
            t = t + 1;
        }
        r
    }

    /// The queries on which the two executions differ, each with its direction, in order.
    pub fn different(&self) -> (r: Vec<(usize, Direction)>)
        requires
            DIFF <= N,
        ensures
            r@.len() == DIFF,
            forall|t: int| 0 <= t < DIFF ==> #[trigger] r@[t] == (self.permutation@[N - DIFF + t], self.cs_type@[t]),
    {
        let mut r: Vec<(usize, Direction)> = Vec::new();
        let mut t: usize = 0;
        while t < DIFF
            invariant
                DIFF <= N,
                t <= DIFF,
                r@.len() == t,
                forall|u: int| 0 <= u < t ==> #[trigger] r@[u] == (self.permutation@[N - DIFF + u], self.cs_type@[u]),
            decreases DIFF - t,
        {
            r.push((self.permutation[N - DIFF + t], self.cs_type[t]));
            t = t + 1;
        }
        r
    }

    /// The directions of the differing queries.
    pub fn directions(&self) -> (r: &[Direction])
        ensures
            r@ == self.cs_type@,
    {
        self.cs_type.as_slice()
    }

    /// The divergence point: the first query on which the executions differ, and its direction.
    pub fn i_star(&self) -> (r: (usize, Direction))
        requires
            1 <= DIFF <= N,
        ensures
            r == (self.permutation@[N - DIFF], self.cs_type@[0]),
    {
        (self.permutation[N - DIFF], self.cs_type[0])
    }

    /// The text of the structure, as `id_text` gives it: for example `01,0,FB`.
    pub fn id(&self) -> (r: String)
        requires
            DIFF <= N,
        ensures
            r@ == self.id_text(),
    {
        let mut r = String::new();
        let mut t: usize = 0;
        while t < N
            invariant
                t <= N,
                r@ == decimals(self.permutation@, t as int),
            decreases N - t,
        {
            let digits = decimal_string(self.permutation[t]);
            r.append(digits.as_str());
            t = t + 1;
        }
        proof {
            reveal_strlit(",");
        }
        r.append(",");
        let same_count = decimal_string(N - DIFF);
        r.append(same_count.as_str());
        r.append(",");
        let mut u: usize = 0;
        while u < DIFF
            invariant
                u <= DIFF,
                r@ == decimals(self.permutation@, N as int) + seq![','] + decimal(self.n_same() as nat) + seq![',']
                    + direction_letters(self.cs_type@, u as int),
            decreases DIFF - u,
        {
            let letter = self.cs_type[u].to_string();
            r.append(letter.as_str());
            u = u + 1;
        }
        r
    }

    /// The query index of entry `t` of the differing part, and its direction.
    pub open spec fn diff_at(self, t: int) -> (int, Direction) {
        (self.permutation@[N - DIFF + t] as int, self.cs_type@[t])
    }
}

/// A query written out as its operation and its rows `k`, `x`, `y`.
pub type RawConstraint<const BASE: usize> = (Operation, [u8; BASE], [u8; BASE], [u8; BASE]);

impl<const BASE: usize, const N: usize> AlgebraicRepresentation<BASE, N, 1> {
    /// The program with the single output row `m` and the queries `cs`, in order.
    pub fn new(m: [u8; BASE], cs: [RawConstraint<BASE>; N]) -> (r: Self)
        ensures
            r.m@ == seq![m],
            forall|i: int| 0 <= i < N ==> (#[trigger] r.constraints@[i]) == (Constraint {
                op: cs@[i].0,
                k: cs@[i].1,
                x: cs@[i].2,
                y: cs@[i].3,
            }),
    {
        let blank = Constraint { op: Operation::E, k: m, x: m, y: m };
        let mut constraints: [Constraint<BASE>; N] = [blank; N];
        let mut i: usize = 0;
        while i < N
            invariant
                i <= N,
                forall|l: int| 0 <= l < i ==> (#[trigger] constraints@[l]) == (Constraint {
                    op: cs@[l].0,
                    k: cs@[l].1,
                    x: cs@[l].2,
                    y: cs@[l].3,
                }),
            decreases N - i,
        {
            let (op, k, x, y) = cs[i];
            constraints[i] = Constraint { op, k, x, y };
            i = i + 1;
        }
        AlgebraicRepresentation { m: [m], constraints }
    }
}

impl<const BASE: usize, const N: usize, const OUT: usize> AlgebraicRepresentation<BASE, N, OUT> {
    /// The rows of the queries at the first `t` agreeing entries of `cs`, in order.
    pub open spec fn same_rows<const DIFF: usize>(self, cs: CollisionStructure<N, DIFF>, t: int) -> Seq<[u8; BASE]>
        decreases t,
    {
        if t <= 0 {
            Seq::empty()
        } else {
            self.same_rows(cs, t - 1) + self.constraints@[cs.permutation@[t - 1] as int].rows()
        }
    }

    /// What both executions share before they differ: every row of the agreeing queries,
    /// then the output rows.
    pub open spec fn seed<const DIFF: usize>(self, cs: CollisionStructure<N, DIFF>) -> Seq<[u8; BASE]> {
        self.same_rows(cs, cs.n_same()) + self.m@
    }

    /// The rows that entry `t` of the differing part adds: its two fixed sides, then its free side.
    pub open spec fn step_rows<const DIFF: usize>(self, cs: CollisionStructure<N, DIFF>, t: int) -> Seq<[u8; BASE]> {
        let (i, d) = cs.diff_at(t);
        let (free, f1, f2) = self.constraints@[i].split(d);
        seq![f1, f2, free]
    }

    /// The rows that are determined before entry `t` of the differing part is taken.
    pub open spec fn fixed_before<const DIFF: usize>(self, cs: CollisionStructure<N, DIFF>, t: int) -> Seq<[u8; BASE]>
        decreases t,
    {
        if t <= 0 {
            self.seed(cs)
        } else {
            self.fixed_before(cs, t - 1) + self.step_rows(cs, t - 1)
        }
    }

    /// At the divergence point, not both of its sides are determined by the shared rows.
    pub open spec fn star_open<const DIFF: usize>(self, cs: CollisionStructure<N, DIFF>, p: int) -> bool {
        let (i, d) = cs.diff_at(0);
        let (s1, s2) = self.constraints@[i].star_sides(d);
        !(in_span(p, row_view(s1), rows_view(self.seed(cs))) && in_span(p, row_view(s2), rows_view(self.seed(cs))))
    }

    /// At entry `t` of the differing part, the free side is not determined by what is fixed
    /// before it together with its two fixed sides.
    pub open spec fn step_open<const DIFF: usize>(self, cs: CollisionStructure<N, DIFF>, p: int, t: int) -> bool {
        let (i, d) = cs.diff_at(t);
        let (free, f1, f2) = self.constraints@[i].split(d);
        !in_span(p, row_view(free), rows_view(self.fixed_before(cs, t).push(f1).push(f2)))
    }

    /// The program admits the collision structure over GF(p).
    pub open spec fn admits<const DIFF: usize>(self, cs: CollisionStructure<N, DIFF>, p: int) -> bool {
        &&& self.star_open(cs, p)
        &&& forall|t: int| 0 <= t < DIFF ==> #[trigger] self.step_open(cs, p, t)
    }

    /// The rows of the first `t` queries, in order.
    pub open spec fn query_rows(self, t: int) -> Seq<[u8; BASE]>
        decreases t,
    {
        if t <= 0 {
            Seq::empty()
        } else {
            self.query_rows(t - 1) + self.constraints@[t - 1].rows()
        }
    }

    /// Every row of the program: those of each query, in order, then the output rows.
    pub open spec fn all_rows(self) -> Seq<[u8; BASE]> {
        self.query_rows(N as int) + self.m@
    }

    /// Whether the rows of the program, taken over `field`, fall short of full rank.
    pub fn is_degenerate(&self, field: &PrimeField) -> (r: bool)
        ensures
            r == rank_deficient(field.modulus(), rows_view(self.all_rows()), BASE as nat),
    {
        let mut vecs: Vec<[u8; BASE]> = Vec::new();
        let mut t: usize = 0;
        while t < N
            invariant
                t <= N,
                vecs@ == self.query_rows(t as int),
            decreases N - t,
        {
            let c = &self.constraints[t];
            vecs.push(c.k);
            vecs.push(c.x);
            vecs.push(c.y);
            proof {
                assert(vecs@ =~= self.query_rows(t as int) + c.rows());
            }
            t = t + 1;
        }
        let mut o: usize = 0;
        while o < OUT
            invariant
                o <= OUT,
                vecs@ == self.query_rows(N as int) + self.m@.take(o as int),
            decreases OUT - o,
        {
            vecs.push(self.m[o]);
            proof {
                assert(self.m@.take(o + 1) =~= self.m@.take(o as int).push(self.m@[o as int]));
                assert(vecs@ =~= self.query_rows(N as int) + self.m@.take(o + 1));
            }
            o = o + 1;
        }
        proof {
            assert(self.m@.take(OUT as int) =~= self.m@);
            assert(vecs@ =~= self.all_rows());
        }
        is_rank_deficient(field, vecs.as_slice())
    }

    /// Whether the program admits the collision structure `cs`, with spans taken over `field`.
    pub fn has_cs<const DIFF: usize>(&self, cs: &CollisionStructure<N, DIFF>, field: &PrimeField) -> (r: bool)
        requires
            cs.wf(),
        ensures
            r == self.admits(*cs, field.modulus()),
    {
        let ghost p = field.modulus();
        let n_same: usize = N - DIFF;
        let mut fixed: Vec<[u8; BASE]> = Vec::new();
        let mut t: usize = 0;
        while t < n_same
            invariant
                cs.wf(),
                n_same == N - DIFF,
                t <= n_same,
                fixed@ == self.same_rows(*cs, t as int),
            decreases n_same - t,
        {
            let c = &self.constraints[cs.permutation[t]];
            fixed.push(c.k);
            fixed.push(c.x);
            fixed.push(c.y);
            proof {
                assert(fixed@ =~= self.same_rows(*cs, t as int) + c.rows());
            }
            t = t + 1;
        }
        let mut o: usize = 0;
        while o < OUT
            invariant
                o <= OUT,
                fixed@ == self.same_rows(*cs, n_same as int) + self.m@.take(o as int),
            decreases OUT - o,
        {
            fixed.push(self.m[o]);
            proof {
                assert(self.m@.take(o + 1) =~= self.m@.take(o as int).push(self.m@[o as int]));
                assert(fixed@ =~= self.same_rows(*cs, n_same as int) + self.m@.take(o + 1));
            }
            o = o + 1;
        }
        proof {
            assert(self.m@.take(OUT as int) =~= self.m@);
        }
        let i_star = cs.permutation[n_same];
        let c_star = &self.constraints[i_star];
        let (free_1, free_2) = match cs.cs_type[0] {
            Direction::F => (c_star.k, c_star.x),
            Direction::B => (c_star.k, c_star.y),
        };
        if is_in_span(field, &free_1, fixed.as_slice()) && is_in_span(field, &free_2, fixed.as_slice()) {
            return false;
        }
        let mut d: usize = 0;
        while d < DIFF
            invariant
                cs.wf(),
                n_same == N - DIFF,
                p == field.modulus(),
                d <= DIFF,
                fixed@ == self.fixed_before(*cs, d as int),
                self.star_open(*cs, p),
                forall|u: int| 0 <= u < d ==> #[trigger] self.step_open(*cs, p, u),
            decreases DIFF - d,
        {
            let c = &self.constraints[cs.permutation[n_same + d]];
            let (should_be_free, fixed_1, fixed_2) = match cs.cs_type[d] {
                Direction::F => (c.y, c.k, c.x),
                Direction::B => (c.x, c.k, c.y),
            };
            fixed.push(fixed_1);
            fixed.push(fixed_2);
            proof {
                assert(cs.diff_at(d as int) == (cs.permutation@[n_same + d] as int, cs.cs_type@[d as int]));
                assert(fixed@ =~= self.fixed_before(*cs, d as int).push(fixed_1).push(fixed_2));
            }
            if is_in_span(field, &should_be_free, fixed.as_slice()) {
                assert(!self.step_open(*cs, p, d as int));
                return false;
            }
            fixed.push(should_be_free);
            proof {
                assert(fixed@ =~= self.fixed_before(*cs, d as int) + self.step_rows(*cs, d as int));
            }
            d = d + 1;
        }
        true
    }
}

/// The decimal texts of the first `t` entries of `s`, one after the other.
pub open spec fn digits(s: Seq<u8>, t: int) -> Seq<char>
    decreases t,
{
    if t <= 0 {
        Seq::empty()
    } else {
        digits(s, t - 1) + decimal(s[t - 1] as nat)
    }
}

/// The text of a row: the decimal text of each entry, one after the other.
pub open spec fn row_text<const BASE: usize>(r: [u8; BASE]) -> Seq<char> {
    digits(r@, BASE as int)
}

/// The text of a row, as `row_text` gives it: for example `01001`.
pub fn row_string<const BASE: usize>(r: &[u8; BASE]) -> (s: String)
    ensures
        s@ == row_text(*r),
{
    let mut s = String::new();
    let mut j: usize = 0;
    while j < BASE
        invariant
            j <= BASE,
            s@ == digits(r@, j as int),
        decreases BASE - j,
    {
        let d = decimal_string(r[j] as usize);
        s.append(d.as_str());
        j = j + 1;
    }
    s
}

/// Lines `1 + 3 * i` to `3 + 3 * i` of `lines` describe query `i` of `p`: its index, then
/// `k=`, `x=` or `y=`, then the row.
pub open spec fn query_lines_at<const BASE: usize, const N: usize>(lines: Seq<String>, p: AlgebraicRepresentation<BASE, N, 1>, i: int) -> bool {
    &&& lines[1 + 3 * i]@ == decimal(i as nat) + seq!['k', '='] + row_text(p.constraints@[i].k)
    &&& lines[2 + 3 * i]@ == decimal(i as nat) + seq!['x', '='] + row_text(p.constraints@[i].x)
    &&& lines[3 + 3 * i]@ == decimal(i as nat) + seq!['y', '='] + row_text(p.constraints@[i].y)
}

/// The lines that describe a program with one output row: ` M=` and the output row, then
/// for each query `i` the lines `ik=`, `ix=`, `iy=` with its rows.
pub fn linicrypt_to_lines<const BASE: usize, const N: usize>(p: &AlgebraicRepresentation<BASE, N, 1>) -> (r: Vec<String>)
    ensures
        r@.len() == 1 + 3 * N,
        r@[0]@ == seq![' ', 'M', '='] + row_text(p.m@[0]),
        forall|i: int| 0 <= i < N ==> #[trigger] query_lines_at(r@, *p, i),
{
    proof {
        reveal_strlit(" M=");
        reveal_strlit("k=");
        reveal_strlit("x=");
        reveal_strlit("y=");
    }
    let mut m_line = String::from_str(" M=");
    m_line.append(row_string(&p.m[0]).as_str());
    let mut lines: Vec<String> = vec![m_line];
    let mut i: usize = 0;
    while i < N
        invariant
            i <= N,
            lines@.len() == 1 + 3 * i,
            lines@[0]@ == seq![' ', 'M', '='] + row_text(p.m@[0]),
            forall|l: int| 0 <= l < i ==> #[trigger] query_lines_at(lines@, *p, l),
        decreases N - i,
    {
        let c = &p.constraints[i];
        proof {
            reveal_strlit("k=");
            reveal_strlit("x=");
            reveal_strlit("y=");
        }
        let mut k_line = decimal_string(i);
        k_line.append("k=");
        k_line.append(row_string(&c.k).as_str());
        let mut x_line = decimal_string(i);
        x_line.append("x=");
        x_line.append(row_string(&c.x).as_str());
        let mut y_line = decimal_string(i);
        y_line.append("y=");
        y_line.append(row_string(&c.y).as_str());
        proof {
            assert(k_line@ == decimal(i as nat) + seq!['k', '='] + row_text(p.constraints@[i as int].k));
            assert(x_line@ == decimal(i as nat) + seq!['x', '='] + row_text(p.constraints@[i as int].x));
            assert(y_line@ == decimal(i as nat) + seq!['y', '='] + row_text(p.constraints@[i as int].y));
        }
        let ghost before = lines@;
        lines.push(k_line);
        lines.push(x_line);
        lines.push(y_line);
        proof {
            assert forall|l: int| 0 <= l < i + 1 implies #[trigger] query_lines_at(lines@, *p, l) by {
                if l == i {
                    assert(lines@[1 + 3 * l] == k_line);
                    assert(lines@[2 + 3 * l] == x_line);
                    assert(lines@[3 + 3 * l] == y_line);
                } else {
                    assert(query_lines_at(before, *p, l));
                    assert(lines@[1 + 3 * l] == before[1 + 3 * l]);
                    assert(lines@[2 + 3 * l] == before[2 + 3 * l]);
                    assert(lines@[3 + 3 * l] == before[3 + 3 * l]);
                }
            }
        }
        i = i + 1;
    }
    lines
}

} // verus!
