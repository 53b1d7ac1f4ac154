//! Single-query compression schemes over three wires, and their classification.
use crate::model::{row_string, row_text};
use vstd::prelude::*;
use vstd::string::StringExecFns;

verus! {

/// The kind of collision structure a single-query scheme has.
#[derive(Clone, Copy, Debug, PartialEq, Eq, Hash, Structural)]
pub enum SchemeType {
    /// Both the output and the input `x` of the query are free.
    Degenerate,
    /// Only the output of the query is free.
    A,
    /// Only the input `x` of the query is free.
    B,
    /// Neither is free.
    Secure,
}

/// A program over three wires with one output row `m` and one query `(k, x) -> y`.
#[derive(Clone, Copy, Debug, PartialEq, Eq)]
pub struct SingleQueryScheme {
    pub m: [u8; 3],
    pub k: [u8; 3],
    pub x: [u8; 3],
    pub y: [u8; 3],
}

/// The determinant of the 3x3 matrix with rows `a`, `b`, `c`.
pub open spec fn det3(a: [u8; 3], b: [u8; 3], c: [u8; 3]) -> int {
    a[0] * (b[1] * c[2] - b[2] * c[1]) - a[1] * (b[0] * c[2] - b[2] * c[0]) + a[2] * (b[0] * c[1] - b[1] * c[0])
}

/// The determinant of the 3x3 matrix with rows `a`, `b`, `c`.
fn determinant(a: &[u8; 3], b: &[u8; 3], c: &[u8; 3]) -> (r: i64)
    ensures
        r as int == det3(*a, *b, *c),
{
    let (a0, a1, a2) = (a[0] as i64, a[1] as i64, a[2] as i64);
    let (b0, b1, b2) = (b[0] as i64, b[1] as i64, b[2] as i64);
    let (c0, c1, c2) = (c[0] as i64, c[1] as i64, c[2] as i64);
    assert(0 <= b1 * c2 <= 255 * 255 && 0 <= b2 * c1 <= 255 * 255) by (nonlinear_arith)
        requires 0 <= b1 <= 255, 0 <= b2 <= 255, 0 <= c1 <= 255, 0 <= c2 <= 255;
    assert(0 <= b0 * c2 <= 255 * 255 && 0 <= b2 * c0 <= 255 * 255) by (nonlinear_arith)
        requires 0 <= b0 <= 255, 0 <= b2 <= 255, 0 <= c0 <= 255, 0 <= c2 <= 255;
    assert(0 <= b0 * c1 <= 255 * 255 && 0 <= b1 * c0 <= 255 * 255) by (nonlinear_arith)
        requires 0 <= b0 <= 255, 0 <= b1 <= 255, 0 <= c0 <= 255, 0 <= c1 <= 255;
    let m0 = b1 * c2 - b2 * c1;
    let m1 = b0 * c2 - b2 * c0;
    let m2 = b0 * c1 - b1 * c0;
    assert(-255 * 65025 <= a0 * m0 <= 255 * 65025) by (nonlinear_arith)
        requires 0 <= a0 <= 255, -65025 <= m0 <= 65025;
    assert(-255 * 65025 <= a1 * m1 <= 255 * 65025) by (nonlinear_arith)
        requires 0 <= a1 <= 255, -65025 <= m1 <= 65025;
    assert(-255 * 65025 <= a2 * m2 <= 255 * 65025) by (nonlinear_arith)
        requires 0 <= a2 <= 255, -65025 <= m2 <= 65025;
    a0 * m0 - a1 * m1 + a2 * m2
}

impl SchemeType {
    /// The name of the kind, as text.
    pub open spec fn name(self) -> Seq<char> {
        match self {
            SchemeType::Degenerate => seq!['D', 'e', 'g', 'e', 'n', 'e', 'r', 'a', 't', 'e'],
            SchemeType::A => seq!['A'],
            SchemeType::B => seq!['B'],
            SchemeType::Secure => seq!['S', 'e', 'c', 'u', 'r', 'e'],
        }
    }

    /// The name of the kind.
    pub fn to_string(&self) -> (r: String)
        ensures
            r@ == self.name(),
    {
        match self {
            SchemeType::Degenerate => {
                proof { reveal_strlit("Degenerate"); }
                String::from_str("Degenerate")
            },
            SchemeType::A => {
                proof { reveal_strlit("A"); }
                String::from_str("A")
            },
            SchemeType::B => {
                proof { reveal_strlit("B"); }
                String::from_str("B")
            },
            SchemeType::Secure => {
                proof { reveal_strlit("Secure"); }
                String::from_str("Secure")
            },
        }
    }
}

impl SingleQueryScheme {
    /// The output `y` is free: `m`, `k`, `x` do not determine a unique combination, as their
    /// matrix is singular.
    pub open spec fn y_free(self) -> bool {
        det3(self.m, self.k, self.x) == 0
    }

    /// The input `x` is free: `m`, `k`, `y` do not determine a unique combination, as their
    /// matrix is singular.
    pub open spec fn x_free(self) -> bool {
        det3(self.m, self.k, self.y) == 0
    }

    /// The kind of the scheme, from which of its sides are free.
    pub open spec fn kind(self) -> SchemeType {
        if self.y_free() && self.x_free() {
            SchemeType::Degenerate
        } else if self.y_free() {
            SchemeType::A
        } else if self.x_free() {
            SchemeType::B
        } else {
            SchemeType::Secure
        }
    }

    fn is_y_unconstrained(&self) -> (r: bool)
        ensures
            r == self.y_free(),
    {
        determinant(&self.m, &self.k, &self.x) == 0
    }

    fn is_x_unconstrained(&self) -> (r: bool)
        ensures
            r == self.x_free(),
    {
        determinant(&self.m, &self.k, &self.y) == 0
    }

    /// The kind of collision structure the scheme has.
    pub fn collision_structure_type(&self) -> (r: SchemeType)
        ensures
            r == self.kind(),
    {
        let y_free = self.is_y_unconstrained();
        let x_free = self.is_x_unconstrained();
        match (y_free, x_free) {
            (true, true) => SchemeType::Degenerate,
            (true, false) => SchemeType::A,
            (false, true) => SchemeType::B,
            (false, false) => SchemeType::Secure,
        }
    }
}

/// The row `(q / 2, q % 2, last)`, for `q < 4`.
pub open spec fn pair_row(q: int, last: u8) -> [u8; 3] {
    [(q / 2) as u8, (q % 2) as u8, last]
}

/// Scheme `i` of the enumeration: `m` ranges slowest over the four rows ending in 1, then
/// `k`, then `x`, fastest, over the four rows ending in 0; `y` is always `001`.
pub open spec fn scheme_at(i: int) -> SingleQueryScheme {
    SingleQueryScheme { m: pair_row(i / 16, 1), k: pair_row((i / 4) % 4, 0), x: pair_row(i % 4, 0), y: [0, 0, 1] }
}

fn make_pair_row(q: usize, last: u8) -> (r: [u8; 3])
    requires
        q < 4,
    ensures
        r == pair_row(q as int, last),
{
    [(q / 2) as u8, (q % 2) as u8, last]
}

/// Every scheme whose output row ends in 1, whose query inputs end in 0, and whose query
/// output is `001`: 64 of them, in the order of `scheme_at`.
pub fn generate_all_schemes() -> (r: Vec<SingleQueryScheme>)
    ensures
        r@.len() == 64,
        forall|i: int| 0 <= i < 64 ==> #[trigger] r@[i] == scheme_at(i),
{
    let mut r: Vec<SingleQueryScheme> = Vec::new();
    let mut a: usize = 0;
    while a < 4
        invariant
            a <= 4,
            r@.len() == 16 * a,
            forall|i: int| 0 <= i < r@.len() ==> #[trigger] r@[i] == scheme_at(i),
        decreases 4 - a,
    {
        let mut b: usize = 0;
        while b < 4
            invariant
                a < 4,
                b <= 4,
                r@.len() == 16 * a + 4 * b,
                forall|i: int| 0 <= i < r@.len() ==> #[trigger] r@[i] == scheme_at(i),
            decreases 4 - b,
        {
            let mut c: usize = 0;
            while c < 4
                invariant
                    a < 4,
                    b < 4,
                    c <= 4,
                    r@.len() == 16 * a + 4 * b + c,
                    forall|i: int| 0 <= i < r@.len() ==> #[trigger] r@[i] == scheme_at(i),
                decreases 4 - c,
            {
                let s = SingleQueryScheme {
                    m: make_pair_row(a, 1),
                    k: make_pair_row(b, 0),
                    x: make_pair_row(c, 0),
                    y: [0, 0, 1],
                };
                proof {
                    let i = 16 * a + 4 * b + c;
                    assert(i / 16 == a && (i / 4) % 4 == b && i % 4 == c) by (nonlinear_arith)
                        requires i == 16 * a + 4 * b + c, a < 4, b < 4, c < 4;
                }
                r.push(s);
                c = c + 1;
            }
            b = b + 1;
        }
        a = a + 1;
    }
    r
}

/// The lines that describe a scheme: its four rows, each after its name, then its kind.
pub fn scheme_to_lines(scheme: &SingleQueryScheme) -> (r: Vec<String>)
    ensures
        r@.len() == 5,
        r@[0]@ == seq!['M', '='] + row_text(scheme.m),
        r@[1]@ == seq!['k', '='] + row_text(scheme.k),
        r@[2]@ == seq!['x', '='] + row_text(scheme.x),
        r@[3]@ == seq!['y', '='] + row_text(scheme.y),
        r@[4]@ == scheme.kind().name(),
{
    proof {
        reveal_strlit("M=");
        reveal_strlit("k=");
        reveal_strlit("x=");
        reveal_strlit("y=");
    }
    let mut m_line = String::from_str("M=");
    m_line.append(row_string(&scheme.m).as_str());
    let mut k_line = String::from_str("k=");
    k_line.append(row_string(&scheme.k).as_str());
    let mut x_line = String::from_str("x=");
    x_line.append(row_string(&scheme.x).as_str());
    let mut y_line = String::from_str("y=");
    y_line.append(row_string(&scheme.y).as_str());
    let type_line = scheme.collision_structure_type().to_string();
    vec![m_line, k_line, x_line, y_line, type_line]
}

} // verus!
