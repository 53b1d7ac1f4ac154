//! Prime fields GF(p) with `p < 2^32`, so that a product of two residues fits in a `u64`.
use vstd::arithmetic::div_mod::*;
use vstd::prelude::*;

verus! {

/// `p` is a prime number.
pub open spec fn is_prime(p: int) -> bool {
    &&& p > 1
    &&& forall|d: int| 1 < d < p ==> #[trigger] (p % d) != 0
}

/// Every residue that is not zero has a multiplicative inverse modulo a prime.
pub proof fn lemma_inverse(p: int, a: int) -> (x: int)
    requires
        is_prime(p),
        0 < a < p,
    ensures
        (a * x) % p == 1,
    decreases a,
{
    if a == 1 {
        lemma_small_mod(1, p as nat);
        1
    } else {
        let r = p % a;
        let q = p / a;
        assert(p % a != 0);
        lemma_fundamental_div_mod(p, a);
        lemma_mod_pos_bound(p, a);
        let y = lemma_inverse(p, r);
        // r * y == p * y - a * (q * y)
        assert(r == p - a * q) by (nonlinear_arith)
            requires p == a * q + r;
        assert(r * y == p * y + a * (-q * y)) by (nonlinear_arith)
            requires r == p - a * q;
        lemma_mod_multiples_vanish(y, a * (-q * y), p);
        -q * y
    }
}

/// Modulo a prime, a product is zero only when a factor is.
pub proof fn lemma_no_zero_divisors(p: int, a: int, b: int)
    requires
        is_prime(p),
        a % p != 0,
        (a * b) % p == 0,
    ensures
        b % p == 0,
{
    let a0 = a % p;
    lemma_mod_bound(a, p);
    let x = lemma_inverse(p, a0);
    lemma_mul_mod_noop_left(a, b, p);
    // (a0 * b) % p == 0, hence (a0 * b * x) % p == 0
    lemma_mul_mod_noop_left(a0 * b, x, p);
    assert((a0 * b) * x == (a0 * x) * b) by (nonlinear_arith);
    lemma_mul_mod_noop_left(a0 * x, b, p);
    lemma_small_mod(0, p as nat);
    assert(((a0 * x) % p) * b == b);
}

/// A product of residues that are not zero is not zero, modulo a prime.
pub proof fn lemma_product_nonzero(p: int, a: int, b: int)
    requires
        is_prime(p),
        a % p != 0,
        b % p != 0,
    ensures
        (a * b) % p != 0,
{
    if (a * b) % p == 0 {
        lemma_no_zero_divisors(p, a, b);
    }
}

/// The prime field GF(p), for a prime `p` below `2^32`.
pub struct PrimeField {
    p: u64,
}

impl PrimeField {
    #[verifier::type_invariant]
    spec fn inv(self) -> bool {
        &&& is_prime(self.p as int)
        &&& self.p < 0x1_0000_0000
    }

    /// The order of the field.
    pub closed spec fn modulus(self) -> int {
        self.p as int
    }

    /// The field of order `p`; `None` exactly when `p` is not a prime below `2^32`.
    pub fn new(p: u64) -> (r: Option<PrimeField>)
        ensures
            r is Some <==> (is_prime(p as int) && p < 0x1_0000_0000),
            r matches Some(f) ==> f.modulus() == p,
    {
        if p < 2 || p >= 0x1_0000_0000 {
            return None;
        }
        let mut d: u64 = 2;
        while d <= 0xffff && d * d <= p
            invariant
                2 <= d <= 0x1_0000,
                d * d <= 0x1_0000_0000,
                2 <= p < 0x1_0000_0000,
                forall|e: int| 1 < e < d ==> #[trigger] (p as int % e) != 0,
            decreases 0x1_0000 - d,
        {
            assert((d + 1) * (d + 1) <= 0x1_0000_0000) by (nonlinear_arith)
                requires d <= 0xffff;
            if p % d == 0 {
                assert(d < p) by (nonlinear_arith)
                    requires d * d <= p, d >= 2;
                assert((p as int) % (d as int) == 0);
                return None;
            }
            d = d + 1;
        }
        assert(d * d > p) by (nonlinear_arith)
            requires !(d <= 0xffff && d * d <= p), d <= 0x1_0000, p < 0x1_0000_0000;
        proof {
            assert forall|e: int| 1 < e < p implies #[trigger] (p as int % e) != 0 by {
                if e >= d && p as int % e == 0 {
                    let q = p as int / e;
                    lemma_fundamental_div_mod(p as int, e);
                    assert(p as int == e * q);
                    assert(q >= 1) by (nonlinear_arith)
                        requires p as int == e * q, e > 1, p > 1;
                    assert(q != 1) by (nonlinear_arith)
                        requires p as int == e * q, e < p;
                    assert(q < d) by (nonlinear_arith)
                        requires p as int == e * q, e >= d, d * d > p, d > 0;
                    lemma_mod_multiples_basic(e, q);
                    assert((e * q) % q == 0);
                    assert(p as int % q == 0);
                }
            }
        }
        Some(PrimeField { p })
    }

    /// The order of the field.
    pub fn order(&self) -> (r: u64)
        ensures
            r as int == self.modulus(),
            is_prime(r as int),
            r < 0x1_0000_0000,
    {
        proof {
            use_type_invariant(self);
        }
        self.p
    }
}

} // verus!
