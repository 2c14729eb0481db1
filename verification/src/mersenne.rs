//! The prime field of order `2^31 - 1`.

use vstd::prelude::*;
use vstd::arithmetic::div_mod::{
    lemma_fundamental_div_mod, lemma_mod_add_multiples_vanish, lemma_mod_bound, lemma_small_mod,
};
use crate::fermat::{exponent_invertible, inverts_exponent};
use crate::field::Field;
use crate::modular::is_prime;
use crate::residue::{invert_residue, kth_root_residue, mul_residue, pow_residue};

verus! {

/// The Mersenne prime `2^31 - 1`.
pub const MERSENNE_31: u64 = 2147483647;

/// An element of the field with `2^31 - 1` elements. Fifth powers are a
/// permutation of this field, so every element has its fifth root.
#[derive(Clone, Copy, Debug, PartialEq, Eq)]
pub struct Mersenne31 {
    n: u32,
}

/// No number from 2 up to the square root of the modulus divides it.
#[verifier::rlimit(100)]
proof fn lemma_no_small_divisor()
    ensures
        forall|d: u32| 1 < d < 46342 ==> #[trigger] (2147483647u32 % d) != 0,
{
    assert(forall|d: u32| 1 < d < 46342 ==> #[trigger] (2147483647u32 % d) != 0) by (bit_vector);
}

/// `2^31 - 1` is prime.
pub proof fn lemma_mersenne_31_is_prime()
    ensures
        is_prime(MERSENNE_31 as int),
{
    let p = MERSENNE_31 as int;
    lemma_no_small_divisor();
    assert forall|d: int| 1 < d < p implies #[trigger] (p % d) != 0 by {
        if d < 46342 {
            let d32 = d as u32;
            assert(2147483647u32 % d32 != 0);
        } else if p % d == 0 {
            let e = p / d;
            lemma_fundamental_div_mod(p, d);
            assert(p == d * e);
            assert(1 < e < 46342) by (nonlinear_arith)
                requires
                    p == d * e,
                    46342 <= d < p,
                    p == 2147483647,
            ;
            lemma_fundamental_div_mod(p, e);
            assert(p % e == 0) by (nonlinear_arith)
                requires
                    p == d * e,
                    e > 0,
                    p == e * (p / e) + p % e,
                    0 <= p % e < e,
            ;
            let e32 = e as u32;
            assert(2147483647u32 % e32 != 0);
        }
    }
}

/// Fifth powers permute the field: the exponent 1717986917 undoes 5.
pub proof fn lemma_fifth_powers_permute()
    ensures
        exponent_invertible(5, MERSENNE_31 as int),
{
    assert(inverts_exponent(5, 1717986917, 4, MERSENNE_31 as int));
}

impl Mersenne31 {
    /// The element that `n` reduces to.
    pub fn new(n: u64) -> (r: Self)
        ensures
            r.value() == n % MERSENNE_31,
    {
        let m: u64 = n % MERSENNE_31;
        proof {
            lemma_small_mod(m as nat, MERSENNE_31 as nat);
        }
        Mersenne31 { n: m as u32 }
    }

    /// The canonical residue, as a machine integer.
    pub fn to_canonical_u64(&self) -> (r: u64)
        ensures
            r == self.value(),
    {
        (self.n as u64) % MERSENNE_31
    }
}

impl Field for Mersenne31 {
    open spec fn modulus() -> int {
        MERSENNE_31 as int
    }

    closed spec fn value(&self) -> int {
        (self.n as int) % (MERSENNE_31 as int)
    }

    proof fn lemma_modulus_is_prime() {
        lemma_mersenne_31_is_prime();
    }

    proof fn lemma_value_is_canonical(&self) {
        lemma_mod_bound(self.n as int, MERSENNE_31 as int);
    }

    fn zero() -> (r: Self) {
        Mersenne31 { n: 0 }
    }

    fn one() -> (r: Self) {
        Mersenne31 { n: 1 }
    }

    fn from_canonical_usize(n: usize) -> (r: Self) {
        proof {
            lemma_small_mod(n as nat, MERSENNE_31 as nat);
        }
        Mersenne31 { n: n as u32 }
    }

    fn add(self, rhs: Self) -> (r: Self) {
        let a: u64 = self.to_canonical_u64();
        let b: u64 = rhs.to_canonical_u64();
        Mersenne31::new(a + b)
    }

    fn sub(self, rhs: Self) -> (r: Self) {
        let a: u64 = self.to_canonical_u64();
        let b: u64 = rhs.to_canonical_u64();
        proof {
            lemma_mod_add_multiples_vanish(a - b, MERSENNE_31 as int);
        }
        Mersenne31::new(a + MERSENNE_31 - b)
    }

    fn mul(self, rhs: Self) -> (r: Self) {
        let a: u64 = self.to_canonical_u64();
        let b: u64 = rhs.to_canonical_u64();
        Mersenne31::new(mul_residue(a, b, MERSENNE_31))
    }

    fn quadruple(self) -> (r: Self) {
        let a: u64 = self.to_canonical_u64();
        Mersenne31::new(a * 4)
    }

    fn exp_usize(self, power: usize) -> (r: Self) {
        let a: u64 = self.to_canonical_u64();
        Mersenne31::new(pow_residue(a, power as u64, MERSENNE_31))
    }

    fn multiplicative_inverse(self) -> (r: Option<Self>) {
        let x: u64 = self.to_canonical_u64();
        if x == 0 {
            None
        } else {
            proof {
                lemma_mersenne_31_is_prime();
            }
            Some(Mersenne31::new(invert_residue(x, MERSENNE_31)))
        }
    }

    fn kth_root_u32(self, k: u32) -> (r: Option<Self>) {
        let x: u64 = self.to_canonical_u64();
        match kth_root_residue(x, k, MERSENNE_31) {
            Some(c) => Some(Mersenne31::new(c)),
            None => None,
        }
    }

    fn equals(self, rhs: Self) -> (r: bool) {
        self.to_canonical_u64() == rhs.to_canonical_u64()
    }

    fn is_zero(self) -> (r: bool) {
        self.to_canonical_u64() == 0
    }
}

} // verus!
