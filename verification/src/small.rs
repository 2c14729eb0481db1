//! The prime field of order 65521, small enough to be searched through.

use vstd::prelude::*;
use vstd::arithmetic::div_mod::{
    lemma_mod_add_multiples_vanish, lemma_mod_bound, lemma_small_mod,
};
use crate::field::Field;
use crate::modular::is_prime;
use crate::residue::{invert_residue, kth_root_residue, mul_residue, pow_residue};

verus! {

/// The largest prime below `2^16`.
pub const PRIME_65521: u64 = 65521;

/// An element of the field with 65521 elements. The order of its
/// multiplicative group is a multiple of five, so most elements have no
/// fifth root.
#[derive(Clone, Copy, Debug, PartialEq, Eq)]
pub struct Fp65521 {
    n: u32,
}

/// 65521 is prime.
pub proof fn lemma_65521_is_prime()
    ensures
        is_prime(PRIME_65521 as int),
{
    assert(forall|d: u32| 1 < d < 65521 ==> #[trigger] (65521u32 % d) != 0) by (bit_vector);
    assert forall|d: int| 1 < d < 65521 implies #[trigger] (65521int % d) != 0 by {
        let d32 = d as u32;
        assert(65521u32 % d32 != 0);
    }
}

impl Fp65521 {
    /// The element that `n` reduces to.
    pub fn new(n: u64) -> (r: Self)
        ensures
            r.value() == n % PRIME_65521,
    {
        let m: u64 = n % PRIME_65521;
        proof {
            lemma_small_mod(m as nat, PRIME_65521 as nat);
        }
        Fp65521 { n: m as u32 }
    }

    /// The canonical residue, as a machine integer.
    pub fn to_canonical_u64(&self) -> (r: u64)
        ensures
            r == self.value(),
    {
        (self.n as u64) % PRIME_65521
    }
}

impl Field for Fp65521 {
    open spec fn modulus() -> int {
        PRIME_65521 as int
    }

    closed spec fn value(&self) -> int {
        (self.n as int) % (PRIME_65521 as int)
    }

    proof fn lemma_modulus_is_prime() {
        lemma_65521_is_prime();
    }

    proof fn lemma_value_is_canonical(&self) {
        lemma_mod_bound(self.n as int, PRIME_65521 as int);
    }

    fn zero() -> (r: Self) {
        Fp65521 { n: 0 }
    }

    fn one() -> (r: Self) {
        Fp65521 { n: 1 }
    }

    fn from_canonical_usize(n: usize) -> (r: Self) {
        proof {
            lemma_small_mod(n as nat, PRIME_65521 as nat);
        }
        Fp65521 { n: n as u32 }
    }

    fn add(self, rhs: Self) -> (r: Self) {
        let a: u64 = self.to_canonical_u64();
        let b: u64 = rhs.to_canonical_u64();
        Fp65521::new(a + b)
    }

    fn sub(self, rhs: Self) -> (r: Self) {
        let a: u64 = self.to_canonical_u64();
        let b: u64 = rhs.to_canonical_u64();
        proof {
            lemma_mod_add_multiples_vanish(a - b, PRIME_65521 as int);
        }
        Fp65521::new(a + PRIME_65521 - b)
    }

    fn mul(self, rhs: Self) -> (r: Self) {
        let a: u64 = self.to_canonical_u64();
        let b: u64 = rhs.to_canonical_u64();
        Fp65521::new(mul_residue(a, b, PRIME_65521))
    }

    fn quadruple(self) -> (r: Self) {
        let a: u64 = self.to_canonical_u64();
        Fp65521::new(a * 4)
    }

    fn exp_usize(self, power: usize) -> (r: Self) {
        let a: u64 = self.to_canonical_u64();
        Fp65521::new(pow_residue(a, power as u64, PRIME_65521))
    }

    fn multiplicative_inverse(self) -> (r: Option<Self>) {
        let x: u64 = self.to_canonical_u64();
        if x == 0 {
            None
        } else {
            proof {
                lemma_65521_is_prime();
            }
            Some(Fp65521::new(invert_residue(x, PRIME_65521)))
        }
    }

    fn kth_root_u32(self, k: u32) -> (r: Option<Self>) {
        let x: u64 = self.to_canonical_u64();
        match kth_root_residue(x, k, PRIME_65521) {
            Some(c) => Some(Fp65521::new(c)),
            None => None,
        }
    }

    fn equals(self, rhs: Self) -> (r: bool) {
        self.to_canonical_u64() == rhs.to_canonical_u64()
    }

    fn is_zero(self) -> (r: bool) {
        self.to_canonical_u64() == 0
    }
}

} // verus!
