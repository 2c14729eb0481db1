//! The field capability that gates, generators and the circuit builder consume.

use vstd::prelude::*;
use crate::modular::{add_mod, has_root, is_inverse, is_prime, mul_mod, pow_mod, sub_mod};

verus! {

/// The canonical residues of a sequence of field elements.
pub open spec fn residues<F: Field>(elements: Seq<F>) -> Seq<int> {
    Seq::new(elements.len(), |i: int| elements[i].value())
}

/// A prime field whose elements are viewed as canonical residues.
///
/// Every operation is specified by what it does to those residues, so code
/// that is generic over `Field` is proved for every implementation that
/// meets these contracts.
pub trait Field: Sized + Copy {
    /// The prime that the elements are residues of.
    spec fn modulus() -> int;

    /// The canonical residue of an element, in `0..modulus()`.
    spec fn value(&self) -> int;

    /// The modulus is prime.
    proof fn lemma_modulus_is_prime()
        ensures
            is_prime(Self::modulus()),
    ;

    /// Residues are canonical.
    proof fn lemma_value_is_canonical(&self)
        ensures
            0 <= self.value() < Self::modulus(),
    ;

    /// The additive identity.
    fn zero() -> (r: Self)
        ensures
            r.value() == 0,
    ;

    /// The multiplicative identity.
    fn one() -> (r: Self)
        ensures
            r.value() == 1,
    ;

    /// Embeds an integer that is already a canonical residue.
    fn from_canonical_usize(n: usize) -> (r: Self)
        requires
            n < Self::modulus(),
        ensures
            r.value() == n,
    ;

    /// Field addition.
    fn add(self, rhs: Self) -> (r: Self)
        ensures
            r.value() == add_mod(self.value(), rhs.value(), Self::modulus()),
    ;

    /// Field subtraction.
    fn sub(self, rhs: Self) -> (r: Self)
        ensures
            r.value() == sub_mod(self.value(), rhs.value(), Self::modulus()),
    ;

    /// Field multiplication.
    fn mul(self, rhs: Self) -> (r: Self)
        ensures
            r.value() == mul_mod(self.value(), rhs.value(), Self::modulus()),
    ;

    /// Four times the element.
    fn quadruple(self) -> (r: Self)
        ensures
            r.value() == mul_mod(self.value(), 4, Self::modulus()),
    ;

    /// The element raised to a machine-sized power.
    fn exp_usize(self, power: usize) -> (r: Self)
        ensures
            r.value() == pow_mod(self.value(), power as nat, Self::modulus()),
    ;

    /// The multiplicative inverse; `None` exactly for zero.
    fn multiplicative_inverse(self) -> (r: Option<Self>)
        ensures
            r is None <==> self.value() == 0,
            r matches Some(inv) ==> is_inverse(inv.value(), self.value(), Self::modulus()),
    ;

    /// A `k`-th root of the element; `None` exactly when the element has none.
    fn kth_root_u32(self, k: u32) -> (r: Option<Self>)
        ensures
            r matches Some(root) ==> pow_mod(root.value(), k as nat, Self::modulus())
                == self.value(),
            r is None <==> !has_root(self.value(), k as nat, Self::modulus()),
    ;

    /// Whether two elements are the same residue.
    fn equals(self, rhs: Self) -> (r: bool)
        ensures
            r == (self.value() == rhs.value()),
    ;

    /// Whether the element is the additive identity.
    fn is_zero(self) -> (r: bool)
        ensures
            r == (self.value() == 0),
    ;
}

} // verus!
