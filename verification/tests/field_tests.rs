use plonk_gates::field::Field;
use plonk_gates::mersenne::{Mersenne31, MERSENNE_31};
use plonk_gates::residue::{invert_residue, kth_root_residue, mul_residue, pow_residue};
use plonk_gates::small::{Fp65521, PRIME_65521};

fn fe(n: u64) -> Mersenne31 {
    Mersenne31::new(n)
}

fn small(n: u64) -> Fp65521 {
    Fp65521::new(n)
}

#[test]
fn new_reduces_modulo_the_prime() {
    assert_eq!(fe(MERSENNE_31).to_canonical_u64(), 0);
    assert_eq!(fe(MERSENNE_31 + 5).to_canonical_u64(), 5);
    assert_eq!(fe(7).to_canonical_u64(), 7);
    assert_eq!(small(PRIME_65521 + 9).to_canonical_u64(), 9);
}

#[test]
fn identities_and_small_integers() {
    assert_eq!(Mersenne31::zero().to_canonical_u64(), 0);
    assert_eq!(Mersenne31::one().to_canonical_u64(), 1);
    assert_eq!(Mersenne31::from_canonical_usize(5).to_canonical_u64(), 5);
    assert!(Mersenne31::zero().is_zero());
    assert!(!Mersenne31::one().is_zero());
    assert!(fe(9).equals(fe(MERSENNE_31 + 9)));
    assert!(!fe(9).equals(fe(10)));
}

#[test]
fn addition_wraps_at_the_modulus() {
    assert_eq!(fe(MERSENNE_31 - 1).add(fe(3)).to_canonical_u64(), 2);
    assert_eq!(fe(10).add(fe(20)).to_canonical_u64(), 30);
}

#[test]
fn subtraction_wraps_below_zero() {
    assert_eq!(fe(3).sub(fe(5)).to_canonical_u64(), MERSENNE_31 - 2);
    assert_eq!(fe(5).sub(fe(3)).to_canonical_u64(), 2);
}

#[test]
fn multiplication_reduces_the_product() {
    assert_eq!(fe(MERSENNE_31 - 1).mul(fe(MERSENNE_31 - 1)).to_canonical_u64(), 1);
    assert_eq!(fe(1 << 16).mul(fe(1 << 16)).to_canonical_u64(), 2);
    assert_eq!(fe(6).mul(fe(7)).to_canonical_u64(), 42);
}

#[test]
fn quadruple_is_four_times() {
    assert_eq!(fe(5).quadruple().to_canonical_u64(), 20);
    assert_eq!(fe(MERSENNE_31 - 1).quadruple().to_canonical_u64(), MERSENNE_31 - 4);
}

#[test]
fn powers_by_repeated_squaring() {
    assert_eq!(fe(3).exp_usize(5).to_canonical_u64(), 243);
    assert_eq!(fe(2).exp_usize(31).to_canonical_u64(), 1);
    assert_eq!(fe(7).exp_usize(0).to_canonical_u64(), 1);
    assert_eq!(fe(0).exp_usize(0).to_canonical_u64(), 1);
    assert_eq!(fe(0).exp_usize(3).to_canonical_u64(), 0);
    assert_eq!(pow_residue(3, 4, 7), 4);
    assert_eq!(mul_residue(5, 6, 7), 2);
}

#[test]
fn inverse_of_small_elements() {
    assert_eq!(fe(2).multiplicative_inverse(), Some(fe(1073741824)));
    assert_eq!(fe(4).multiplicative_inverse(), Some(fe(536870912)));
    assert_eq!(fe(0).multiplicative_inverse(), None);
    let x = fe(123456789);
    let inv = x.multiplicative_inverse().unwrap();
    assert_eq!(x.mul(inv), Mersenne31::one());
    assert_eq!(invert_residue(3, 7), 5);
}

#[test]
fn fifth_roots_in_the_mersenne_field() {
    assert_eq!(fe(32).kth_root_u32(5), Some(fe(2)));
    assert_eq!(fe(243).kth_root_u32(5), Some(fe(3)));
    assert_eq!(fe(0).kth_root_u32(5), Some(fe(0)));
    assert_eq!(fe(123456).kth_root_u32(5), Some(fe(1161603619)));
    assert_eq!(fe(1161603619).exp_usize(5), fe(123456));
}

#[test]
fn roots_of_order_zero_exist_only_for_one() {
    assert!(fe(1).kth_root_u32(0).is_some());
    assert_eq!(kth_root_residue(2, 0, 7), None);
}

#[test]
fn fifth_roots_in_the_small_field() {
    assert_eq!(small(32).kth_root_u32(5), Some(small(2)));
    assert_eq!(small(1).kth_root_u32(5), Some(small(1)));
    assert_eq!(small(2).kth_root_u32(5), None);
    assert_eq!(small(3).kth_root_u32(5), None);
    assert_eq!(small(6).kth_root_u32(5).map(|r| r.exp_usize(5)), Some(small(6)));
}

#[test]
fn square_roots_fail_on_non_residues() {
    assert_eq!(kth_root_residue(3, 2, 7), None);
    assert_eq!(kth_root_residue(2, 2, 7), Some(3));
}

#[test]
fn small_field_arithmetic() {
    assert_eq!(small(65520).add(small(2)).to_canonical_u64(), 1);
    assert_eq!(small(1).sub(small(2)).to_canonical_u64(), 65520);
    assert_eq!(small(256).mul(small(256)).to_canonical_u64(), 15);
    let x = small(12345);
    assert_eq!(x.mul(x.multiplicative_inverse().unwrap()), Fp65521::one());
    assert_eq!(small(0).multiplicative_inverse(), None);
}
