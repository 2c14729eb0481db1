//! Arithmetic on canonical residues held in machine words, for any modulus
//! of at most 31 bits.

use vstd::prelude::*;
use vstd::arithmetic::div_mod::{
    lemma_fundamental_div_mod, lemma_mul_mod_noop_right, lemma_small_mod,
};
use crate::fermat::{inverts_exponent, lemma_root_exists};
use crate::modular::{
    has_root, is_inverse, is_prime, lemma_inverse_exists, lemma_mul_mod_assoc,
    lemma_pow_mod_range, lemma_pow_mod_square, mul_mod, pow_mod,
};

verus! {

/// The largest modulus for which the product of two residues fits a word.
pub const MAX_MODULUS: u64 = 0x8000_0000;

/// The product of two residues stays below `2^62`.
pub proof fn lemma_product_fits(a: u64, b: u64, p: u64)
    requires
        a < p,
        b < p,
        p <= MAX_MODULUS,
    ensures
        a * b < 0x4000_0000_0000_0000,
{
    assert(a * b < 0x4000_0000_0000_0000) by (nonlinear_arith)
        requires
            a < 0x8000_0000,
            b < 0x8000_0000,
    ;
}

/// The product of two residues.
pub fn mul_residue(a: u64, b: u64, p: u64) -> (r: u64)
    requires
        a < p,
        b < p,
        p <= MAX_MODULUS,
    ensures
        r == mul_mod(a as int, b as int, p as int),
        r < p,
{
    proof {
        lemma_product_fits(a, b, p);
    }
    (a * b) % p
}

/// `base` to the power `e`, by repeated squaring.
pub fn pow_residue(base: u64, e: u64, p: u64) -> (r: u64)
    requires
        base < p,
        p <= MAX_MODULUS,
    ensures
        r == pow_mod(base as int, e as nat, p as int),
        r < p,
{
    let ghost m = p as int;
    let mut acc: u64 = 1 % p;
    let mut sq: u64 = base;
    let mut left: u64 = e;
    proof {
        lemma_pow_mod_range(base as int, e as nat, m);
        let whole = pow_mod(base as int, e as nat, m);
        lemma_small_mod(whole as nat, m as nat);
        lemma_mul_mod_noop_right(whole, 1, m);
        assert(whole * 1 == whole && 1 * whole == whole);
        vstd::arithmetic::div_mod::lemma_mul_mod_noop_left(1, whole, m);
    }
    while left > 0
        invariant
            m == p,
            p <= MAX_MODULUS,
            acc < p,
            sq < p,
            mul_mod(acc as int, pow_mod(sq as int, left as nat, m), m) == pow_mod(
                base as int,
                e as nat,
                m,
            ),
        decreases left,
    {
        let ghost acc0 = acc as int;
        let ghost sq0 = sq as int;
        let ghost left0 = left as nat;
        if left % 2 == 1 {
            acc = mul_residue(acc, sq, p);
            left = left - 1;
            proof {
                let rest = pow_mod(sq0, left as nat, m);
                assert(pow_mod(sq0, left0, m) == mul_mod(rest, sq0, m));
                lemma_mul_mod_assoc(acc0, sq0, rest, m);
                lemma_mul_mod_noop_right(acc0, rest * sq0, m);
                lemma_mul_mod_noop_right(acc0, sq0 * rest, m);
                assert(rest * sq0 == sq0 * rest) by (nonlinear_arith);
            }
        }
        let ghost even = left as nat;
        sq = mul_residue(sq, sq, p);
        left = left / 2;
        proof {
            lemma_pow_mod_square(sq0, left as nat, m);
            assert(2 * (left as nat) == even);
        }
    }
    proof {
        assert(pow_mod(sq as int, 0, m) == 1int % m);
        lemma_mul_mod_noop_right(acc as int, 1, m);
        assert(acc * 1 == acc);
        lemma_small_mod(acc as nat, m as nat);
    }
    acc
}

/// One more than `t` times `p - 1` is a multiple of `k`, so that the
/// quotient undoes `k` as an exponent modulo `p`.
pub open spec fn closes_cycle(k: nat, t: nat, p: int) -> bool {
    (1 + t * (p - 1)) % (k as int) == 0
}

/// The exponent that the least such `t` gives.
pub open spec fn cycle_exponent(k: nat, t: nat, p: int) -> nat {
    ((1 + t * (p - 1)) / (k as int)) as nat
}

/// A guess at a `k`-th root of `x`: `x` raised to the exponent that undoes
/// `k`, for the least number of cycles below `k` that gives one; `None`
/// exactly where no number of cycles below `k` does. Modulo a prime the
/// guess is a root.
fn root_candidate(x: u64, k: u32, p: u64) -> (r: Option<u64>)
    requires
        x < p,
        p <= MAX_MODULUS,
    ensures
        r is None <==> forall|t: nat| t < k ==> !#[trigger] closes_cycle(k as nat, t, p as int),
        r matches Some(c) ==> c < p && exists|t: nat|
            t < k && #[trigger] closes_cycle(k as nat, t, p as int) && c == pow_mod(
                x as int,
                cycle_exponent(k as nat, t, p as int),
                p as int,
            ) && forall|s: nat| s < t ==> !#[trigger] closes_cycle(k as nat, s, p as int),
        is_prime(p as int) ==> (r matches Some(c) ==> pow_mod(c as int, k as nat, p as int) == x),
{
    let mut t: u64 = 0;
    while t < k as u64
        invariant
            t <= k,
            x < p,
            p <= MAX_MODULUS,
            forall|s: nat| s < t ==> !#[trigger] closes_cycle(k as nat, s, p as int),
        decreases k - t,
    {
        assert(t * (p - 1) < 0x8000_0000_0000_0000) by (nonlinear_arith)
            requires
                t < 0x1_0000_0000,
                0 < p <= 0x8000_0000,
        ;
        let num: u64 = 1 + t * (p - 1);
        if num % (k as u64) == 0 {
            let exponent: u64 = num / (k as u64);
            let guess = pow_residue(x, exponent, p);
            proof {
                assert(closes_cycle(k as nat, t as nat, p as int));
                assert(exponent == cycle_exponent(k as nat, t as nat, p as int));
                if is_prime(p as int) {
                    lemma_fundamental_div_mod(num as int, k as int);
                    assert(inverts_exponent(k as nat, exponent as nat, t as nat, p as int));
                    lemma_root_exists(x as int, k as nat, exponent as nat, t as nat, p as int);
                }
            }
            return Some(guess);
        }
        t = t + 1;
    }
    None
}

/// The least `k`-th root of `x`, found by trying every residue.
fn search_root(x: u64, k: u32, p: u64) -> (r: Option<u64>)
    requires
        x < p,
        p <= MAX_MODULUS,
    ensures
        r matches Some(c) ==> c < p && pow_mod(c as int, k as nat, p as int) == x,
        r is None ==> !has_root(x as int, k as nat, p as int),
{
    let mut c: u64 = 0;
    while c < p
        invariant
            c <= p,
            x < p,
            p <= MAX_MODULUS,
            forall|y: int| 0 <= y < c ==> #[trigger] pow_mod(y, k as nat, p as int) != x,
        decreases p - c,
    {
        if pow_residue(c, k as u64, p) == x {
            return Some(c);
        }
        c = c + 1;
    }
    None
}

/// A `k`-th root of `x`, or `None` exactly when `x` has none. Where `k` has
/// an inverse modulo `p - 1`, the power of `x` to that inverse is tried
/// first; every residue is tried only where that fails.
pub fn kth_root_residue(x: u64, k: u32, p: u64) -> (r: Option<u64>)
    requires
        x < p,
        p <= MAX_MODULUS,
    ensures
        r matches Some(c) ==> c < p && pow_mod(c as int, k as nat, p as int) == x,
        r is None <==> !has_root(x as int, k as nat, p as int),
{
    if let Some(c) = root_candidate(x, k, p) {
        if pow_residue(c, k as u64, p) == x {
            return Some(c);
        }
    }
    search_root(x, k, p)
}

/// The inverse of a residue other than zero modulo a prime: its power to
/// `p - 2` where that is the inverse, else the one found by trying every
/// residue.
pub fn invert_residue(x: u64, p: u64) -> (r: u64)
    requires
        is_prime(p as int),
        0 < x < p,
        p <= MAX_MODULUS,
    ensures
        is_inverse(r as int, x as int, p as int),
{
    let guess: u64 = pow_residue(x, p - 2, p);
    if mul_residue(guess, x, p) == 1 {
        return guess;
    }
    let mut c: u64 = 0;
    while c < p
        invariant
            c <= p,
            0 < x < p,
            p <= MAX_MODULUS,
            forall|y: int| 0 <= y < c ==> !is_inverse(y, x as int, p as int),
        decreases p - c,
    {
        if mul_residue(c, x, p) == 1 {
            return c;
        }
        c = c + 1;
    }
    proof {
        let u = lemma_inverse_exists(x as int, p as int);
        assert(is_inverse(u, x as int, p as int));
    }
    unreached()
}

} // verus!
