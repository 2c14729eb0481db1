//! Integer arithmetic modulo a prime: the mathematical model that every field
//! element of this crate is viewed through.

use vstd::prelude::*;
use vstd::arithmetic::div_mod::*;
use vstd::arithmetic::mul::*;

verus! {

/// `p` has no divisor strictly between 1 and itself.
pub open spec fn is_prime(p: int) -> bool {
    &&& p >= 2
    &&& forall|d: int| 1 < d < p ==> #[trigger] (p % d) != 0
}

/// Sum of two residues.
pub open spec fn add_mod(a: int, b: int, p: int) -> int {
    (a + b) % p
}

/// Difference of two residues.
pub open spec fn sub_mod(a: int, b: int, p: int) -> int {
    (a - b) % p
}

/// Product of two residues.
pub open spec fn mul_mod(a: int, b: int, p: int) -> int {
    (a * b) % p
}

/// `a` raised to the power `e`, reduced after every multiplication.
pub open spec fn pow_mod(a: int, e: nat, p: int) -> int
    decreases e,
{
    if e == 0 {
        1int % p
    } else {
        mul_mod(pow_mod(a, (e - 1) as nat, p), a, p)
    }
}

/// Every nonzero residue modulo a prime has a multiplicative inverse.
pub proof fn lemma_inverse_exists(a: int, p: int) -> (u: int)
    requires
        is_prime(p),
        0 < a < p,
    ensures
        0 <= u < p,
        (u * a) % p == 1,
    decreases a,
{
    if a == 1 {
        lemma_small_mod(1, p as nat);
        1
    } else {
        let q = p / a;
        let r = p % a;
        lemma_fundamental_div_mod(p, a);
        assert(r != 0);
        assert(0 < r < a) by {
            lemma_mod_bound(p, a);
        }
        let v = lemma_inverse_exists(r, p);
        // v * (p - q * a) == 1 (mod p), hence (-v * q) * a == 1 (mod p).
        let w = (-(v * q)) % p;
        lemma_mod_bound(-(v * q), p);
        assert((w * a) % p == 1) by {
            lemma_mul_mod_noop_left(-(v * q), a, p);
            assert((-(v * q)) * a == v * r - v * p) by (nonlinear_arith)
                requires
                    p == a * q + r,
            ;
            lemma_mod_multiples_vanish(-v, v * r, p);
            assert(p * (-v) + v * r == v * r - v * p) by (nonlinear_arith);
        }
        w
    }
}

/// A product is divisible by a prime only if one of its factors is.
pub proof fn lemma_no_zero_divisors(a: int, b: int, p: int)
    requires
        is_prime(p),
        (a * b) % p == 0,
    ensures
        a % p == 0 || b % p == 0,
{
    if a % p != 0 {
        let a0 = a % p;
        lemma_mod_bound(a, p);
        let u = lemma_inverse_exists(a0, p);
        // b == (u * a0) * b == u * (a0 * b) == u * 0 (mod p)
        lemma_mul_mod_noop_left(a, b, p);
        assert((a0 * b) % p == 0);
        lemma_mul_mod_noop_right(u, a0 * b, p);
        assert((u * (a0 * b)) % p == (u * 0) % p);
        assert(u * 0 == 0);
        lemma_small_mod(0, p as nat);
        assert(u * (a0 * b) == (u * a0) * b) by {
            lemma_mul_is_associative(u, a0, b);
        }
        lemma_mul_mod_noop_left(u * a0, b, p);
        assert(((u * a0) * b) % p == (1 * b) % p);
        assert(1 * b == b);
    }
}

/// Powers are canonical residues.
pub proof fn lemma_pow_mod_range(a: int, e: nat, p: int)
    requires
        p > 0,
    ensures
        0 <= pow_mod(a, e, p) < p,
{
    if e == 0 {
        lemma_mod_bound(1, p);
    } else {
        lemma_mod_bound(pow_mod(a, (e - 1) as nat, p) * a, p);
    }
}

/// Multiplication of residues is associative.
pub proof fn lemma_mul_mod_assoc(x: int, y: int, z: int, p: int)
    requires
        p > 0,
    ensures
        mul_mod(mul_mod(x, y, p), z, p) == mul_mod(x, mul_mod(y, z, p), p),
{
    lemma_mul_mod_noop_left(x * y, z, p);
    lemma_mul_mod_noop_right(x, y * z, p);
    lemma_mul_is_associative(x, y, z);
}

/// Exponents add when powers of one base are multiplied.
pub proof fn lemma_pow_mod_add(a: int, e1: nat, e2: nat, p: int)
    requires
        p > 0,
    ensures
        pow_mod(a, e1 + e2, p) == mul_mod(pow_mod(a, e1, p), pow_mod(a, e2, p), p),
    decreases e2,
{
    let x = pow_mod(a, e1, p);
    if e2 == 0 {
        lemma_pow_mod_range(a, e1, p);
        lemma_mul_mod_noop_right(x, 1, p);
        assert(x * 1 == x);
        lemma_small_mod(x as nat, p as nat);
    } else {
        let y = pow_mod(a, (e2 - 1) as nat, p);
        lemma_pow_mod_add(a, e1, (e2 - 1) as nat, p);
        assert((e1 + e2 - 1) as nat == e1 + (e2 - 1) as nat);
        assert(pow_mod(a, e1 + e2, p) == mul_mod(pow_mod(a, (e1 + e2 - 1) as nat, p), a, p));
        lemma_mul_mod_assoc(x, y, a, p);
    }
}

/// Squaring the base doubles the exponent.
pub proof fn lemma_pow_mod_square(a: int, e: nat, p: int)
    requires
        p > 0,
    ensures
        pow_mod(mul_mod(a, a, p), e, p) == pow_mod(a, 2 * e, p),
    decreases e,
{
    let s = mul_mod(a, a, p);
    if e > 0 {
        let h = (e - 1) as nat;
        lemma_pow_mod_square(a, h, p);
        // a^(2h) * a^2 == a^(2h + 2)
        lemma_pow_mod_add(a, 2 * h, 2, p);
        assert(2 * h + 2 == 2 * e);
        lemma_pow_mod_two(a, p);
    }
}

/// The second power is the square.
pub proof fn lemma_pow_mod_two(a: int, p: int)
    requires
        p > 0,
    ensures
        pow_mod(a, 2, p) == mul_mod(a, a, p),
{
    reveal_with_fuel(pow_mod, 3);
    lemma_mul_mod_noop_left(1, a, p);
    assert(1 * a == a);
    lemma_mul_mod_noop_left(a, a, p);
}

/// `u` is the canonical residue that multiplies `x` to one.
pub open spec fn is_inverse(u: int, x: int, p: int) -> bool {
    0 <= u < p && mul_mod(u, x, p) == 1
}

/// The multiplicative inverse of `x` modulo `p`, where `x` has one.
pub open spec fn inverse_mod(x: int, p: int) -> int {
    choose|u: int| is_inverse(u, x, p)
}

/// A residue that is divisible by the modulus is zero.
pub proof fn lemma_small_multiple_is_zero(d: int, p: int)
    requires
        p > 0,
        -p < d < p,
        d % p == 0,
    ensures
        d == 0,
{
    if d > 0 {
        lemma_small_mod(d as nat, p as nat);
    } else if d < 0 {
        lemma_small_mod((d + p) as nat, p as nat);
        lemma_mod_add_multiples_vanish(d, p);
    }
}

/// Modulo a prime, a residue has at most one inverse.
pub proof fn lemma_inverse_unique(u: int, v: int, x: int, p: int)
    requires
        is_prime(p),
        is_inverse(u, x, p),
        is_inverse(v, x, p),
    ensures
        u == v,
{
    lemma_sub_mod_noop(u * x, v * x, p);
    assert((u - v) * x == u * x - v * x) by (nonlinear_arith);
    lemma_small_mod(0, p as nat);
    lemma_no_zero_divisors(u - v, x, p);
    if x % p == 0 {
        lemma_mul_mod_noop_right(u, x, p);
        assert(u * 0 == 0);
    }
    lemma_small_multiple_is_zero(u - v, p);
}

/// Modulo a prime, every residue but zero has its inverse.
pub proof fn lemma_inverse_mod(x: int, p: int)
    requires
        is_prime(p),
        x % p != 0,
    ensures
        is_inverse(inverse_mod(x, p), x, p),
{
    lemma_mod_bound(x, p);
    let u = lemma_inverse_exists(x % p, p);
    lemma_mul_mod_noop_right(u, x, p);
    assert(is_inverse(u, x, p));
}

/// Some canonical residue has `x` as its `k`-th power.
pub open spec fn has_root(x: int, k: nat, p: int) -> bool {
    exists|y: int| 0 <= y < p && #[trigger] pow_mod(y, k, p) == x
}

} // verus!
