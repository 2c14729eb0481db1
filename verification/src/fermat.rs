//! Fermat's little theorem, and what follows from it on roots: where `k`
//! has an inverse modulo `p - 1`, every residue modulo the prime `p` has
//! exactly one `k`-th root.

use vstd::prelude::*;
use vstd::arithmetic::div_mod::{
    lemma_mod_bound, lemma_mul_mod_noop, lemma_mul_mod_noop_left, lemma_mul_mod_noop_right,
    lemma_small_mod, lemma_sub_mod_noop,
};
use vstd::set_lib::{lemma_int_range, lemma_subset_equality, set_int_range};
use crate::modular::{
    has_root, is_prime, lemma_no_zero_divisors, lemma_pow_mod_add, lemma_pow_mod_range,
    lemma_small_multiple_is_zero, mul_mod, pow_mod,
};

verus! {

/// The product of the elements of a sequence.
pub open spec fn product(s: Seq<int>) -> int
    decreases s.len(),
{
    if s.len() == 0 {
        1
    } else {
        product(s.drop_last()) * s.last()
    }
}

/// The numbers from 1 to `n`.
pub open spec fn one_to(n: nat) -> Seq<int> {
    Seq::new(n, |i: int| i + 1)
}

/// The residues of `a`, `2a`, up to `na` modulo `p`.
pub open spec fn multiples(a: int, n: nat, p: int) -> Seq<int> {
    Seq::new(n, |i: int| (a * (i + 1)) % p)
}

/// A product is its factor at `i` times the product of the others.
pub proof fn lemma_product_remove(s: Seq<int>, i: int)
    requires
        0 <= i < s.len(),
    ensures
        product(s) == product(s.remove(i)) * s[i],
    decreases s.len(),
{
    if i == s.len() - 1 {
        assert(s.remove(i) =~= s.drop_last());
    } else {
        let front = s.drop_last();
        lemma_product_remove(front, i);
        assert(s.remove(i).drop_last() =~= front.remove(i));
        assert(s.remove(i).last() == s.last());
        let rest = product(front.remove(i));
        assert((rest * s[i]) * s.last() == (rest * s.last()) * s[i]) by (nonlinear_arith);
    }
}

/// The product does not depend on the order of the factors.
pub proof fn lemma_product_permutation(s: Seq<int>, t: Seq<int>)
    requires
        s.to_multiset() == t.to_multiset(),
    ensures
        product(s) == product(t),
    decreases s.len(),
{
    broadcast use vstd::multiset::group_multiset_axioms;

    s.to_multiset_ensures();
    t.to_multiset_ensures();
    if s.len() > 0 {
        let x = s.last();
        let front = s.drop_last();
        assert(s[s.len() - 1] == x);
        assert(s.contains(x));
        assert(s.to_multiset().count(x) > 0);
        assert(t.to_multiset().count(x) > 0);
        assert(t.contains(x));
        let j = choose|j: int| 0 <= j < t.len() && t[j] == x;
        assert(front.push(x) =~= s);
        front.to_multiset_ensures();
        assert(front.to_multiset() =~= s.to_multiset().remove(x));
        assert(t.remove(j).to_multiset() =~= front.to_multiset());
        lemma_product_permutation(front, t.remove(j));
        lemma_product_remove(t, j);
    }
}

/// No multiple of a residue other than zero by a number from 1 to `p - 1`
/// is divisible by the prime `p`.
pub proof fn lemma_multiple_is_not_zero(a: int, i: int, p: int)
    requires
        is_prime(p),
        a % p != 0,
        0 < i < p,
    ensures
        0 < (a * i) % p < p,
{
    lemma_mod_bound(a * i, p);
    if (a * i) % p == 0 {
        lemma_no_zero_divisors(a, i, p);
        lemma_small_mod(i as nat, p as nat);
    }
}

/// Different numbers from 1 to `p - 1` have different multiples modulo `p`.
pub proof fn lemma_multiples_differ(a: int, i: int, j: int, p: int)
    requires
        is_prime(p),
        a % p != 0,
        0 < i < p,
        0 < j < p,
        (a * i) % p == (a * j) % p,
    ensures
        i == j,
{
    lemma_sub_mod_noop(a * i, a * j, p);
    lemma_small_mod(0, p as nat);
    assert(a * i - a * j == a * (i - j)) by (nonlinear_arith);
    lemma_no_zero_divisors(a, i - j, p);
    lemma_small_multiple_is_zero(i - j, p);
}

/// The multiples of a residue other than zero by the numbers from 1 to
/// `p - 1` are these numbers again, in another order.
pub proof fn lemma_multiples_permute(a: int, p: int)
    requires
        is_prime(p),
        a % p != 0,
    ensures
        multiples(a, (p - 1) as nat, p).to_multiset() == one_to((p - 1) as nat).to_multiset(),
{
    broadcast use vstd::multiset::group_multiset_axioms;

    let n = (p - 1) as nat;
    let s = multiples(a, n, p);
    let r = one_to(n);
    let range = set_int_range(1, p);
    assert forall|i: int, j: int| 0 <= i < s.len() && 0 <= j < s.len() && i != j implies s[i]
        != s[j] by {
        if s[i] == s[j] {
            lemma_multiples_differ(a, i + 1, j + 1, p);
        }
    }
    assert(s.no_duplicates());
    assert(r.no_duplicates());
    s.unique_seq_to_set();
    r.unique_seq_to_set();
    lemma_int_range(1, p);
    assert(r.to_set() =~= range) by {
        assert forall|x: int| range.contains(x) implies r.to_set().contains(x) by {
            assert(r[x - 1] == x);
        }
    }
    assert(s.to_set().subset_of(range)) by {
        assert forall|x: int| s.to_set().contains(x) implies range.contains(x) by {
            let i = choose|i: int| 0 <= i < s.len() && s[i] == x;
            lemma_multiple_is_not_zero(a, i + 1, p);
        }
    }
    vstd::seq_lib::seq_to_set_is_finite(s);
    lemma_subset_equality(s.to_set(), range);
    s.to_multiset_ensures();
    r.to_multiset_ensures();
    s.lemma_multiset_has_no_duplicates();
    r.lemma_multiset_has_no_duplicates();
    assert forall|x: int| s.to_multiset().count(x) == r.to_multiset().count(x) by {
        assert(s.contains(x) <==> s.to_set().contains(x));
        assert(r.contains(x) <==> r.to_set().contains(x));
    }
    assert(s.to_multiset() =~= r.to_multiset());
}

/// The product of the first `n` multiples of `a` is the `n`-th power of `a`
/// times the product of the first `n` numbers, modulo `p`.
pub proof fn lemma_product_of_multiples(a: int, n: nat, p: int)
    requires
        p > 0,
    ensures
        product(multiples(a, n, p)) % p == (pow_mod(a, n, p) * product(one_to(n))) % p,
    decreases n,
{
    if n == 0 {
        lemma_mul_mod_noop_left(1, 1, p);
    } else {
        let m = (n - 1) as nat;
        lemma_product_of_multiples(a, m, p);
        assert(multiples(a, n, p).drop_last() =~= multiples(a, m, p));
        assert(one_to(n).drop_last() =~= one_to(m));
        let ps = product(multiples(a, m, p));
        let pr = product(one_to(m));
        let power = pow_mod(a, m, p);
        // ps * ((a * n) % p) == (power * pr) * (a * n) == (power * a) * (pr * n), modulo p
        lemma_mul_mod_noop_right(ps, a * n, p);
        lemma_mul_mod_noop_left(ps, a * n, p);
        lemma_mul_mod_noop_left(power * pr, a * n, p);
        assert((power * pr) * (a * n) == (power * a) * (pr * n)) by (nonlinear_arith);
        lemma_mul_mod_noop_left(power * a, pr * n, p);
    }
}

/// The product of the first `n` numbers is not divisible by a prime above `n`.
pub proof fn lemma_factorial_is_not_zero(n: nat, p: int)
    requires
        is_prime(p),
        n < p,
    ensures
        product(one_to(n)) % p != 0,
    decreases n,
{
    if n == 0 {
        lemma_small_mod(1, p as nat);
    } else {
        let m = (n - 1) as nat;
        lemma_factorial_is_not_zero(m, p);
        assert(one_to(n).drop_last() =~= one_to(m));
        if product(one_to(n)) % p == 0 {
            lemma_no_zero_divisors(product(one_to(m)), n as int, p);
            lemma_small_mod(n, p as nat);
        }
    }
}

/// Fermat's little theorem: a residue other than zero, raised to the
/// power `p - 1`, is one modulo the prime `p`.
pub proof fn lemma_fermat(a: int, p: int)
    requires
        is_prime(p),
        a % p != 0,
    ensures
        pow_mod(a, (p - 1) as nat, p) == 1,
{
    let n = (p - 1) as nat;
    let power = pow_mod(a, n, p);
    let q = product(one_to(n));
    lemma_multiples_permute(a, p);
    lemma_product_permutation(multiples(a, n, p), one_to(n));
    lemma_product_of_multiples(a, n, p);
    lemma_factorial_is_not_zero(n, p);
    // q == power * q, so (power - 1) * q == 0, modulo p
    lemma_sub_mod_noop(power * q, q, p);
    lemma_small_mod(0, p as nat);
    assert(power * q - q == (power - 1) * q) by (nonlinear_arith);
    lemma_no_zero_divisors(power - 1, q, p);
    lemma_pow_mod_range(a, n, p);
    lemma_small_multiple_is_zero(power - 1, p);
}

/// `d` undoes `k` as an exponent modulo `p`: their product is one more
/// than `m` times `p - 1`. There are such `d` and `m` exactly when `k` and
/// `p - 1` have no common divisor.
pub open spec fn inverts_exponent(k: nat, d: nat, m: nat, p: int) -> bool {
    k * d == 1 + m * (p - 1)
}

/// A power of a power is the power to the product of the exponents.
pub proof fn lemma_pow_mod_mul(x: int, k: nat, d: nat, p: int)
    requires
        p > 0,
    ensures
        pow_mod(pow_mod(x, k, p), d, p) == pow_mod(x, k * d, p),
    decreases d,
{
    if d == 0 {
        assert(k * d == 0);
    } else {
        let e = (d - 1) as nat;
        lemma_pow_mod_mul(x, k, e, p);
        lemma_pow_mod_add(x, k * e, k, p);
        assert(k * e + k == k * d) by (nonlinear_arith)
            requires
                e + 1 == d,
        ;
    }
}

/// A residue other than zero, raised to a multiple of `p - 1`, is one
/// modulo the prime `p`.
pub proof fn lemma_pow_mod_cycles(x: int, m: nat, p: int)
    requires
        is_prime(p),
        x % p != 0,
    ensures
        pow_mod(x, m * ((p - 1) as nat), p) == 1,
    decreases m,
{
    let n = (p - 1) as nat;
    if m == 0 {
        assert(m * n == 0);
        lemma_small_mod(1, p as nat);
    } else {
        let l = (m - 1) as nat;
        lemma_pow_mod_cycles(x, l, p);
        lemma_fermat(x, p);
        lemma_pow_mod_add(x, l * n, n, p);
        assert(l * n + n == m * n) by (nonlinear_arith)
            requires
                l + 1 == m,
        ;
        lemma_small_mod(1, p as nat);
    }
}

/// A residue raised to one more than a multiple of `p - 1` is itself
/// modulo the prime `p`.
pub proof fn lemma_pow_mod_returns(x: int, m: nat, p: int)
    requires
        is_prime(p),
        0 <= x < p,
    ensures
        pow_mod(x, 1 + m * ((p - 1) as nat), p) == x,
{
    let e = m * ((p - 1) as nat);
    lemma_small_mod(x as nat, p as nat);
    assert(pow_mod(x, 1 + e, p) == mul_mod(pow_mod(x, e, p), x, p));
    if x == 0 {
        assert(pow_mod(x, e, p) * 0 == 0);
    } else {
        lemma_pow_mod_cycles(x, m, p);
        assert(1 * x == x);
    }
}

/// Where `d` undoes `k` as an exponent, the power to `d` is a `k`-th root.
pub proof fn lemma_root_exists(x: int, k: nat, d: nat, m: nat, p: int)
    requires
        is_prime(p),
        inverts_exponent(k, d, m, p),
        0 <= x < p,
    ensures
        pow_mod(pow_mod(x, d, p), k, p) == x,
        has_root(x, k, p),
{
    lemma_pow_mod_mul(x, d, k, p);
    lemma_pow_mod_returns(x, m, p);
    assert(d * k == k * d) by (nonlinear_arith);
    lemma_pow_mod_range(x, d, p);
}

/// Where some `d` undoes `k` as an exponent, residues with the same
/// `k`-th power are the same.
pub proof fn lemma_root_unique(x: int, y: int, k: nat, d: nat, m: nat, p: int)
    requires
        is_prime(p),
        inverts_exponent(k, d, m, p),
        0 <= x < p,
        0 <= y < p,
        pow_mod(x, k, p) == pow_mod(y, k, p),
    ensures
        x == y,
{
    lemma_pow_mod_mul(x, k, d, p);
    lemma_pow_mod_mul(y, k, d, p);
    lemma_pow_mod_returns(x, m, p);
    lemma_pow_mod_returns(y, m, p);
}

/// Some exponent undoes `k` modulo `p`, so that `k`-th powers permute the
/// residues modulo `p`.
pub open spec fn exponent_invertible(k: nat, p: int) -> bool {
    exists|d: nat, m: nat| inverts_exponent(k, d, m, p)
}

/// Where `k`-th powers permute the residues, every residue has a `k`-th root.
pub proof fn lemma_every_residue_has_a_root(x: int, k: nat, p: int)
    requires
        is_prime(p),
        exponent_invertible(k, p),
        0 <= x < p,
    ensures
        has_root(x, k, p),
{
    let (d, m) = choose|d: nat, m: nat| inverts_exponent(k, d, m, p);
    lemma_root_exists(x, k, d, m, p);
}

/// Where `k`-th powers permute the residues, a residue has one `k`-th root only.
pub proof fn lemma_roots_are_unique(x: int, y: int, k: nat, p: int)
    requires
        is_prime(p),
        exponent_invertible(k, p),
        0 <= x < p,
        0 <= y < p,
        pow_mod(x, k, p) == pow_mod(y, k, p),
    ensures
        x == y,
{
    let (d, m) = choose|d: nat, m: nat| inverts_exponent(k, d, m, p);
    lemma_root_unique(x, y, k, d, m, p);
}

} // verus!
