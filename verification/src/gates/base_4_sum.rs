//! A gate that accumulates seven base-4 limbs and checks their range.

use std::marker::PhantomData;
use vstd::prelude::*;
use vstd::arithmetic::div_mod::{
    lemma_add_mod_noop, lemma_add_mod_noop_right, lemma_mod_twice, lemma_mul_mod_noop,
    lemma_mod_equivalence, lemma_mul_mod_noop_left, lemma_small_mod, lemma_sub_mod_noop,
};
use crate::builder::CircuitBuilder;
use crate::collection::{GateCollection, GateKind, GatePrefixes};
use crate::field::{residues, Field};
use crate::modular::{is_prime, lemma_no_zero_divisors, lemma_small_multiple_is_zero};
use crate::witness::PartialWitness;
use crate::wire::{Target, Wire};

verus! {

/// The wire that holds the accumulator before the limbs are taken in.
pub const WIRE_ACC_OLD: usize = 0;

/// The wire that holds the accumulator after the limbs are taken in.
pub const WIRE_ACC_NEW: usize = 1;

/// The wire of the first limb; the others follow it.
pub const WIRE_LIMB_0: usize = 2;

/// The number of limbs that one gate takes in.
pub const NUM_LIMBS: usize = 7;

/// The accumulator after `limbs` are taken in, most significant first:
/// each limb quadruples what was there and adds itself.
pub open spec fn base4_sum(acc: int, limbs: Seq<int>) -> int
    decreases limbs.len(),
{
    if limbs.len() == 0 {
        acc
    } else {
        base4_sum(acc, limbs.drop_last()) * 4 + limbs.last()
    }
}

/// The product of `limb - m` over the first `count` numbers `m`.
pub open spec fn falling_product(limb: int, count: nat) -> int
    decreases count,
{
    if count == 0 {
        1
    } else {
        falling_product(limb, (count - 1) as nat) * (limb - (count - 1))
    }
}

/// The polynomial that vanishes exactly on the four base-4 digits.
pub open spec fn limb_product(limb: int) -> int {
    limb * (limb - 1) * (limb - 2) * (limb - 3)
}

/// The limbs among the wires of a row.
pub open spec fn limbs_of(wires: Seq<int>) -> Seq<int> {
    wires.subrange(WIRE_LIMB_0 as int, WIRE_LIMB_0 + NUM_LIMBS)
}

/// The constraints of this gate on a row of wire values modulo `p`: first
/// the accumulation, then the range check of each limb.
pub open spec fn base4_residuals(wires: Seq<int>, p: int) -> Seq<int> {
    Seq::new(
        (1 + NUM_LIMBS) as nat,
        |k: int|
            if k == 0 {
                (base4_sum(wires[WIRE_ACC_OLD as int], limbs_of(wires)) - wires[WIRE_ACC_NEW as int])
                    % p
            } else {
                limb_product(limbs_of(wires)[k - 1]) % p
            },
    )
}

/// The range-check polynomial is the falling product of four factors.
pub proof fn lemma_limb_product_unfolds(limb: int)
    ensures
        falling_product(limb, 4) == limb_product(limb),
{
    reveal_with_fuel(falling_product, 5);
    assert(1 * (limb - 0) == limb);
}

/// The range check accepts the four base-4 digits and nothing else: on a
/// canonical residue the polynomial vanishes exactly when the residue is
/// 0, 1, 2 or 3.
pub proof fn lemma_range_check_sound(limb: int, p: int)
    requires
        is_prime(p),
        p > 3,
        0 <= limb < p,
    ensures
        limb_product(limb) % p == 0 <==> 0 <= limb <= 3,
{
    if 0 <= limb <= 3 {
        assert(limb_product(limb) == 0) by (nonlinear_arith)
            requires
                0 <= limb <= 3,
                limb_product(limb) == limb * (limb - 1) * (limb - 2) * (limb - 3),
        ;
        lemma_small_mod(0, p as nat);
    }
    if limb_product(limb) % p == 0 {
        lemma_no_zero_divisors(limb * (limb - 1) * (limb - 2), limb - 3, p);
        if (limb - 3) % p == 0 {
            lemma_small_multiple_is_zero(limb - 3, p);
        } else {
            lemma_no_zero_divisors(limb * (limb - 1), limb - 2, p);
            if (limb - 2) % p == 0 {
                lemma_small_multiple_is_zero(limb - 2, p);
            } else {
                lemma_no_zero_divisors(limb, limb - 1, p);
                if (limb - 1) % p == 0 {
                    lemma_small_multiple_is_zero(limb - 1, p);
                } else {
                    lemma_small_multiple_is_zero(limb, p);
                }
            }
        }
    }
}

/// This gate accepts exactly the accumulations: where the wires are
/// canonical and every limb is a base-4 digit, all constraints vanish if
/// and only if the new accumulator is the accumulation of the old one and
/// the limbs.
pub proof fn lemma_recurrence_correctness(wires: Seq<int>, p: int)
    requires
        is_prime(p),
        p > 3,
        wires.len() >= WIRE_LIMB_0 + NUM_LIMBS,
        0 <= wires[WIRE_ACC_NEW as int] < p,
        forall|k: int| 0 <= k < NUM_LIMBS ==> 0 <= #[trigger] limbs_of(wires)[k] <= 3,
    ensures
        (forall|k: int| 0 <= k < 1 + NUM_LIMBS ==> #[trigger] base4_residuals(wires, p)[k] == 0)
            <==> wires[WIRE_ACC_NEW as int] == base4_sum(
            wires[WIRE_ACC_OLD as int],
            limbs_of(wires),
        ) % p,
{
    let sum = base4_sum(wires[WIRE_ACC_OLD as int], limbs_of(wires));
    let acc_new = wires[WIRE_ACC_NEW as int];
    let residuals = base4_residuals(wires, p);
    lemma_mod_equivalence(sum, acc_new, p);
    lemma_small_mod(acc_new as nat, p as nat);
    assert(residuals[0] == (sum - acc_new) % p);
    assert forall|k: int| 1 <= k < 1 + NUM_LIMBS implies #[trigger] residuals[k] == 0 by {
        let limb = limbs_of(wires)[k - 1];
        lemma_range_check_sound(limb, p);
    }
}

/// Native and in-circuit evaluation agree: where the targets of a row take
/// the values `wires` under an assignment, the targets that the in-circuit
/// evaluation builds take, entry by entry, the values that the native
/// evaluation computes from `wires`.
pub proof fn lemma_recursive_matches_native<F: Field>(
    before: CircuitBuilder<F>,
    after: CircuitBuilder<F>,
    local_targets: Seq<Target>,
    built: Seq<Target>,
    env: Map<Wire, int>,
    wires: Seq<F>,
    native: Seq<F>,
)
    requires
        after.eval_all(built, env) == base4_residuals(
            before.eval_all(local_targets, env),
            F::modulus(),
        ),
        residues(native) == base4_residuals(residues(wires), F::modulus()),
        before.eval_all(local_targets, env) == residues(wires),
    ensures
        after.eval_all(built, env) == residues(native),
        built.len() == native.len(),
        forall|k: int| 0 <= k < built.len() ==> after.eval(built[k], env) == native[k].value(),
{
    assert(after.eval_all(built, env).len() == built.len());
    assert(residues(native).len() == native.len());
    assert forall|k: int| 0 <= k < built.len() implies after.eval(built[k], env)
        == native[k].value() by {
        assert(after.eval_all(built, env)[k] == after.eval(built[k], env));
        assert(residues(native)[k] == native[k].value());
    }
}

/// A gate for accumulating base-4 limbs.
pub struct Base4SumGate<F: Field> {
    pub index: usize,
    pub phantom: PhantomData<F>,
}

impl<F: Field> Base4SumGate<F> {
    /// A gate at row `index`.
    pub fn new(index: usize) -> (r: Self)
        ensures
            r.index == index,
    {
        Base4SumGate { index, phantom: PhantomData }
    }

    /// The accumulator after the first `count` of `limbs`, starting from `acc`.
    fn accumulate(acc: F, limbs: &Vec<F>) -> (r: F)
        ensures
            r.value() == base4_sum(acc.value(), residues(limbs@)) % F::modulus(),
    {
        let ghost p = F::modulus();
        let ghost all = residues(limbs@);
        let mut computed = acc;
        let mut k: usize = 0;
        proof {
            acc.lemma_value_is_canonical();
            lemma_small_mod(acc.value() as nat, p as nat);
            assert(all.take(0) =~= Seq::<int>::empty());
        }
        while k < limbs.len()
            invariant
                k <= limbs.len(),
                p == F::modulus(),
                p > 0,
                all == residues(limbs@),
                computed.value() == base4_sum(acc.value(), all.take(k as int)) % p,
            decreases limbs.len() - k,
        {
            let ghost before = base4_sum(acc.value(), all.take(k as int));
            computed = computed.quadruple().add(limbs[k]);
            proof {
                let limb = limbs@[k as int].value();
                assert(all.take(k + 1).drop_last() =~= all.take(k as int));
                assert(all.take(k + 1).last() == limb);
                limbs@[k as int].lemma_value_is_canonical();
                lemma_small_mod(limb as nat, p as nat);
                lemma_mul_mod_noop_left(before, 4, p);
                lemma_add_mod_noop(before * 4, limb, p);
            }
            k = k + 1;
        }
        proof {
            assert(all.take(k as int) =~= all);
        }
        computed
    }

    /// The value of the range-check polynomial on `limb`.
    fn range_check(limb: F) -> (r: F)
        requires
            F::modulus() > 3,
        ensures
            r.value() == limb_product(limb.value()) % F::modulus(),
    {
        let ghost p = F::modulus();
        let ghost v = limb.value();
        let mut product = F::one();
        let mut j: usize = 0;
        proof {
            lemma_small_mod(1, p as nat);
        }
        while j < 4
            invariant
                j <= 4,
                p == F::modulus(),
                p > 3,
                v == limb.value(),
                product.value() == falling_product(v, j as nat) % p,
            decreases 4 - j,
        {
            let ghost before = falling_product(v, j as nat);
            product = product.mul(limb.sub(F::from_canonical_usize(j)));
            proof {
                lemma_mul_mod_noop(before, v - j, p);
            }
            j = j + 1;
        }
        proof {
            lemma_limb_product_unfolds(v);
        }
        product
    }

    /// The constraints of this gate on the values of a row: the difference
    /// between the accumulation of the limbs and the new accumulator, then
    /// the range-check polynomial of each limb. The row has to hold both
    /// accumulators and every limb, and the field the four digits.
    pub fn evaluate_unfiltered(
        &self,
        gates: &GateCollection,
        local_constant_values: &[F],
        local_wire_values: &[F],
        right_wire_values: &[F],
        below_wire_values: &[F],
    ) -> (r: Vec<F>)
        requires
            F::modulus() > 3,
            local_wire_values@.len() >= WIRE_LIMB_0 + NUM_LIMBS,
        ensures
            residues(r@) == base4_residuals(residues(local_wire_values@), F::modulus()),
    {
        let ghost p = F::modulus();
        let ghost wires = residues(local_wire_values@);
        let acc_old = local_wire_values[WIRE_ACC_OLD];
        let acc_new = local_wire_values[WIRE_ACC_NEW];
        let mut limbs: Vec<F> = Vec::new();
        let mut i: usize = 0;
        while i < NUM_LIMBS
            invariant
                i <= NUM_LIMBS,
                local_wire_values@.len() >= WIRE_LIMB_0 + NUM_LIMBS,
                wires == residues(local_wire_values@),
                limbs@.len() == i,
                forall|k: int| 0 <= k < i ==> (#[trigger] limbs@[k]).value() == limbs_of(wires)[k],
            decreases NUM_LIMBS - i,
        {
            limbs.push(local_wire_values[WIRE_LIMB_0 + i]);
            i = i + 1;
        }
        assert(residues(limbs@) =~= limbs_of(wires));

        let computed_acc_new = Self::accumulate(acc_old, &limbs);
        let mut constraints: Vec<F> = Vec::new();
        constraints.push(computed_acc_new.sub(acc_new));
        proof {
            lemma_sub_mod_noop(base4_sum(acc_old.value(), limbs_of(wires)), acc_new.value(), p);
            acc_new.lemma_value_is_canonical();
            lemma_small_mod(acc_new.value() as nat, p as nat);
        }
        let mut k: usize = 0;
        while k < NUM_LIMBS
            invariant
                k <= NUM_LIMBS,
                p == F::modulus(),
                p > 3,
                limbs@.len() == NUM_LIMBS,
                residues(limbs@) == limbs_of(wires),
                constraints@.len() == 1 + k,
                constraints@[0].value() == base4_residuals(wires, p)[0],
                forall|m: int|
                    1 <= m < 1 + k ==> (#[trigger] constraints@[m]).value() == base4_residuals(
                        wires,
                        p,
                    )[m],
            decreases NUM_LIMBS - k,
        {
            constraints.push(Self::range_check(limbs[k]));
            proof {
                assert(residues(limbs@)[k as int] == limbs@[k as int].value());
            }
            k = k + 1;
        }
        assert(residues(constraints@) =~= base4_residuals(wires, p));
        constraints
    }
}

impl<F: Field> Base4SumGate<F> {
    /// A target for the accumulator after `limbs` are taken in, starting from `acc`.
    fn accumulate_recursively(
        builder: &mut CircuitBuilder<F>,
        four: Target,
        acc: Target,
        limbs: &Vec<Target>,
    ) -> (r: Target)
        requires
            F::modulus() > 0,
            old(builder).owns(four),
            old(builder).owns(acc),
            old(builder).owns_all(limbs@),
            old(builder).degree(four) == 0,
            forall|env: Map<Wire, int>| #[trigger] old(builder).eval(four, env) == 4,
        ensures
            final(builder).grows_from(old(builder)),
            final(builder).owns(r),
            old(builder).degree(acc) <= 1 && old(builder).degree_at_most(limbs@, 1)
                ==> final(builder).degree(r) <= 1,
            forall|env: Map<Wire, int>|
                (#[trigger] final(builder).eval(r, env)) % F::modulus() == base4_sum(
                    old(builder).eval(acc, env),
                    old(builder).eval_all(limbs@, env),
                ) % F::modulus(),
    {
        let ghost p = F::modulus();
        let ghost start = *builder;
        let ghost linear = start.degree(acc) <= 1 && start.degree_at_most(limbs@, 1);
        let mut computed = acc;
        let mut k: usize = 0;
        proof {
            start.lemma_grows_from_self();
            assert forall|env: Map<Wire, int>|
                (#[trigger] builder.eval(computed, env)) % p == base4_sum(
                    start.eval(acc, env),
                    start.eval_all(limbs@, env).take(0),
                ) % p by {
                assert(start.eval_all(limbs@, env).take(0) =~= Seq::<int>::empty());
            }
        }
        while k < limbs.len()
            invariant
                k <= limbs.len(),
                p == F::modulus(),
                p > 0,
                start.owns(four),
                start.owns_all(limbs@),
                start.degree(four) == 0,
                forall|env: Map<Wire, int>| #[trigger] start.eval(four, env) == 4,
                linear == (start.degree(acc) <= 1 && start.degree_at_most(limbs@, 1)),
                builder.grows_from(&start),
                builder.owns(computed),
                linear ==> builder.degree(computed) <= 1,
                forall|env: Map<Wire, int>|
                    (#[trigger] builder.eval(computed, env)) % p == base4_sum(
                        start.eval(acc, env),
                        start.eval_all(limbs@, env).take(k as int),
                    ) % p,
            decreases limbs.len() - k,
        {
            let ghost b0 = *builder;
            let ghost previous = computed;
            let limb = limbs[k];
            assert(start.owns(limb));
            assert(b0.owns(limb) && b0.owns(four));
            let shifted = builder.mul(computed, four);
            let ghost b1 = *builder;
            assert(b1.owns(limb));
            computed = builder.add(shifted, limb);
            proof {
                builder.lemma_grows_from_transitive(&b1, &b0);
                builder.lemma_grows_from_transitive(&b0, &start);
                assert(b0.degree(four) == start.degree(four));
                assert(b0.degree(limb) == start.degree(limb));
                assert(b1.degree(limb) == b0.degree(limb));
                assert forall|env: Map<Wire, int>|
                    (#[trigger] builder.eval(computed, env)) % p == base4_sum(
                        start.eval(acc, env),
                        start.eval_all(limbs@, env).take(k + 1),
                    ) % p by {
                    let all = start.eval_all(limbs@, env);
                    let before = base4_sum(start.eval(acc, env), all.take(k as int));
                    let c = b0.eval(previous, env);
                    let l = start.eval(limb, env);
                    assert(all.take(k + 1).drop_last() =~= all.take(k as int));
                    assert(all.take(k + 1).last() == l);
                    assert(b0.eval(four, env) == start.eval(four, env));
                    assert(b0.eval(limb, env) == l);
                    assert(b1.eval(limb, env) == l);
                    assert(b1.eval(shifted, env) == (c * 4) % p);
                    assert(builder.eval(computed, env) == ((c * 4) % p + l) % p);
                    lemma_mul_mod_noop_left(c, 4, p);
                    lemma_mul_mod_noop_left(before, 4, p);
                    lemma_add_mod_noop_right(l, c * 4, p);
                    lemma_add_mod_noop_right(l, before * 4, p);
                    lemma_mod_twice((c * 4) % p + l, p);
                }
            }
            k = k + 1;
        }
        proof {
            assert forall|env: Map<Wire, int>|
                (#[trigger] builder.eval(computed, env)) % p == base4_sum(
                    start.eval(acc, env),
                    start.eval_all(limbs@, env),
                ) % p by {
                assert(start.eval_all(limbs@, env).take(k as int) =~= start.eval_all(limbs@, env));
            }
        }
        computed
    }

    /// A target for the range-check polynomial of `limb`.
    fn range_check_recursively(builder: &mut CircuitBuilder<F>, limb: Target) -> (r: Target)
        requires
            F::modulus() > 3,
            old(builder).owns(limb),
        ensures
            final(builder).grows_from(old(builder)),
            final(builder).owns(r),
            old(builder).degree(limb) <= 1 ==> final(builder).degree(r) <= 4,
            forall|env: Map<Wire, int>| #[trigger]
                final(builder).eval(r, env) == limb_product(old(builder).eval(limb, env))
                    % F::modulus(),
    {
        let ghost p = F::modulus();
        let ghost start = *builder;
        let mut product = builder.one_wire();
        let mut j: u32 = 0;
        proof {
            lemma_small_mod(1, p as nat);
        }
        while j < 4
            invariant
                j <= 4,
                p == F::modulus(),
                p > 3,
                start.owns(limb),
                builder.grows_from(&start),
                builder.owns(product),
                start.degree(limb) <= 1 ==> builder.degree(product) <= j,
                forall|env: Map<Wire, int>| #[trigger]
                    builder.eval(product, env) == falling_product(start.eval(limb, env), j as nat)
                        % p,
            decreases 4 - j,
        {
            let ghost b0 = *builder;
            let ghost previous = product;
            let j_target = builder.constant_wire_u32(j);
            let ghost b1 = *builder;
            assert(b0.owns(limb));
            assert(b1.owns(limb) && b1.owns(previous));
            let limb_minus_j = builder.sub(limb, j_target);
            let ghost b2 = *builder;
            assert(b2.owns(previous));
            product = builder.mul(product, limb_minus_j);
            proof {
                builder.lemma_grows_from_transitive(&b2, &b1);
                builder.lemma_grows_from_transitive(&b1, &b0);
                builder.lemma_grows_from_transitive(&b0, &start);
                assert(b0.degree(limb) == start.degree(limb));
                assert(b1.degree(limb) == b0.degree(limb));
                assert(b1.degree(previous) == b0.degree(previous));
                assert(b2.degree(previous) == b1.degree(previous));
                assert forall|env: Map<Wire, int>| #[trigger]
                    builder.eval(product, env) == falling_product(
                        start.eval(limb, env),
                        (j + 1) as nat,
                    ) % p by {
                    let v = start.eval(limb, env);
                    let before = falling_product(v, j as nat);
                    assert(b0.eval(limb, env) == v);
                    assert(b1.eval(limb, env) == v);
                    assert(b1.eval(j_target, env) == j);
                    assert(b2.eval(limb_minus_j, env) == (v - j) % p);
                    assert(b0.eval(previous, env) == before % p);
                    assert(b1.eval(previous, env) == before % p);
                    assert(b2.eval(previous, env) == before % p);
                    lemma_mul_mod_noop(before, v - j, p);
                }
            }
            j = j + 1;
        }
        proof {
            assert forall|env: Map<Wire, int>| #[trigger]
                builder.eval(product, env) == limb_product(start.eval(limb, env)) % p by {
                lemma_limb_product_unfolds(start.eval(limb, env));
            }
        }
        product
    }
}

impl<F: Field> Base4SumGate<F> {
    /// The variant that this gate is an instance of.
    pub fn kind(&self) -> (r: GateKind)
        ensures
            r == GateKind::Base4Sum,
    {
        GateKind::Base4Sum
    }

    /// The name of the variant.
    pub fn name(&self) -> (r: &'static str)
        ensures
            r@ == GateKind::Base4Sum.name_spec(),
    {
        GateKind::Base4Sum.name()
    }

    /// The highest degree among this gate's constraints.
    pub fn degree(&self) -> (r: usize)
        ensures
            r == GateKind::Base4Sum.degree_spec(),
    {
        GateKind::Base4Sum.degree()
    }

    /// The number of constants that this gate reads.
    pub fn num_constants(&self) -> (r: usize)
        ensures
            r == GateKind::Base4Sum.num_constants_spec(),
    {
        GateKind::Base4Sum.num_constants()
    }

    /// Targets for the constraints of this gate, built from the targets of a
    /// row: under every assignment of the wires they take the values that
    /// `evaluate_unfiltered` computes from the values of the row's targets.
    pub fn evaluate_unfiltered_recursively(
        &self,
        builder: &mut CircuitBuilder<F>,
        gates: &GateCollection,
        local_constant_values: &[Target],
        local_wire_values: &[Target],
        right_wire_values: &[Target],
        below_wire_values: &[Target],
    ) -> (r: Vec<Target>)
        requires
            F::modulus() > 3,
            local_wire_values@.len() >= WIRE_LIMB_0 + NUM_LIMBS,
            old(builder).owns_all(local_wire_values@),
        ensures
            final(builder).grows_from(old(builder)),
            final(builder).owns_all(r@),
            forall|env: Map<Wire, int>| #[trigger]
                final(builder).eval_all(r@, env) == base4_residuals(
                    old(builder).eval_all(local_wire_values@, env),
                    F::modulus(),
                ),
            old(builder).degree_at_most(local_wire_values@, 1) ==> final(builder).degree_at_most(
                r@,
                GateKind::Base4Sum.degree_spec(),
            ),
    {
        let ghost p = F::modulus();
        let ghost start = *builder;
        let ghost linear = start.degree_at_most(local_wire_values@, 1);
        proof {
            F::lemma_modulus_is_prime();
            assert(4int % 2 == 0);
        }
        let four = builder.constant_wire_u32(4);
        let ghost b1 = *builder;

        let acc_old = local_wire_values[WIRE_ACC_OLD];
        let acc_new = local_wire_values[WIRE_ACC_NEW];
        let mut limbs: Vec<Target> = Vec::new();
        let mut i: usize = 0;
        while i < NUM_LIMBS
            invariant
                i <= NUM_LIMBS,
                local_wire_values@.len() >= WIRE_LIMB_0 + NUM_LIMBS,
                limbs@.len() == i,
                forall|k: int| 0 <= k < i ==> #[trigger] limbs@[k] == local_wire_values@[WIRE_LIMB_0 + k],
            decreases NUM_LIMBS - i,
        {
            limbs.push(local_wire_values[WIRE_LIMB_0 + i]);
            i = i + 1;
        }
        proof {
            assert(start.owns(acc_old) && start.owns(acc_new));
            assert(b1.owns(acc_old) && b1.owns(acc_new));
            assert forall|k: int| 0 <= k < limbs@.len() implies b1.owns(#[trigger] limbs@[k]) by {
                assert(start.owns(local_wire_values@[WIRE_LIMB_0 + k]));
            }
            assert(b1.degree(acc_old) == start.degree(acc_old));
            if linear {
                assert forall|k: int| 0 <= k < limbs@.len() implies b1.degree(#[trigger] limbs@[k])
                    <= 1 by {
                    assert(start.degree(local_wire_values@[WIRE_LIMB_0 + k]) <= 1);
                    assert(b1.degree(limbs@[k]) == start.degree(limbs@[k]));
                }
            }
        }

        let computed_acc_new = Self::accumulate_recursively(builder, four, acc_old, &limbs);
        let ghost b2 = *builder;
        assert(b2.owns(acc_new));
        let first = builder.sub(computed_acc_new, acc_new);
        let ghost b3 = *builder;
        let mut constraints: Vec<Target> = Vec::new();
        constraints.push(first);
        proof {
            b2.lemma_grows_from_transitive(&b1, &start);
            b3.lemma_grows_from_transitive(&b2, &start);
            assert(b2.degree(acc_new) == start.degree(acc_new));
            assert forall|env: Map<Wire, int>| #[trigger]
                b3.eval(first, env) == base4_residuals(start.eval_all(local_wire_values@, env), p)[0] by {
                let wires = start.eval_all(local_wire_values@, env);
                assert(b1.eval_all(limbs@, env) =~= limbs_of(wires)) by {
                    assert forall|k: int| 0 <= k < NUM_LIMBS implies b1.eval(limbs@[k], env)
                        == limbs_of(wires)[k] by {
                        assert(start.owns(local_wire_values@[WIRE_LIMB_0 + k]));
                        assert(b1.eval(limbs@[k], env) == start.eval(limbs@[k], env));
                    }
                }
                assert(b1.eval(acc_old, env) == wires[WIRE_ACC_OLD as int]);
                assert(b2.eval(acc_new, env) == wires[WIRE_ACC_NEW as int]);
                let sum = base4_sum(wires[WIRE_ACC_OLD as int], limbs_of(wires));
                let c = b2.eval(computed_acc_new, env);
                assert(c % p == sum % p);
                lemma_sub_mod_noop(c, wires[WIRE_ACC_NEW as int], p);
                lemma_sub_mod_noop(sum, wires[WIRE_ACC_NEW as int], p);
            }
        }
        let mut k: usize = 0;
        while k < NUM_LIMBS
            invariant
                k <= NUM_LIMBS,
                p == F::modulus(),
                p > 3,
                local_wire_values@.len() >= WIRE_LIMB_0 + NUM_LIMBS,
                start.owns_all(local_wire_values@),
                linear == start.degree_at_most(local_wire_values@, 1),
                limbs@.len() == NUM_LIMBS,
                forall|m: int|
                    0 <= m < NUM_LIMBS ==> #[trigger] limbs@[m] == local_wire_values@[WIRE_LIMB_0
                        + m],
                builder.grows_from(&start),
                constraints@.len() == 1 + k,
                builder.owns_all(constraints@),
                linear ==> builder.degree_at_most(constraints@, 4),
                forall|env: Map<Wire, int>, m: int|
                    0 <= m < 1 + k ==> #[trigger] builder.eval(constraints@[m], env)
                        == base4_residuals(start.eval_all(local_wire_values@, env), p)[m],
            decreases NUM_LIMBS - k,
        {
            let ghost b0 = *builder;
            let ghost earlier = constraints@;
            let limb = limbs[k];
            assert(start.owns(local_wire_values@[WIRE_LIMB_0 + k]));
            assert(b0.owns(limb));
            let check = Self::range_check_recursively(builder, limb);
            constraints.push(check);
            proof {
                builder.lemma_grows_from_transitive(&b0, &start);
                assert(b0.degree(limb) == start.degree(limb));
                assert forall|m: int| 0 <= m < constraints@.len() implies builder.owns(
                    #[trigger] constraints@[m],
                ) by {
                    if m < 1 + k {
                        assert(b0.owns(earlier[m]));
                    }
                }
                if linear {
                    assert(start.degree(local_wire_values@[WIRE_LIMB_0 + k]) <= 1);
                    assert forall|m: int| 0 <= m < constraints@.len() implies builder.degree(
                        #[trigger] constraints@[m],
                    ) <= 4 by {
                        if m < 1 + k {
                            assert(b0.owns(earlier[m]));
                            assert(b0.degree(earlier[m]) <= 4);
                            assert(builder.degree(earlier[m]) == b0.degree(earlier[m]));
                        }
                    }
                }
                assert forall|env: Map<Wire, int>, m: int| 0 <= m < 2 + k implies #[trigger]
                    builder.eval(constraints@[m], env) == base4_residuals(
                        start.eval_all(local_wire_values@, env),
                        p,
                    )[m] by {
                    if m < 1 + k {
                        assert(b0.owns(earlier[m]));
                        assert(builder.eval(earlier[m], env) == b0.eval(earlier[m], env));
                    } else {
                        assert(b0.eval(limb, env) == start.eval(limb, env));
                    }
                }
            }
            k = k + 1;
        }
        proof {
            assert forall|env: Map<Wire, int>| #[trigger]
                builder.eval_all(constraints@, env) == base4_residuals(
                    start.eval_all(local_wire_values@, env),
                    p,
                ) by {
                assert forall|m: int| 0 <= m < 1 + NUM_LIMBS implies builder.eval_all(
                    constraints@,
                    env,
                )[m] == base4_residuals(start.eval_all(local_wire_values@, env), p)[m] by {
                    assert(builder.eval(constraints@[m], env) == base4_residuals(
                        start.eval_all(local_wire_values@, env),
                        p,
                    )[m]);
                }
                assert(builder.eval_all(constraints@, env) =~= base4_residuals(
                    start.eval_all(local_wire_values@, env),
                    p,
                ));
            }
        }
        constraints
    }

    /// The wires that must hold values before this gate can derive others:
    /// none, since this gate derives nothing.
    pub fn dependencies(&self) -> (r: Vec<Target>)
        ensures
            r@.len() == 0,
    {
        Vec::new()
    }

    /// The values that this gate derives: none. The limbs of a decomposition
    /// are derived for all of its gates at once, not gate by gate.
    pub fn generate(
        &self,
        prefixes: &GatePrefixes,
        constants: &[Vec<F>],
        witness: &PartialWitness<F>,
    ) -> (r: PartialWitness<F>)
        ensures
            r@ == Map::<Wire, int>::empty(),
    {
        PartialWitness::new()
    }
}

} // verus!
