//! The first step of a permutation round: a layer of fifth roots, then a
//! layer that mixes the state with a fixed matrix and adds round constants.

use std::marker::PhantomData;
use vstd::prelude::*;
use vstd::arithmetic::div_mod::{
    lemma_add_mod_noop, lemma_add_mod_noop_right, lemma_mod_equivalence, lemma_mod_twice,
    lemma_mul_mod_noop, lemma_mul_mod_noop_left, lemma_small_mod, lemma_sub_mod_noop,
};
use crate::builder::CircuitBuilder;
use crate::collection::{GateCollection, GateKind, GatePrefixes, RESCUE_SPONGE_WIDTH};
use crate::field::{residues, Field};
use crate::mds::{mds_entry, mds_matrix, MdsMatrix};
use crate::error::WitnessError;
use crate::fermat::{exponent_invertible, lemma_every_residue_has_a_root, lemma_roots_are_unique};
use crate::modular::{has_root, is_prime, mul_mod, pow_mod};
use crate::witness::{row_values, PartialWitness};
use crate::wire::{Target, Wire};

verus! {

/// The index of the `i`th accumulator wire.
pub open spec fn wire_acc_spec(i: int) -> int {
    i
}

/// The index of the `i`th root wire.
pub open spec fn wire_root_spec(i: int) -> int {
    RESCUE_SPONGE_WIDTH + i
}

/// The fifth power of an integer.
pub open spec fn fifth_power(x: int) -> int {
    x * x * x * x * x
}

/// The state elements that a row takes in: its accumulator wires.
pub open spec fn inputs_of(local: Seq<int>) -> Seq<int> {
    local.subrange(0, RESCUE_SPONGE_WIDTH as int)
}

/// The claimed fifth roots of a row's inputs: its root wires.
pub open spec fn roots_of(local: Seq<int>) -> Seq<int> {
    local.subrange(RESCUE_SPONGE_WIDTH as int, 2 * RESCUE_SPONGE_WIDTH)
}

/// The round constant of state element `i` plus the first `count` terms of
/// row `i` of the mixing matrix times `roots`.
pub open spec fn mix_partial(constant: int, roots: Seq<int>, i: int, count: nat, p: int) -> int
    decreases count,
{
    if count == 0 {
        constant
    } else {
        mix_partial(constant, roots, i, (count - 1) as nat, p) + mds_entry(
            i,
            count - 1,
            RESCUE_SPONGE_WIDTH as int,
            p,
        ) * roots[count - 1]
    }
}

/// State element `i` after the mixing layer.
pub open spec fn mix(constant: int, roots: Seq<int>, i: int, p: int) -> int {
    mix_partial(constant, roots, i, RESCUE_SPONGE_WIDTH as nat, p)
}

/// The constraints of this gate modulo `p`, two for each state element `i`:
/// that the root wire to the fifth power is the input, and that the next
/// row's accumulator wire is the mixed state. The round constants stand in
/// `constants` from `prefix_len` on.
pub open spec fn rescue_residuals(
    prefix_len: int,
    constants: Seq<int>,
    local: Seq<int>,
    right: Seq<int>,
    p: int,
) -> Seq<int> {
    Seq::new(
        (2 * RESCUE_SPONGE_WIDTH) as nat,
        |k: int|
            if k % 2 == 0 {
                (fifth_power(roots_of(local)[k / 2]) - inputs_of(local)[k / 2]) % p
            } else {
                (mix(constants[prefix_len + k / 2], roots_of(local), k / 2, p) - right[k / 2]) % p
            },
    )
}

/// The wire that holds state element `i` of a gate at `row`.
pub open spec fn input_wire(row: usize, i: int) -> Wire {
    Wire { gate: row, input: i as usize }
}

/// The wire that holds the fifth root of state element `i` of a gate at `row`.
pub open spec fn root_wire(row: usize, i: int) -> Wire {
    Wire { gate: row, input: (RESCUE_SPONGE_WIDTH + i) as usize }
}

/// The wire of the following row that takes state element `i` after the
/// round of a gate at `row`.
pub open spec fn output_wire(row: usize, i: int) -> Wire {
    Wire { gate: (row + 1) as usize, input: i as usize }
}

/// The wires that the generator of a gate at `row` assigns: the root
/// wires of the row and the accumulator wires of the row that follows.
pub open spec fn generated_wires(row: usize) -> Set<Wire> {
    Set::new(
        |w: Wire|
            (w.gate == row && RESCUE_SPONGE_WIDTH <= w.input < 2 * RESCUE_SPONGE_WIDTH) || (w.gate
                == row + 1 && w.input < RESCUE_SPONGE_WIDTH),
    )
}

/// The roots that an assignment gives to a gate at `row`.
pub open spec fn generated_roots(row: usize, delta: Map<Wire, int>) -> Seq<int> {
    Seq::new(RESCUE_SPONGE_WIDTH as nat, |j: int| delta[root_wire(row, j)])
}

/// `delta` is what the generator of a gate at `row` derives from
/// `witness`: it assigns exactly the generated wires; each root is a
/// canonical residue whose fifth power is the input; each output is the
/// mixed state. The round constants stand in `constants` from `prefix_len` on.
pub open spec fn rescue_generated(
    row: usize,
    prefix_len: int,
    constants: Seq<int>,
    witness: Map<Wire, int>,
    delta: Map<Wire, int>,
    p: int,
) -> bool {
    &&& delta.dom() == generated_wires(row)
    &&& forall|i: int|
        0 <= i < RESCUE_SPONGE_WIDTH ==> 0 <= #[trigger] delta[root_wire(row, i)] < p
            && fifth_power(delta[root_wire(row, i)]) % p == witness[input_wire(row, i)]
    &&& forall|i: int|
        0 <= i < RESCUE_SPONGE_WIDTH ==> #[trigger] delta[output_wire(row, i)] == mix(
            constants[prefix_len + i],
            generated_roots(row, delta),
            i,
            p,
        ) % p
}

/// What the generator derives satisfies its gate: in every assignment that
/// holds the inputs and the derived values, all constraints of a gate at
/// `row` vanish.
pub proof fn lemma_generated_witness_satisfies(
    row: usize,
    prefix_len: int,
    constants: Seq<int>,
    witness: Map<Wire, int>,
    delta: Map<Wire, int>,
    full: Map<Wire, int>,
    p: int,
)
    requires
        p > 0,
        row < usize::MAX,
        rescue_generated(row, prefix_len, constants, witness, delta, p),
        forall|i: int|
            0 <= i < RESCUE_SPONGE_WIDTH ==> 0 <= #[trigger] witness[input_wire(row, i)] < p,
        forall|i: int|
            0 <= i < RESCUE_SPONGE_WIDTH ==> #[trigger] full[input_wire(row, i)]
                == witness[input_wire(row, i)],
        forall|w: Wire| delta.contains_key(w) ==> #[trigger] full[w] == delta[w],
    ensures
        forall|k: int|
            0 <= k < 2 * RESCUE_SPONGE_WIDTH ==> #[trigger] rescue_residuals(
                prefix_len,
                constants,
                row_values(full, row, (2 * RESCUE_SPONGE_WIDTH) as nat),
                row_values(full, (row + 1) as usize, RESCUE_SPONGE_WIDTH as nat),
                p,
            )[k] == 0,
{
    let local = row_values(full, row, (2 * RESCUE_SPONGE_WIDTH) as nat);
    let right = row_values(full, (row + 1) as usize, RESCUE_SPONGE_WIDTH as nat);
    let residuals = rescue_residuals(prefix_len, constants, local, right, p);
    assert(roots_of(local) =~= generated_roots(row, delta)) by {
        assert forall|j: int| 0 <= j < RESCUE_SPONGE_WIDTH implies roots_of(local)[j]
            == generated_roots(row, delta)[j] by {
            assert(delta.dom().contains(root_wire(row, j)));
            assert(full[root_wire(row, j)] == delta[root_wire(row, j)]);
        }
    }
    assert forall|k: int| 0 <= k < 2 * RESCUE_SPONGE_WIDTH implies #[trigger] residuals[k] == 0 by {
        let i = k / 2;
        assert(delta.dom().contains(root_wire(row, i)));
        assert(delta.dom().contains(output_wire(row, i)));
        if k % 2 == 0 {
            let root = delta[root_wire(row, i)];
            let input = witness[input_wire(row, i)];
            assert(roots_of(local)[i] == root);
            assert(inputs_of(local)[i] == full[input_wire(row, i)]);
            lemma_small_mod(input as nat, p as nat);
            lemma_mod_equivalence(fifth_power(root), input, p);
        } else {
            let mixed = mix(constants[prefix_len + i], generated_roots(row, delta), i, p);
            let out = delta[output_wire(row, i)];
            assert(right[i] == full[output_wire(row, i)]);
            lemma_mod_twice(mixed, p);
            lemma_mod_equivalence(mixed, out, p);
        }
    }
}

/// Where fifth powers permute the field, the generator derives one thing
/// only: two assignments that it may derive from one witness are the same.
pub proof fn lemma_generated_is_unique(
    row: usize,
    prefix_len: int,
    constants: Seq<int>,
    witness: Map<Wire, int>,
    first: Map<Wire, int>,
    second: Map<Wire, int>,
    p: int,
)
    requires
        is_prime(p),
        exponent_invertible(5, p),
        row < usize::MAX,
        rescue_generated(row, prefix_len, constants, witness, first, p),
        rescue_generated(row, prefix_len, constants, witness, second, p),
    ensures
        first == second,
{
    assert forall|i: int| 0 <= i < RESCUE_SPONGE_WIDTH implies first[root_wire(row, i)]
        == second[root_wire(row, i)] by {
        let x = first[root_wire(row, i)];
        let y = second[root_wire(row, i)];
        lemma_fifth_power(x, p);
        lemma_fifth_power(y, p);
        lemma_roots_are_unique(x, y, 5, p);
    }
    assert(generated_roots(row, first) =~= generated_roots(row, second));
    assert forall|w: Wire| first.dom().contains(w) implies first[w] == second[w] by {
        if w.gate == row {
            assert(w == root_wire(row, w.input - RESCUE_SPONGE_WIDTH));
        } else {
            assert(w == output_wire(row, w.input as int));
        }
    }
    assert(first =~= second);
}

/// The fifth power modulo `p`, as repeated modular multiplication computes it.
pub proof fn lemma_fifth_power(x: int, p: int)
    requires
        p > 0,
    ensures
        pow_mod(x, 5, p) == fifth_power(x) % p,
{
    reveal_with_fuel(pow_mod, 6);
    let x1 = mul_mod(1int % p, x, p);
    let x2 = mul_mod(x1, x, p);
    let x3 = mul_mod(x2, x, p);
    let x4 = mul_mod(x3, x, p);
    assert(1 * x == x);
    lemma_mul_mod_noop_left(1, x, p);
    assert(x1 == x % p);
    lemma_mul_mod_noop_left(x, x, p);
    assert(x2 == (x * x) % p);
    lemma_mul_mod_noop_left(x * x, x, p);
    assert(x3 == (x * x * x) % p);
    lemma_mul_mod_noop_left(x * x * x, x, p);
    assert(x4 == (x * x * x * x) % p);
    lemma_mul_mod_noop_left(x * x * x * x, x, p);
}

/// Native and in-circuit evaluation agree: where the targets of the
/// constants and of the two rows take the values `constants`, `local` and
/// `right` under an assignment, the targets that the in-circuit evaluation
/// builds take, entry by entry, the values that the native evaluation
/// computes from these.
pub proof fn lemma_recursive_matches_native<F: Field>(
    before: CircuitBuilder<F>,
    after: CircuitBuilder<F>,
    prefix_len: int,
    constant_targets: Seq<Target>,
    local_targets: Seq<Target>,
    right_targets: Seq<Target>,
    built: Seq<Target>,
    env: Map<Wire, int>,
    constants: Seq<F>,
    local: Seq<F>,
    right: Seq<F>,
    native: Seq<F>,
)
    requires
        after.eval_all(built, env) == rescue_residuals(
            prefix_len,
            before.eval_all(constant_targets, env),
            before.eval_all(local_targets, env),
            before.eval_all(right_targets, env),
            F::modulus(),
        ),
        residues(native) == rescue_residuals(
            prefix_len,
            residues(constants),
            residues(local),
            residues(right),
            F::modulus(),
        ),
        before.eval_all(constant_targets, env) == residues(constants),
        before.eval_all(local_targets, env) == residues(local),
        before.eval_all(right_targets, env) == residues(right),
    ensures
        after.eval_all(built, env) == residues(native),
        built.len() == native.len(),
        forall|k: int| 0 <= k < built.len() ==> after.eval(built[k], env) == native[k].value(),
{
    assert(after.eval_all(built, env).len() == built.len());
    assert(residues(native).len() == native.len());
    assert forall|k: int| 0 <= k < built.len() implies after.eval(built[k], env)
        == native[k].value() by {
        assert(after.eval_all(built, env)[k] == after.eval(built[k], env));
        assert(residues(native)[k] == native[k].value());
    }
}

/// The first step of a permutation round, the one with the layer of fifth roots.
pub struct RescueStepAGate<F: Field> {
    pub index: usize,
    pub phantom: PhantomData<F>,
}

impl<F: Field> RescueStepAGate<F> {
    /// A gate at row `index`.
    pub fn new(index: usize) -> (r: Self)
        ensures
            r.index == index,
    {
        RescueStepAGate { index, phantom: PhantomData }
    }

    /// Returns the index of the `i`th accumulator wire.
    pub fn wire_acc(i: usize) -> (r: usize)
        ensures
            r == wire_acc_spec(i as int),
    {
        i
    }

    /// Returns the index of the `i`th root wire.
    pub fn wire_root(i: usize) -> (r: usize)
        requires
            RESCUE_SPONGE_WIDTH + i <= usize::MAX,
        ensures
            r == wire_root_spec(i as int),
    {
        RESCUE_SPONGE_WIDTH + i
    }

    /// The variant that this gate is an instance of.
    pub fn kind(&self) -> (r: GateKind)
        ensures
            r == GateKind::RescueStepA,
    {
        GateKind::RescueStepA
    }

    /// The name of the variant.
    pub fn name(&self) -> (r: &'static str)
        ensures
            r@ == GateKind::RescueStepA.name_spec(),
    {
        GateKind::RescueStepA.name()
    }

    /// The highest degree among this gate's constraints.
    pub fn degree(&self) -> (r: usize)
        ensures
            r == GateKind::RescueStepA.degree_spec(),
    {
        GateKind::RescueStepA.degree()
    }

    /// The number of constants that this gate reads: one round constant for
    /// each state element.
    pub fn num_constants(&self) -> (r: usize)
        ensures
            r == GateKind::RescueStepA.num_constants_spec(),
    {
        GateKind::RescueStepA.num_constants()
    }

    /// State element `i` after the mixing layer: `constant` plus row `i` of
    /// the matrix times `roots`.
    fn mix_row(mds: &MdsMatrix<F>, constant: F, roots: &Vec<F>, i: usize) -> (r: F)
        requires
            mds.is_cauchy(),
            mds.size() == RESCUE_SPONGE_WIDTH,
            roots@.len() == RESCUE_SPONGE_WIDTH,
            i < RESCUE_SPONGE_WIDTH,
        ensures
            r.value() == mix(constant.value(), residues(roots@), i as int, F::modulus())
                % F::modulus(),
    {
        let ghost p = F::modulus();
        let mut out = constant;
        let mut j: usize = 0;
        proof {
            F::lemma_modulus_is_prime();
            constant.lemma_value_is_canonical();
            lemma_small_mod(constant.value() as nat, p as nat);
        }
        while j < RESCUE_SPONGE_WIDTH
            invariant
                j <= RESCUE_SPONGE_WIDTH,
                i < RESCUE_SPONGE_WIDTH,
                p == F::modulus(),
                p > 0,
                mds.is_cauchy(),
                mds.size() == RESCUE_SPONGE_WIDTH,
                roots@.len() == RESCUE_SPONGE_WIDTH,
                out.value() == mix_partial(
                    constant.value(),
                    residues(roots@),
                    i as int,
                    j as nat,
                    p,
                ) % p,
            decreases RESCUE_SPONGE_WIDTH - j,
        {
            let ghost before = mix_partial(
                constant.value(),
                residues(roots@),
                i as int,
                j as nat,
                p,
            );
            let entry = mds.get(i, j);
            out = out.add(entry.mul(roots[j]));
            proof {
                let m = mds_entry(i as int, j as int, RESCUE_SPONGE_WIDTH as int, p);
                let root = roots@[j as int].value();
                assert(entry.value() == mds.entry(i as int, j as int));
                assert(entry.value() == m);
                assert(residues(roots@)[j as int] == root);
                lemma_add_mod_noop(before, m * root, p);
            }
            j = j + 1;
        }
        out
    }

    /// The constraints of this gate on the values of a row and of the row
    /// that follows it. The collection has to hold the variant, the rows
    /// have to be as long as the wires and constants that are read, and the
    /// field has to hold the index sums of the mixing matrix as residues
    /// other than zero.
    pub fn evaluate_unfiltered(
        &self,
        gates: &GateCollection,
        local_constant_values: &[F],
        local_wire_values: &[F],
        right_wire_values: &[F],
        below_wire_values: &[F],
    ) -> (r: Vec<F>)
        requires
            3 * RESCUE_SPONGE_WIDTH - 2 < F::modulus(),
            gates.table().contains_key(GateKind::RescueStepA),
            local_constant_values@.len() >= gates.prefix_len(GateKind::RescueStepA)
                + RESCUE_SPONGE_WIDTH,
            local_wire_values@.len() >= 2 * RESCUE_SPONGE_WIDTH,
            right_wire_values@.len() >= RESCUE_SPONGE_WIDTH,
        ensures
            residues(r@) == rescue_residuals(
                gates.prefix_len(GateKind::RescueStepA) as int,
                residues(local_constant_values@),
                residues(local_wire_values@),
                residues(right_wire_values@),
                F::modulus(),
            ),
    {
        let ghost p = F::modulus();
        let ghost local = residues(local_wire_values@);
        let ghost right = residues(right_wire_values@);
        let ghost constants = residues(local_constant_values@);
        let mut ins: Vec<F> = Vec::new();
        let mut outs: Vec<F> = Vec::new();
        let mut roots: Vec<F> = Vec::new();
        let mut k: usize = 0;
        while k < RESCUE_SPONGE_WIDTH
            invariant
                k <= RESCUE_SPONGE_WIDTH,
                local_wire_values@.len() >= 2 * RESCUE_SPONGE_WIDTH,
                right_wire_values@.len() >= RESCUE_SPONGE_WIDTH,
                ins@.len() == k,
                outs@.len() == k,
                roots@.len() == k,
                forall|m: int| 0 <= m < k ==> #[trigger] ins@[m] == local_wire_values@[m],
                forall|m: int| 0 <= m < k ==> #[trigger] outs@[m] == right_wire_values@[m],
                forall|m: int|
                    0 <= m < k ==> #[trigger] roots@[m] == local_wire_values@[RESCUE_SPONGE_WIDTH
                        + m],
            decreases RESCUE_SPONGE_WIDTH - k,
        {
            ins.push(local_wire_values[Self::wire_acc(k)]);
            outs.push(right_wire_values[Self::wire_acc(k)]);
            roots.push(local_wire_values[Self::wire_root(k)]);
            k = k + 1;
        }
        assert(residues(roots@) =~= roots_of(local));
        assert(residues(ins@) =~= inputs_of(local));

        let mds = mds_matrix::<F>(RESCUE_SPONGE_WIDTH);
        let prefix_len: usize = gates.prefix(GateKind::RescueStepA).len();
        let num_constants: usize = local_constant_values.len();
        let mut constraints: Vec<F> = Vec::new();
        let mut i: usize = 0;
        while i < RESCUE_SPONGE_WIDTH
            invariant
                i <= RESCUE_SPONGE_WIDTH,
                p == F::modulus(),
                p > 0,
                mds.is_cauchy(),
                mds.size() == RESCUE_SPONGE_WIDTH,
                prefix_len == gates.prefix_len(GateKind::RescueStepA),
                num_constants == local_constant_values@.len(),
                num_constants >= prefix_len + RESCUE_SPONGE_WIDTH,
                local == residues(local_wire_values@),
                right == residues(right_wire_values@),
                constants == residues(local_constant_values@),
                local_wire_values@.len() >= 2 * RESCUE_SPONGE_WIDTH,
                right_wire_values@.len() >= RESCUE_SPONGE_WIDTH,
                ins@.len() == RESCUE_SPONGE_WIDTH,
                outs@.len() == RESCUE_SPONGE_WIDTH,
                roots@.len() == RESCUE_SPONGE_WIDTH,
                residues(roots@) == roots_of(local),
                residues(ins@) == inputs_of(local),
                forall|m: int| 0 <= m < RESCUE_SPONGE_WIDTH ==> #[trigger] outs@[m] == right_wire_values@[m],
                constraints@.len() == 2 * i,
                forall|m: int|
                    0 <= m < 2 * i ==> (#[trigger] constraints@[m]).value() == rescue_residuals(
                        prefix_len as int,
                        constants,
                        local,
                        right,
                        p,
                    )[m],
            decreases RESCUE_SPONGE_WIDTH - i,
        {
            constraints.push(roots[i].exp_usize(5).sub(ins[i]));
            let computed_out_i = Self::mix_row(&mds, local_constant_values[prefix_len + i], &roots, i);
            constraints.push(computed_out_i.sub(outs[i]));
            proof {
                let root = roots@[i as int].value();
                let input = ins@[i as int].value();
                let out = outs@[i as int].value();
                let mixed = mix(constants[prefix_len + i], roots_of(local), i as int, p);
                assert(residues(roots@)[i as int] == root);
                assert(residues(ins@)[i as int] == input);
                assert(right[i as int] == out);
                ins@[i as int].lemma_value_is_canonical();
                outs@[i as int].lemma_value_is_canonical();
                lemma_small_mod(input as nat, p as nat);
                lemma_small_mod(out as nat, p as nat);
                lemma_fifth_power(root, p);
                lemma_sub_mod_noop(fifth_power(root), input, p);
                lemma_sub_mod_noop(mixed, out, p);
                assert((2 * i) / 2 == i && (2 * i) % 2 == 0);
                assert((2 * i + 1) / 2 == i && (2 * i + 1) % 2 == 1);
            }
            i = i + 1;
        }
        assert(residues(constraints@) =~= rescue_residuals(
            prefix_len as int,
            constants,
            local,
            right,
            p,
        ));
        constraints
    }
}

impl<F: Field> RescueStepAGate<F> {
    /// A target for state element `i` after the mixing layer.
    fn mix_row_recursively(
        builder: &mut CircuitBuilder<F>,
        mds: &MdsMatrix<F>,
        constant: Target,
        roots: &Vec<Target>,
        i: usize,
    ) -> (r: Target)
        requires
            mds.is_cauchy(),
            mds.size() == RESCUE_SPONGE_WIDTH,
            roots@.len() == RESCUE_SPONGE_WIDTH,
            i < RESCUE_SPONGE_WIDTH,
            old(builder).owns(constant),
            old(builder).owns_all(roots@),
        ensures
            final(builder).grows_from(old(builder)),
            final(builder).owns(r),
            old(builder).degree(constant) <= 1 && old(builder).degree_at_most(roots@, 1)
                ==> final(builder).degree(r) <= 1,
            forall|env: Map<Wire, int>|
                (#[trigger] final(builder).eval(r, env)) % F::modulus() == mix(
                    old(builder).eval(constant, env),
                    old(builder).eval_all(roots@, env),
                    i as int,
                    F::modulus(),
                ) % F::modulus(),
    {
        let ghost p = F::modulus();
        let ghost start = *builder;
        let ghost linear = start.degree(constant) <= 1 && start.degree_at_most(roots@, 1);
        let mut computed = constant;
        let mut j: usize = 0;
        proof {
            F::lemma_modulus_is_prime();
            start.lemma_grows_from_self();
        }
        while j < RESCUE_SPONGE_WIDTH
            invariant
                j <= RESCUE_SPONGE_WIDTH,
                i < RESCUE_SPONGE_WIDTH,
                p == F::modulus(),
                p > 0,
                mds.is_cauchy(),
                mds.size() == RESCUE_SPONGE_WIDTH,
                roots@.len() == RESCUE_SPONGE_WIDTH,
                start.owns(constant),
                start.owns_all(roots@),
                linear == (start.degree(constant) <= 1 && start.degree_at_most(roots@, 1)),
                builder.grows_from(&start),
                builder.owns(computed),
                linear ==> builder.degree(computed) <= 1,
                forall|env: Map<Wire, int>|
                    (#[trigger] builder.eval(computed, env)) % p == mix_partial(
                        start.eval(constant, env),
                        start.eval_all(roots@, env),
                        i as int,
                        j as nat,
                        p,
                    ) % p,
            decreases RESCUE_SPONGE_WIDTH - j,
        {
            let ghost b0 = *builder;
            let ghost previous = computed;
            let root = roots[j];
            let entry = mds.get(i, j);
            assert(start.owns(root));
            assert(b0.owns(root));
            let mds_entry_target = builder.constant_wire(entry);
            let ghost b1 = *builder;
            assert(b1.owns(root) && b1.owns(previous));
            computed = builder.mul_add(mds_entry_target, root, computed);
            proof {
                builder.lemma_grows_from_transitive(&b1, &b0);
                builder.lemma_grows_from_transitive(&b0, &start);
                assert(b0.degree(root) == start.degree(root));
                assert(b1.degree(root) == b0.degree(root));
                assert(b1.degree(previous) == b0.degree(previous));
                assert forall|env: Map<Wire, int>|
                    (#[trigger] builder.eval(computed, env)) % p == mix_partial(
                        start.eval(constant, env),
                        start.eval_all(roots@, env),
                        i as int,
                        (j + 1) as nat,
                        p,
                    ) % p by {
                    let m = mds_entry(i as int, j as int, RESCUE_SPONGE_WIDTH as int, p);
                    let all = start.eval_all(roots@, env);
                    let before = mix_partial(start.eval(constant, env), all, i as int, j as nat, p);
                    let c = b0.eval(previous, env);
                    let v = start.eval(root, env);
                    assert(entry.value() == mds.entry(i as int, j as int));
                    assert(b1.eval(mds_entry_target, env) == m);
                    assert(b0.eval(root, env) == v);
                    assert(b1.eval(root, env) == v);
                    assert(b1.eval(previous, env) == c);
                    assert(all[j as int] == v);
                    assert(builder.eval(computed, env) == ((m * v) % p + c) % p);
                    lemma_mod_twice((m * v) % p + c, p);
                    lemma_add_mod_noop_right(c, m * v, p);
                    lemma_add_mod_noop(c, m * v, p);
                    lemma_add_mod_noop(before, m * v, p);
                }
            }
            j = j + 1;
        }
        computed
    }

    /// Targets for the constraints of this gate, built from the targets of a
    /// row and of the row that follows it: under every assignment of the
    /// wires they take the values that `evaluate_unfiltered` computes from
    /// the values of those targets.
    pub fn evaluate_unfiltered_recursively(
        &self,
        builder: &mut CircuitBuilder<F>,
        gates: &GateCollection,
        local_constant_values: &[Target],
        local_wire_values: &[Target],
        right_wire_values: &[Target],
        below_wire_values: &[Target],
    ) -> (r: Vec<Target>)
        requires
            3 * RESCUE_SPONGE_WIDTH - 2 < F::modulus(),
            gates.table().contains_key(GateKind::RescueStepA),
            local_constant_values@.len() >= gates.prefix_len(GateKind::RescueStepA)
                + RESCUE_SPONGE_WIDTH,
            local_wire_values@.len() >= 2 * RESCUE_SPONGE_WIDTH,
            right_wire_values@.len() >= RESCUE_SPONGE_WIDTH,
            old(builder).owns_all(local_constant_values@),
            old(builder).owns_all(local_wire_values@),
            old(builder).owns_all(right_wire_values@),
        ensures
            final(builder).grows_from(old(builder)),
            final(builder).owns_all(r@),
            forall|env: Map<Wire, int>| #[trigger]
                final(builder).eval_all(r@, env) == rescue_residuals(
                    gates.prefix_len(GateKind::RescueStepA) as int,
                    old(builder).eval_all(local_constant_values@, env),
                    old(builder).eval_all(local_wire_values@, env),
                    old(builder).eval_all(right_wire_values@, env),
                    F::modulus(),
                ),
            old(builder).degree_at_most(local_constant_values@, 1) && old(builder).degree_at_most(
                local_wire_values@,
                1,
            ) && old(builder).degree_at_most(right_wire_values@, 1)
                ==> final(builder).degree_at_most(r@, GateKind::RescueStepA.degree_spec()),
    {
        let ghost p = F::modulus();
        let ghost start = *builder;
        let ghost linear = start.degree_at_most(local_constant_values@, 1) && start.degree_at_most(
            local_wire_values@,
            1,
        ) && start.degree_at_most(right_wire_values@, 1);
        let mut ins: Vec<Target> = Vec::new();
        let mut outs: Vec<Target> = Vec::new();
        let mut roots: Vec<Target> = Vec::new();
        let mut k: usize = 0;
        while k < RESCUE_SPONGE_WIDTH
            invariant
                k <= RESCUE_SPONGE_WIDTH,
                local_wire_values@.len() >= 2 * RESCUE_SPONGE_WIDTH,
                right_wire_values@.len() >= RESCUE_SPONGE_WIDTH,
                ins@.len() == k,
                outs@.len() == k,
                roots@.len() == k,
                forall|m: int| 0 <= m < k ==> #[trigger] ins@[m] == local_wire_values@[m],
                forall|m: int| 0 <= m < k ==> #[trigger] outs@[m] == right_wire_values@[m],
                forall|m: int|
                    0 <= m < k ==> #[trigger] roots@[m] == local_wire_values@[RESCUE_SPONGE_WIDTH
                        + m],
            decreases RESCUE_SPONGE_WIDTH - k,
        {
            ins.push(local_wire_values[Self::wire_acc(k)]);
            outs.push(right_wire_values[Self::wire_acc(k)]);
            roots.push(local_wire_values[Self::wire_root(k)]);
            k = k + 1;
        }
        proof {
            start.lemma_grows_from_self();
            F::lemma_modulus_is_prime();
            assert forall|m: int| 0 <= m < roots@.len() implies start.owns(#[trigger] roots@[m]) by {
                assert(start.owns(local_wire_values@[RESCUE_SPONGE_WIDTH + m]));
            }
            if linear {
                assert forall|m: int| 0 <= m < roots@.len() implies start.degree(
                    #[trigger] roots@[m],
                ) <= 1 by {
                    assert(start.degree(local_wire_values@[RESCUE_SPONGE_WIDTH + m]) <= 1);
                }
            }
        }

        let mds = mds_matrix::<F>(RESCUE_SPONGE_WIDTH);
        let prefix_len: usize = gates.prefix(GateKind::RescueStepA).len();
        let num_constants: usize = local_constant_values.len();
        let mut constraints: Vec<Target> = Vec::new();
        let mut i: usize = 0;
        while i < RESCUE_SPONGE_WIDTH
            invariant
                i <= RESCUE_SPONGE_WIDTH,
                p == F::modulus(),
                p > 0,
                mds.is_cauchy(),
                mds.size() == RESCUE_SPONGE_WIDTH,
                prefix_len == gates.prefix_len(GateKind::RescueStepA),
                num_constants == local_constant_values@.len(),
                num_constants >= prefix_len + RESCUE_SPONGE_WIDTH,
                local_wire_values@.len() >= 2 * RESCUE_SPONGE_WIDTH,
                right_wire_values@.len() >= RESCUE_SPONGE_WIDTH,
                start.owns_all(local_constant_values@),
                start.owns_all(local_wire_values@),
                start.owns_all(right_wire_values@),
                start.owns_all(roots@),
                linear == (start.degree_at_most(local_constant_values@, 1)
                    && start.degree_at_most(local_wire_values@, 1) && start.degree_at_most(
                    right_wire_values@,
                    1,
                )),
                linear ==> start.degree_at_most(roots@, 1),
                ins@.len() == RESCUE_SPONGE_WIDTH,
                outs@.len() == RESCUE_SPONGE_WIDTH,
                roots@.len() == RESCUE_SPONGE_WIDTH,
                forall|m: int| 0 <= m < RESCUE_SPONGE_WIDTH ==> #[trigger] ins@[m] == local_wire_values@[m],
                forall|m: int| 0 <= m < RESCUE_SPONGE_WIDTH ==> #[trigger] outs@[m] == right_wire_values@[m],
                forall|m: int|
                    0 <= m < RESCUE_SPONGE_WIDTH ==> #[trigger] roots@[m]
                        == local_wire_values@[RESCUE_SPONGE_WIDTH + m],
                builder.grows_from(&start),
                constraints@.len() == 2 * i,
                builder.owns_all(constraints@),
                linear ==> builder.degree_at_most(constraints@, 5),
                forall|env: Map<Wire, int>, m: int|
                    0 <= m < 2 * i ==> #[trigger] builder.eval(constraints@[m], env)
                        == rescue_residuals(
                        prefix_len as int,
                        start.eval_all(local_constant_values@, env),
                        start.eval_all(local_wire_values@, env),
                        start.eval_all(right_wire_values@, env),
                        p,
                    )[m],
            decreases RESCUE_SPONGE_WIDTH - i,
        {
            let ghost b0 = *builder;
            let ghost earlier = constraints@;
            let root = roots[i];
            let input = ins[i];
            let output = outs[i];
            let constant = local_constant_values[prefix_len + i];
            proof {
                assert(start.owns(root));
                assert(start.owns(local_wire_values@[i as int]));
                assert(start.owns(right_wire_values@[i as int]));
                assert(start.owns(constant));
                assert(b0.owns(root) && b0.owns(input) && b0.owns(output) && b0.owns(constant));
            }
            let computed_in_i = builder.exp_constant_usize(root, 5);
            let ghost b1 = *builder;
            assert(b1.owns(input));
            let first = builder.sub(computed_in_i, input);
            constraints.push(first);
            let ghost b2 = *builder;
            proof {
                b2.lemma_grows_from_transitive(&b1, &b0);
                assert(b2.owns(constant));
                assert forall|m: int| 0 <= m < roots@.len() implies b2.owns(#[trigger] roots@[m]) by {
                    assert(start.owns(roots@[m]));
                    assert(b0.owns(roots@[m]));
                }
            }
            let computed_out_i = Self::mix_row_recursively(builder, &mds, constant, &roots, i);
            let ghost b3 = *builder;
            proof {
                b3.lemma_grows_from_transitive(&b2, &b0);
                assert(b3.owns(output));
            }
            let second = builder.sub(computed_out_i, output);
            constraints.push(second);
            proof {
                builder.lemma_grows_from_transitive(&b3, &b0);
                builder.lemma_grows_from_transitive(&b0, &start);
                assert(b3.owns(first));
                assert forall|m: int| 0 <= m < constraints@.len() implies builder.owns(
                    #[trigger] constraints@[m],
                ) by {
                    if m < 2 * i {
                        assert(b0.owns(earlier[m]));
                    }
                }
                if linear {
                    assert(start.degree(root) <= 1);
                    assert(start.degree(local_wire_values@[i as int]) <= 1);
                    assert(start.degree(right_wire_values@[i as int]) <= 1);
                    assert(start.degree(local_constant_values@[prefix_len + i]) <= 1);
                    assert(b0.degree(root) == start.degree(root));
                    assert(b0.degree(input) == start.degree(input));
                    assert(b1.degree(input) == b0.degree(input));
                    assert(b0.degree(constant) == start.degree(constant));
                    assert(b2.degree(constant) == b0.degree(constant));
                    assert(b0.degree(output) == start.degree(output));
                    assert(b3.degree(output) == b0.degree(output));
                    assert(5 * b0.degree(root) <= 5);
                    assert forall|m: int| 0 <= m < roots@.len() implies b2.degree(
                        #[trigger] roots@[m],
                    ) <= 1 by {
                        assert(start.owns(roots@[m]));
                        assert(b0.owns(roots@[m]));
                        assert(b0.degree(roots@[m]) == start.degree(roots@[m]));
                        assert(b2.degree(roots@[m]) == b0.degree(roots@[m]));
                    }
                    assert(b3.degree(computed_out_i) <= 1);
                    assert(builder.degree(first) == b2.degree(first));
                    assert forall|m: int| 0 <= m < constraints@.len() implies builder.degree(
                        #[trigger] constraints@[m],
                    ) <= 5 by {
                        if m < 2 * i {
                            assert(b0.owns(earlier[m]));
                            assert(b0.degree(earlier[m]) <= 5);
                            assert(builder.degree(earlier[m]) == b0.degree(earlier[m]));
                        }
                    }
                }
                assert forall|env: Map<Wire, int>, m: int| 0 <= m < 2 * i + 2 implies #[trigger]
                    builder.eval(constraints@[m], env) == rescue_residuals(
                        prefix_len as int,
                        start.eval_all(local_constant_values@, env),
                        start.eval_all(local_wire_values@, env),
                        start.eval_all(right_wire_values@, env),
                        p,
                    )[m] by {
                    let constants = start.eval_all(local_constant_values@, env);
                    let local = start.eval_all(local_wire_values@, env);
                    let right = start.eval_all(right_wire_values@, env);
                    if m < 2 * i {
                        assert(b0.owns(earlier[m]));
                        assert(builder.eval(earlier[m], env) == b0.eval(earlier[m], env));
                    } else {
                        assert((2 * i) / 2 == i && (2 * i) % 2 == 0);
                        assert((2 * i + 1) / 2 == i && (2 * i + 1) % 2 == 1);
                        let v_root = start.eval(root, env);
                        let v_in = start.eval(input, env);
                        let v_out = start.eval(output, env);
                        assert(roots_of(local)[i as int] == v_root);
                        assert(inputs_of(local)[i as int] == v_in);
                        assert(right[i as int] == v_out);
                        assert(b0.eval(root, env) == v_root);
                        assert(b0.eval(input, env) == v_in);
                        assert(b1.eval(input, env) == v_in);
                        assert(b0.eval(output, env) == v_out);
                        assert(b3.eval(output, env) == v_out);
                        assert(b0.eval(constant, env) == constants[prefix_len + i]);
                        assert(b2.eval(constant, env) == constants[prefix_len + i]);
                        if m == 2 * i {
                            assert(builder.eval(first, env) == b2.eval(first, env));
                            lemma_fifth_power(v_root, p);
                            lemma_sub_mod_noop(fifth_power(v_root), v_in, p);
                            lemma_sub_mod_noop(pow_mod(v_root, 5, p), v_in, p);
                            lemma_mod_twice(fifth_power(v_root), p);
                        } else {
                            assert(b2.eval_all(roots@, env) =~= roots_of(local)) by {
                                assert forall|t: int|
                                    0 <= t < RESCUE_SPONGE_WIDTH implies b2.eval(roots@[t], env)
                                    == roots_of(local)[t] by {
                                    assert(start.owns(roots@[t]));
                                    assert(b0.owns(roots@[t]));
                                    assert(b0.eval(roots@[t], env) == start.eval(roots@[t], env));
                                    assert(b2.eval(roots@[t], env) == b0.eval(roots@[t], env));
                                }
                            }
                            let mixed = mix(constants[prefix_len + i], roots_of(local), i as int, p);
                            let c = b3.eval(computed_out_i, env);
                            assert(c % p == mixed % p);
                            lemma_sub_mod_noop(c, v_out, p);
                            lemma_sub_mod_noop(mixed, v_out, p);
                        }
                    }
                }
            }
            i = i + 1;
        }
        proof {
            assert forall|env: Map<Wire, int>| #[trigger]
                builder.eval_all(constraints@, env) == rescue_residuals(
                    prefix_len as int,
                    start.eval_all(local_constant_values@, env),
                    start.eval_all(local_wire_values@, env),
                    start.eval_all(right_wire_values@, env),
                    p,
                ) by {
                let expected = rescue_residuals(
                    prefix_len as int,
                    start.eval_all(local_constant_values@, env),
                    start.eval_all(local_wire_values@, env),
                    start.eval_all(right_wire_values@, env),
                    p,
                );
                assert forall|m: int| 0 <= m < 2 * RESCUE_SPONGE_WIDTH implies builder.eval_all(
                    constraints@,
                    env,
                )[m] == expected[m] by {
                    assert(builder.eval(constraints@[m], env) == expected[m]);
                }
                assert(builder.eval_all(constraints@, env) =~= expected);
            }
        }
        constraints
    }
}

impl<F: Field> RescueStepAGate<F> {
    /// The wires that must hold values before this gate can derive others:
    /// the accumulator wires of its row.
    pub fn dependencies(&self) -> (r: Vec<Target>)
        ensures
            r@.len() == RESCUE_SPONGE_WIDTH,
            forall|i: int|
                0 <= i < RESCUE_SPONGE_WIDTH ==> #[trigger] r@[i] == Target::Wire(
                    input_wire(self.index, i),
                ),
    {
        let mut wires: Vec<Target> = Vec::new();
        let mut i: usize = 0;
        while i < RESCUE_SPONGE_WIDTH
            invariant
                i <= RESCUE_SPONGE_WIDTH,
                wires@.len() == i,
                forall|m: int|
                    0 <= m < i ==> #[trigger] wires@[m] == Target::Wire(input_wire(self.index, m)),
            decreases RESCUE_SPONGE_WIDTH - i,
        {
            wires.push(Target::Wire(Wire { gate: self.index, input: Self::wire_acc(i) }));
            i = i + 1;
        }
        wires
    }

    /// The fifth roots of `ins`, or the position of the first that has none.
    fn extract_roots(ins: &Vec<F>) -> (r: Result<Vec<F>, usize>)
        requires
            ins@.len() == RESCUE_SPONGE_WIDTH,
        ensures
            match r {
                Ok(roots) => roots@.len() == RESCUE_SPONGE_WIDTH && forall|i: int|
                    0 <= i < RESCUE_SPONGE_WIDTH ==> pow_mod(
                        (#[trigger] roots@[i]).value(),
                        5,
                        F::modulus(),
                    ) == ins@[i].value(),
                Err(at) => at < RESCUE_SPONGE_WIDTH && !has_root(
                    ins@[at as int].value(),
                    5,
                    F::modulus(),
                ) && forall|i: int|
                    0 <= i < at ==> has_root((#[trigger] ins@[i]).value(), 5, F::modulus()),
            },
    {
        let mut roots: Vec<F> = Vec::new();
        let mut i: usize = 0;
        while i < RESCUE_SPONGE_WIDTH
            invariant
                i <= RESCUE_SPONGE_WIDTH,
                ins@.len() == RESCUE_SPONGE_WIDTH,
                roots@.len() == i,
                forall|m: int|
                    0 <= m < i ==> pow_mod((#[trigger] roots@[m]).value(), 5, F::modulus())
                        == ins@[m].value(),
                forall|m: int| 0 <= m < i ==> has_root((#[trigger] ins@[m]).value(), 5, F::modulus()),
            decreases RESCUE_SPONGE_WIDTH - i,
        {
            match ins[i].kth_root_u32(5) {
                Some(root) => {
                    proof {
                        root.lemma_value_is_canonical();
                    }
                    roots.push(root);
                },
                None => {
                    return Err(i);
                },
            }
            i = i + 1;
        }
        Ok(roots)
    }

    /// The values that this gate derives from its inputs: the fifth root of
    /// each, on the root wires of its row, and the mixed state, on the
    /// accumulator wires of the row that follows. Fails where an input has
    /// no fifth root.
    pub fn generate(
        &self,
        prefixes: &GatePrefixes,
        constants: &[Vec<F>],
        witness: &PartialWitness<F>,
    ) -> (r: Result<PartialWitness<F>, WitnessError>)
        requires
            3 * RESCUE_SPONGE_WIDTH - 2 < F::modulus(),
            self.index < usize::MAX,
            prefixes@.contains_key(GateKind::RescueStepA),
            self.index < constants@.len(),
            constants@[self.index as int]@.len() >= prefixes@[GateKind::RescueStepA].len()
                + RESCUE_SPONGE_WIDTH,
            forall|i: int|
                0 <= i < RESCUE_SPONGE_WIDTH ==> witness@.contains_key(
                    #[trigger] input_wire(self.index, i),
                ),
        ensures
            r is Err <==> exists|i: int|
                0 <= i < RESCUE_SPONGE_WIDTH && !has_root(
                    witness@[#[trigger] input_wire(self.index, i)],
                    5,
                    F::modulus(),
                ),
            r matches Err(e) ==> exists|i: int|
                0 <= i < RESCUE_SPONGE_WIDTH && e == WitnessError::RootExtraction(
                    #[trigger] input_wire(self.index, i),
                ) && !has_root(witness@[input_wire(self.index, i)], 5, F::modulus()),
            r matches Ok(delta) ==> rescue_generated(
                self.index,
                prefixes@[GateKind::RescueStepA].len() as int,
                residues(constants@[self.index as int]@),
                witness@,
                delta@,
                F::modulus(),
            ),
            exponent_invertible(5, F::modulus()) ==> r is Ok,
    {
        let ghost p = F::modulus();
        let row = self.index;
        proof {
            if exponent_invertible(5, p) {
                F::lemma_modulus_is_prime();
                assert forall|i: int| 0 <= i < RESCUE_SPONGE_WIDTH implies has_root(
                    witness@[#[trigger] input_wire(row, i)],
                    5,
                    p,
                ) by {
                    witness.lemma_canonical(input_wire(row, i));
                    lemma_every_residue_has_a_root(witness@[input_wire(row, i)], 5, p);
                }
            }
        }
        let row_constants = &constants[row];
        let mut ins: Vec<F> = Vec::new();
        let mut k: usize = 0;
        while k < RESCUE_SPONGE_WIDTH
            invariant
                k <= RESCUE_SPONGE_WIDTH,
                row == self.index,
                forall|i: int|
                    0 <= i < RESCUE_SPONGE_WIDTH ==> witness@.contains_key(
                        #[trigger] input_wire(row, i),
                    ),
                ins@.len() == k,
                forall|m: int|
                    0 <= m < k ==> (#[trigger] ins@[m]).value() == witness@[input_wire(row, m)],
            decreases RESCUE_SPONGE_WIDTH - k,
        {
            assert(witness@.contains_key(input_wire(row, k as int)));
            ins.push(witness.get_wire(Wire { gate: row, input: Self::wire_acc(k) }));
            k = k + 1;
        }
        let roots = match Self::extract_roots(&ins) {
            Ok(roots) => roots,
            Err(at) => {
                proof {
                    assert(ins@[at as int].value() == witness@[input_wire(row, at as int)]);
                }
                return Err(WitnessError::RootExtraction(Wire { gate: row, input: Self::wire_acc(at) }));
            },
        };
        proof {
            assert forall|i: int| 0 <= i < RESCUE_SPONGE_WIDTH implies has_root(
                witness@[#[trigger] input_wire(row, i)],
                5,
                p,
            ) by {
                roots@[i].lemma_value_is_canonical();
                assert(pow_mod(roots@[i].value(), 5, p) == ins@[i].value());
            }
        }

        let mds = mds_matrix::<F>(RESCUE_SPONGE_WIDTH);
        let prefix_len: usize = match prefixes.get(GateKind::RescueStepA) {
            Some(code) => code.len(),
            None => unreached(),
        };
        let num_constants: usize = row_constants.len();
        let mut result = PartialWitness::new();
        let mut i: usize = 0;
        while i < RESCUE_SPONGE_WIDTH
            invariant
                i <= RESCUE_SPONGE_WIDTH,
                p == F::modulus(),
                p > 0,
                row == self.index,
                row < usize::MAX,
                mds.is_cauchy(),
                mds.size() == RESCUE_SPONGE_WIDTH,
                roots@.len() == RESCUE_SPONGE_WIDTH,
                num_constants == row_constants@.len(),
                num_constants >= prefix_len + RESCUE_SPONGE_WIDTH,
                forall|w: Wire|
                    result@.contains_key(w) <==> ((w.gate == row && RESCUE_SPONGE_WIDTH <= w.input
                        < RESCUE_SPONGE_WIDTH + i) || (w.gate == row + 1 && w.input < i)),
                forall|m: int|
                    0 <= m < i ==> #[trigger] result@[root_wire(row, m)] == roots@[m].value(),
                forall|m: int|
                    0 <= m < i ==> #[trigger] result@[output_wire(row, m)] == mix(
                        residues(row_constants@)[prefix_len + m],
                        residues(roots@),
                        m,
                        p,
                    ) % p,
            decreases RESCUE_SPONGE_WIDTH - i,
        {
            let ghost before = result@;
            let wire_root_i = Wire { gate: row, input: Self::wire_root(i) };
            let set_root = result.set_wire(wire_root_i, roots[i]);
            assert(set_root is Ok);
            let out_i = Self::mix_row(&mds, row_constants[prefix_len + i], &roots, i);
            let wire_out_i = Wire { gate: row + 1, input: Self::wire_acc(i) };
            let set_out = result.set_wire(wire_out_i, out_i);
            assert(set_out is Ok);
            proof {
                assert(wire_root_i == root_wire(row, i as int));
                assert(wire_out_i == output_wire(row, i as int));
                assert(residues(row_constants@)[prefix_len + i] == row_constants@[prefix_len + i].value());
                assert forall|m: int| 0 <= m < i + 1 implies #[trigger] result@[root_wire(row, m)]
                    == roots@[m].value() by {
                    if m < i {
                        assert(before[root_wire(row, m)] == roots@[m].value());
                    }
                }
                assert forall|m: int| 0 <= m < i + 1 implies #[trigger] result@[output_wire(row, m)]
                    == mix(residues(row_constants@)[prefix_len + m], residues(roots@), m, p)
                    % p by {
                    if m < i {
                        assert(before[output_wire(row, m)] == mix(
                            residues(row_constants@)[prefix_len + m],
                            residues(roots@),
                            m,
                            p,
                        ) % p);
                    }
                }
            }
            i = i + 1;
        }
        proof {
            assert(result@.dom() =~= generated_wires(row));
            assert(generated_roots(row, result@) =~= residues(roots@)) by {
                assert forall|j: int| 0 <= j < RESCUE_SPONGE_WIDTH implies generated_roots(
                    row,
                    result@,
                )[j] == residues(roots@)[j] by {
                    assert(result@[root_wire(row, j)] == roots@[j].value());
                }
            }
            assert forall|m: int| 0 <= m < RESCUE_SPONGE_WIDTH implies 0 <= #[trigger] result@[root_wire(
                row,
                m,
            )] < p && fifth_power(result@[root_wire(row, m)]) % p == witness@[input_wire(
                row,
                m,
            )] by {
                roots@[m].lemma_value_is_canonical();
                lemma_fifth_power(roots@[m].value(), p);
                assert(ins@[m].value() == witness@[input_wire(row, m)]);
            }
        }
        Ok(result)
    }
}

} // verus!
