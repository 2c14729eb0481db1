//! A builder of arithmetic circuits: every operation adds one node to an
//! expression graph and hands back a target that stands for its result.

use vstd::prelude::*;
use crate::error::WitnessError;
use crate::field::{residues, Field};
use crate::modular::{add_mod, mul_mod, pow_mod, sub_mod};
use crate::wire::{Target, Wire};
use crate::witness::PartialWitness;

verus! {

/// One node of the expression graph. Operands refer to wires of the circuit
/// being verified or to nodes that were added earlier.
#[derive(Debug)]
pub enum Operation<F: Field> {
    Constant(F),
    Add(Target, Target),
    Sub(Target, Target),
    Mul(Target, Target),
    /// The product of the first two operands plus the third.
    MulAdd(Target, Target, Target),
    /// The operand raised to a fixed power.
    Exp(Target, usize),
}

/// `t` is a wire, or a node with an index below `bound`.
pub open spec fn precedes(t: Target, bound: int) -> bool {
    match t {
        Target::Wire(_) => true,
        Target::Virtual(j) => j < bound,
    }
}

/// The height of a target in the graph: wires lie at the bottom.
pub open spec fn rank(t: Target) -> nat {
    match t {
        Target::Wire(_) => 0,
        Target::Virtual(j) => (j + 1) as nat,
    }
}

/// The value that `t` takes once every wire holds the value `env` gives it.
pub open spec fn eval_target<F: Field>(
    nodes: Seq<Operation<F>>,
    t: Target,
    env: Map<Wire, int>,
) -> int
    decreases rank(t),
{
    match t {
        Target::Wire(w) => env[w],
        Target::Virtual(i) => if i < nodes.len() {
            let p = F::modulus();
            match nodes[i as int] {
                Operation::Constant(c) => c.value(),
                Operation::Add(a, b) => if precedes(a, i as int) && precedes(b, i as int) {
                    add_mod(eval_target(nodes, a, env), eval_target(nodes, b, env), p)
                } else {
                    0
                },
                Operation::Sub(a, b) => if precedes(a, i as int) && precedes(b, i as int) {
                    sub_mod(eval_target(nodes, a, env), eval_target(nodes, b, env), p)
                } else {
                    0
                },
                Operation::Mul(a, b) => if precedes(a, i as int) && precedes(b, i as int) {
                    mul_mod(eval_target(nodes, a, env), eval_target(nodes, b, env), p)
                } else {
                    0
                },
                Operation::MulAdd(a, b, c) => if precedes(a, i as int) && precedes(b, i as int)
                    && precedes(c, i as int) {
                    add_mod(
                        mul_mod(eval_target(nodes, a, env), eval_target(nodes, b, env), p),
                        eval_target(nodes, c, env),
                        p,
                    )
                } else {
                    0
                },
                Operation::Exp(a, k) => if precedes(a, i as int) {
                    pow_mod(eval_target(nodes, a, env), k as nat, p)
                } else {
                    0
                },
            }
        } else {
            0
        },
    }
}

/// The larger of two degrees.
pub open spec fn max_degree(a: nat, b: nat) -> nat {
    if a >= b {
        a
    } else {
        b
    }
}

/// An upper bound on the total degree of `t` as a polynomial in the wires:
/// a wire counts 1, a constant 0, sums take the larger side, products add.
pub open spec fn degree_of<F: Field>(nodes: Seq<Operation<F>>, t: Target) -> nat
    decreases rank(t),
{
    match t {
        Target::Wire(_) => 1,
        Target::Virtual(i) => if i < nodes.len() {
            match nodes[i as int] {
                Operation::Constant(_) => 0,
                Operation::Add(a, b) => if precedes(a, i as int) && precedes(b, i as int) {
                    max_degree(degree_of(nodes, a), degree_of(nodes, b))
                } else {
                    0
                },
                Operation::Sub(a, b) => if precedes(a, i as int) && precedes(b, i as int) {
                    max_degree(degree_of(nodes, a), degree_of(nodes, b))
                } else {
                    0
                },
                Operation::Mul(a, b) => if precedes(a, i as int) && precedes(b, i as int) {
                    degree_of(nodes, a) + degree_of(nodes, b)
                } else {
                    0
                },
                Operation::MulAdd(a, b, c) => if precedes(a, i as int) && precedes(b, i as int)
                    && precedes(c, i as int) {
                    max_degree(degree_of(nodes, a) + degree_of(nodes, b), degree_of(nodes, c))
                } else {
                    0
                },
                Operation::Exp(a, k) => if precedes(a, i as int) {
                    (k as nat) * degree_of(nodes, a)
                } else {
                    0
                },
            }
        } else {
            0
        },
    }
}

/// `longer` begins with all of `shorter`.
pub open spec fn extends<F: Field>(longer: Seq<Operation<F>>, shorter: Seq<Operation<F>>) -> bool {
    &&& shorter.len() <= longer.len()
    &&& forall|i: int| 0 <= i < shorter.len() ==> longer[i] == shorter[i]
}

/// Adding nodes changes neither the value nor the degree of a target that
/// was there before.
pub proof fn lemma_extension_keeps<F: Field>(
    longer: Seq<Operation<F>>,
    shorter: Seq<Operation<F>>,
    t: Target,
    env: Map<Wire, int>,
)
    requires
        extends(longer, shorter),
        precedes(t, shorter.len() as int),
    ensures
        eval_target(longer, t, env) == eval_target(shorter, t, env),
        degree_of(longer, t) == degree_of(shorter, t),
    decreases rank(t),
{
    match t {
        Target::Wire(_) => {},
        Target::Virtual(i) => {
            let n = i as int;
            match shorter[n] {
                Operation::Constant(_) => {},
                Operation::Add(a, b) | Operation::Sub(a, b) | Operation::Mul(a, b) => {
                    if precedes(a, n) && precedes(b, n) {
                        lemma_extension_keeps(longer, shorter, a, env);
                        lemma_extension_keeps(longer, shorter, b, env);
                    }
                },
                Operation::MulAdd(a, b, c) => {
                    if precedes(a, n) && precedes(b, n) && precedes(c, n) {
                        lemma_extension_keeps(longer, shorter, a, env);
                        lemma_extension_keeps(longer, shorter, b, env);
                        lemma_extension_keeps(longer, shorter, c, env);
                    }
                },
                Operation::Exp(a, _) => {
                    if precedes(a, n) {
                        lemma_extension_keeps(longer, shorter, a, env);
                    }
                },
            }
        },
    }
}

/// The expression graph of a circuit under construction.
#[derive(Debug)]
pub struct CircuitBuilder<F: Field> {
    nodes: Vec<Operation<F>>,
}

impl<F: Field> View for CircuitBuilder<F> {
    type V = Seq<Operation<F>>;

    closed spec fn view(&self) -> Seq<Operation<F>> {
        self.nodes@
    }
}

impl<F: Field> CircuitBuilder<F> {
    /// `t` is a wire or a node of this builder.
    pub open spec fn owns(&self, t: Target) -> bool {
        precedes(t, self@.len() as int)
    }

    /// The value of `t` under an assignment of the wires.
    #[verifier::inline]
    pub open spec fn eval(&self, t: Target, env: Map<Wire, int>) -> int {
        eval_target(self@, t, env)
    }

    /// The degree bound of `t`.
    #[verifier::inline]
    pub open spec fn degree(&self, t: Target) -> nat {
        degree_of(self@, t)
    }

    /// Every target of `before` is one of `self`, with the same value and degree.
    pub open spec fn grows_from(&self, before: &Self) -> bool {
        &&& extends(self@, before@)
        &&& forall|t: Target| before.owns(t) ==> #[trigger] self.owns(t)
        &&& forall|t: Target, env: Map<Wire, int>|
            before.owns(t) ==> #[trigger] self.eval(t, env) == before.eval(t, env)
        &&& forall|t: Target| before.owns(t) ==> #[trigger] self.degree(t) == before.degree(t)
    }

    /// The values of `targets` under an assignment of the wires.
    pub open spec fn eval_all(&self, targets: Seq<Target>, env: Map<Wire, int>) -> Seq<int> {
        Seq::new(targets.len(), |i: int| self.eval(targets[i], env))
    }

    /// Each of `targets` is a wire or a node of this builder.
    pub open spec fn owns_all(&self, targets: Seq<Target>) -> bool {
        forall|i: int| 0 <= i < targets.len() ==> self.owns(#[trigger] targets[i])
    }

    /// Each of `targets` has a degree of at most `bound`.
    pub open spec fn degree_at_most(&self, targets: Seq<Target>, bound: nat) -> bool {
        forall|i: int| 0 <= i < targets.len() ==> self.degree(#[trigger] targets[i]) <= bound
    }

    /// A builder grows from itself.
    pub proof fn lemma_grows_from_self(&self)
        ensures
            self.grows_from(self),
    {
    }

    /// Growth composes.
    pub proof fn lemma_grows_from_transitive(&self, middle: &Self, first: &Self)
        requires
            self.grows_from(middle),
            middle.grows_from(first),
        ensures
            self.grows_from(first),
    {
        assert forall|t: Target| first.owns(t) implies #[trigger] self.owns(t) by {
            assert(middle.owns(t));
        }
        assert forall|t: Target, env: Map<Wire, int>| first.owns(t) implies #[trigger] self.eval(
            t,
            env,
        ) == first.eval(t, env) by {
            assert(middle.owns(t));
            assert(middle.eval(t, env) == first.eval(t, env));
        }
        assert forall|t: Target| first.owns(t) implies #[trigger] self.degree(t) == first.degree(
            t,
        ) by {
            assert(middle.owns(t));
            assert(middle.degree(t) == first.degree(t));
        }
    }

    /// A builder with no node.
    pub fn new() -> (r: Self)
        ensures
            r@.len() == 0,
    {
        CircuitBuilder { nodes: Vec::new() }
    }

    /// The number of nodes added so far.
    pub fn num_nodes(&self) -> (r: usize)
        ensures
            r == self@.len(),
    {
        self.nodes.len()
    }

    /// Adds one node and hands back the target that stands for it.
    fn push(&mut self, op: Operation<F>) -> (r: Target)
        ensures
            final(self)@ == old(self)@.push(op),
            r matches Target::Virtual(i) && i == old(self)@.len(),
            final(self).owns(r),
            final(self).grows_from(old(self)),
    {
        let index: usize = self.nodes.len();
        self.nodes.push(op);
        proof {
            assert forall|t: Target, env: Map<Wire, int>| old(self).owns(t) implies #[trigger]
                self.eval(t, env) == old(self).eval(t, env) by {
                lemma_extension_keeps(self@, old(self)@, t, env);
            }
            assert forall|t: Target| old(self).owns(t) implies #[trigger] self.degree(t) == old(
                self,
            ).degree(t) by {
                lemma_extension_keeps(self@, old(self)@, t, Map::empty());
            }
        }
        Target::Virtual(index)
    }

    /// A target that holds the constant `c`.
    pub fn constant_wire(&mut self, c: F) -> (r: Target)
        ensures
            final(self).owns(r),
            final(self).grows_from(old(self)),
            final(self)@ == old(self)@.push(Operation::Constant(c)),
            final(self).degree(r) == 0,
            forall|env: Map<Wire, int>| #[trigger] final(self).eval(r, env) == c.value(),
    {
        self.push(Operation::Constant(c))
    }

    /// A target that holds the small integer `n`.
    pub fn constant_wire_u32(&mut self, n: u32) -> (r: Target)
        requires
            n < F::modulus(),
        ensures
            final(self).owns(r),
            final(self).grows_from(old(self)),
            final(self)@.len() == old(self)@.len() + 1,
            final(self).degree(r) == 0,
            forall|env: Map<Wire, int>| #[trigger] final(self).eval(r, env) == n,
    {
        self.constant_wire(F::from_canonical_usize(n as usize))
    }

    /// A target that holds zero.
    pub fn zero_wire(&mut self) -> (r: Target)
        ensures
            final(self).owns(r),
            final(self).grows_from(old(self)),
            final(self)@.len() == old(self)@.len() + 1,
            final(self).degree(r) == 0,
            forall|env: Map<Wire, int>| #[trigger] final(self).eval(r, env) == 0,
    {
        self.constant_wire(F::zero())
    }

    /// A target that holds one.
    pub fn one_wire(&mut self) -> (r: Target)
        ensures
            final(self).owns(r),
            final(self).grows_from(old(self)),
            final(self)@.len() == old(self)@.len() + 1,
            final(self).degree(r) == 0,
            forall|env: Map<Wire, int>| #[trigger] final(self).eval(r, env) == 1,
    {
        self.constant_wire(F::one())
    }

    /// A target for the sum of two targets.
    pub fn add(&mut self, a: Target, b: Target) -> (r: Target)
        requires
            old(self).owns(a),
            old(self).owns(b),
        ensures
            final(self).owns(r),
            final(self).grows_from(old(self)),
            final(self)@ == old(self)@.push(Operation::Add(a, b)),
            final(self).degree(r) == max_degree(old(self).degree(a), old(self).degree(b)),
            forall|env: Map<Wire, int>| #[trigger]
                final(self).eval(r, env) == add_mod(
                    old(self).eval(a, env),
                    old(self).eval(b, env),
                    F::modulus(),
                ),
    {
        let r = self.push(Operation::Add(a, b));
        proof {
            assert(self.degree(a) == old(self).degree(a));
            assert(self.degree(b) == old(self).degree(b));
            assert forall|env: Map<Wire, int>| #[trigger]
                self.eval(r, env) == add_mod(old(self).eval(a, env), old(self).eval(b, env), F::modulus()) by {
                assert(self.eval(a, env) == old(self).eval(a, env));
                assert(self.eval(b, env) == old(self).eval(b, env));
            }
        }
        r
    }

    /// A target for the difference of two targets.
    pub fn sub(&mut self, a: Target, b: Target) -> (r: Target)
        requires
            old(self).owns(a),
            old(self).owns(b),
        ensures
            final(self).owns(r),
            final(self).grows_from(old(self)),
            final(self)@ == old(self)@.push(Operation::Sub(a, b)),
            final(self).degree(r) == max_degree(old(self).degree(a), old(self).degree(b)),
            forall|env: Map<Wire, int>| #[trigger]
                final(self).eval(r, env) == sub_mod(
                    old(self).eval(a, env),
                    old(self).eval(b, env),
                    F::modulus(),
                ),
    {
        let r = self.push(Operation::Sub(a, b));
        proof {
            assert(self.degree(a) == old(self).degree(a));
            assert(self.degree(b) == old(self).degree(b));
            assert forall|env: Map<Wire, int>| #[trigger]
                self.eval(r, env) == sub_mod(old(self).eval(a, env), old(self).eval(b, env), F::modulus()) by {
                assert(self.eval(a, env) == old(self).eval(a, env));
                assert(self.eval(b, env) == old(self).eval(b, env));
            }
        }
        r
    }

    /// A target for the product of two targets.
    pub fn mul(&mut self, a: Target, b: Target) -> (r: Target)
        requires
            old(self).owns(a),
            old(self).owns(b),
        ensures
            final(self).owns(r),
            final(self).grows_from(old(self)),
            final(self)@ == old(self)@.push(Operation::Mul(a, b)),
            final(self).degree(r) == old(self).degree(a) + old(self).degree(b),
            forall|env: Map<Wire, int>| #[trigger]
                final(self).eval(r, env) == mul_mod(
                    old(self).eval(a, env),
                    old(self).eval(b, env),
                    F::modulus(),
                ),
    {
        let r = self.push(Operation::Mul(a, b));
        proof {
            assert(self.degree(a) == old(self).degree(a));
            assert(self.degree(b) == old(self).degree(b));
            assert forall|env: Map<Wire, int>| #[trigger]
                self.eval(r, env) == mul_mod(old(self).eval(a, env), old(self).eval(b, env), F::modulus()) by {
                assert(self.eval(a, env) == old(self).eval(a, env));
                assert(self.eval(b, env) == old(self).eval(b, env));
            }
        }
        r
    }

    /// A target for `a * b + c`.
    pub fn mul_add(&mut self, a: Target, b: Target, c: Target) -> (r: Target)
        requires
            old(self).owns(a),
            old(self).owns(b),
            old(self).owns(c),
        ensures
            final(self).owns(r),
            final(self).grows_from(old(self)),
            final(self)@ == old(self)@.push(Operation::MulAdd(a, b, c)),
            final(self).degree(r) == max_degree(
                old(self).degree(a) + old(self).degree(b),
                old(self).degree(c),
            ),
            forall|env: Map<Wire, int>| #[trigger]
                final(self).eval(r, env) == add_mod(
                    mul_mod(old(self).eval(a, env), old(self).eval(b, env), F::modulus()),
                    old(self).eval(c, env),
                    F::modulus(),
                ),
    {
        let r = self.push(Operation::MulAdd(a, b, c));
        proof {
            assert(self.degree(a) == old(self).degree(a));
            assert(self.degree(b) == old(self).degree(b));
            assert(self.degree(c) == old(self).degree(c));
            assert forall|env: Map<Wire, int>| #[trigger]
                self.eval(r, env) == add_mod(
                    mul_mod(old(self).eval(a, env), old(self).eval(b, env), F::modulus()),
                    old(self).eval(c, env),
                    F::modulus(),
                ) by {
                assert(self.eval(a, env) == old(self).eval(a, env));
                assert(self.eval(b, env) == old(self).eval(b, env));
                assert(self.eval(c, env) == old(self).eval(c, env));
            }
        }
        r
    }

    /// A target for `a` raised to the fixed power `power`.
    pub fn exp_constant_usize(&mut self, a: Target, power: usize) -> (r: Target)
        requires
            old(self).owns(a),
        ensures
            final(self).owns(r),
            final(self).grows_from(old(self)),
            final(self)@ == old(self)@.push(Operation::Exp(a, power)),
            final(self).degree(r) == (power as nat) * old(self).degree(a),
            forall|env: Map<Wire, int>| #[trigger]
                final(self).eval(r, env) == pow_mod(
                    old(self).eval(a, env),
                    power as nat,
                    F::modulus(),
                ),
    {
        let r = self.push(Operation::Exp(a, power));
        proof {
            assert(self.degree(a) == old(self).degree(a));
            assert forall|env: Map<Wire, int>| #[trigger]
                self.eval(r, env) == pow_mod(old(self).eval(a, env), power as nat, F::modulus()) by {
                assert(self.eval(a, env) == old(self).eval(a, env));
            }
        }
        r
    }
}

/// The targets that an operation works on.
pub open spec fn operands<F: Field>(op: Operation<F>) -> Seq<Target> {
    match op {
        Operation::Constant(_) => seq![],
        Operation::Add(a, b) => seq![a, b],
        Operation::Sub(a, b) => seq![a, b],
        Operation::Mul(a, b) => seq![a, b],
        Operation::MulAdd(a, b, c) => seq![a, b, c],
        Operation::Exp(a, _) => seq![a],
    }
}

/// Node `i` works on the wire `w`, and on nothing that comes after it.
pub open spec fn reads<F: Field>(nodes: Seq<Operation<F>>, i: int, w: Wire) -> bool {
    &&& operands(nodes[i]).contains(Target::Wire(w))
    &&& forall|k: int|
        0 <= k < operands(nodes[i]).len() ==> precedes(#[trigger] operands(nodes[i])[k], i)
}

impl<F: Field> CircuitBuilder<F> {
    /// The targets that an operation works on.
    fn operand_list(op: &Operation<F>) -> (r: Vec<Target>)
        ensures
            r@ == operands(*op),
    {
        let mut list: Vec<Target> = Vec::new();
        match op {
            Operation::Constant(_) => {},
            Operation::Add(a, b) => {
                list.push(*a);
                list.push(*b);
            },
            Operation::Sub(a, b) => {
                list.push(*a);
                list.push(*b);
            },
            Operation::Mul(a, b) => {
                list.push(*a);
                list.push(*b);
            },
            Operation::MulAdd(a, b, c) => {
                list.push(*a);
                list.push(*b);
                list.push(*c);
            },
            Operation::Exp(a, _) => {
                list.push(*a);
            },
        }
        assert(list@ =~= operands(*op));
        list
    }

    /// Whether each of `list` is a wire or a node before node `bound`.
    fn all_precede(list: &Vec<Target>, bound: usize) -> (r: bool)
        ensures
            r == forall|k: int| 0 <= k < list@.len() ==> precedes(#[trigger] list@[k], bound as int),
    {
        let mut k: usize = 0;
        while k < list.len()
            invariant
                k <= list.len(),
                forall|m: int| 0 <= m < k ==> precedes(#[trigger] list@[m], bound as int),
            decreases list.len() - k,
        {
            let before = match list[k] {
                Target::Wire(_) => true,
                Target::Virtual(j) => j < bound,
            };
            if !before {
                return false;
            }
            k = k + 1;
        }
        true
    }

    /// The values of the operands of node `values.len()`, given the values
    /// of the nodes before it.
    fn read_operands(
        &self,
        values: &Vec<F>,
        witness: &PartialWitness<F>,
        list: &Vec<Target>,
    ) -> (r: Result<Vec<F>, WitnessError>)
        requires
            values@.len() <= self@.len(),
            forall|j: int|
                0 <= j < values@.len() ==> (#[trigger] values@[j]).value() == self.eval(
                    Target::Virtual(j as usize),
                    witness@,
                ),
            forall|k: int|
                0 <= k < list@.len() ==> precedes(#[trigger] list@[k], values@.len() as int),
        ensures
            match r {
                Ok(read) => read@.len() == list@.len() && (forall|k: int|
                    0 <= k < list@.len() ==> (#[trigger] read@[k]).value() == self.eval(
                        list@[k],
                        witness@,
                    )) && forall|w: Wire|
                    list@.contains(Target::Wire(w)) ==> witness@.contains_key(w),
                Err(e) => exists|w: Wire|
                    list@.contains(Target::Wire(w)) && e == WitnessError::UnresolvedWire(w)
                        && !witness@.contains_key(w),
            },
    {
        let mut read: Vec<F> = Vec::new();
        let mut k: usize = 0;
        while k < list.len()
            invariant
                k <= list.len(),
                values@.len() <= self@.len(),
                forall|j: int|
                    0 <= j < values@.len() ==> (#[trigger] values@[j]).value() == self.eval(
                        Target::Virtual(j as usize),
                        witness@,
                    ),
                forall|m: int|
                    0 <= m < list@.len() ==> precedes(#[trigger] list@[m], values@.len() as int),
                read@.len() == k,
                forall|m: int|
                    0 <= m < k ==> (#[trigger] read@[m]).value() == self.eval(list@[m], witness@),
                forall|m: int|
                    0 <= m < k ==> ((#[trigger] list@[m]) matches Target::Wire(w)
                        ==> witness@.contains_key(w)),
            decreases list.len() - k,
        {
            assert(precedes(list@[k as int], values@.len() as int));
            match list[k] {
                Target::Wire(w) => match witness.try_get_wire(w) {
                    Some(v) => {
                        read.push(v);
                    },
                    None => {
                        assert(list@[k as int] == Target::Wire(w));
                        return Err(WitnessError::UnresolvedWire(w));
                    },
                },
                Target::Virtual(j) => {
                    read.push(values[j]);
                },
            }
            k = k + 1;
        }
        proof {
            assert forall|w: Wire| list@.contains(Target::Wire(w)) implies witness@.contains_key(
                w,
            ) by {
                let m = choose|m: int| 0 <= m < list@.len() && list@[m] == Target::Wire(w);
                assert(list@[m] == Target::Wire(w));
            }
        }
        Ok(read)
    }

    /// The value of every node where the wires hold the values of the
    /// witness. A node reads a wire that the witness lacks: that wire is
    /// reported.
    pub fn node_values(&self, witness: &PartialWitness<F>) -> (r: Result<Vec<F>, WitnessError>)
        ensures
            r is Err <==> exists|i: int, w: Wire|
                0 <= i < self@.len() && #[trigger] reads(self@, i, w) && !witness@.contains_key(w),
            r matches Ok(values) ==> values@.len() == self@.len() && forall|j: int|
                0 <= j < values@.len() ==> (#[trigger] values@[j]).value() == self.eval(
                    Target::Virtual(j as usize),
                    witness@,
                ),
            r matches Err(e) ==> exists|i: int, w: Wire|
                0 <= i < self@.len() && #[trigger] reads(self@, i, w) && !witness@.contains_key(w)
                    && e == WitnessError::UnresolvedWire(w),
    {
        let ghost env = witness@;
        let mut values: Vec<F> = Vec::new();
        let mut i: usize = 0;
        while i < self.nodes.len()
            invariant
                i <= self@.len(),
                env == witness@,
                values@.len() == i,
                forall|j: int|
                    0 <= j < i ==> (#[trigger] values@[j]).value() == self.eval(
                        Target::Virtual(j as usize),
                        env,
                    ),
                forall|j: int, w: Wire|
                    0 <= j < i && #[trigger] reads(self@, j, w) ==> env.contains_key(w),
            decreases self@.len() - i,
        {
            let list = Self::operand_list(&self.nodes[i]);
            let value = if Self::all_precede(&list, i) {
                let read = match self.read_operands(&values, witness, &list) {
                    Ok(read) => read,
                    Err(e) => {
                        proof {
                            let w = choose|w: Wire|
                                list@.contains(Target::Wire(w)) && e
                                    == WitnessError::UnresolvedWire(w) && !env.contains_key(w);
                            assert(reads(self@, i as int, w));
                        }
                        return Err(e);
                    },
                };
                match &self.nodes[i] {
                    Operation::Constant(c) => *c,
                    Operation::Add(_, _) => read[0].add(read[1]),
                    Operation::Sub(_, _) => read[0].sub(read[1]),
                    Operation::Mul(_, _) => read[0].mul(read[1]),
                    Operation::MulAdd(_, _, _) => read[0].mul(read[1]).add(read[2]),
                    Operation::Exp(_, power) => read[0].exp_usize(*power),
                }
            } else {
                F::zero()
            };
            proof {
                assert(forall|k: int| 0 <= k < list@.len() ==> list@[k] == operands(self@[i as int])[k]);
            }
            values.push(value);
            i = i + 1;
        }
        Ok(values)
    }

    /// The value of `t` where the wires hold the values of the witness.
    pub fn evaluate(&self, t: Target, witness: &PartialWitness<F>) -> (r: Result<F, WitnessError>)
        ensures
            r is Err <==> (exists|i: int, w: Wire|
                0 <= i < self@.len() && #[trigger] reads(self@, i, w) && !witness@.contains_key(w))
                || (t matches Target::Wire(w) && !witness@.contains_key(w)),
            r matches Ok(v) ==> v.value() == self.eval(t, witness@),
            r matches Err(e) ==> exists|w: Wire|
                e == WitnessError::UnresolvedWire(w) && !witness@.contains_key(w),
    {
        let values = match self.node_values(witness) {
            Ok(values) => values,
            Err(e) => {
                return Err(e);
            },
        };
        match t {
            Target::Wire(w) => match witness.try_get_wire(w) {
                Some(v) => Ok(v),
                None => Err(WitnessError::UnresolvedWire(w)),
            },
            Target::Virtual(j) => if j < values.len() {
                Ok(values[j])
            } else {
                Ok(F::zero())
            },
        }
    }

    /// The values of `targets` where the wires hold the values of the witness.
    pub fn evaluate_all(&self, targets: &Vec<Target>, witness: &PartialWitness<F>) -> (r: Result<
        Vec<F>,
        WitnessError,
    >)
        ensures
            r is Err <==> (exists|i: int, w: Wire|
                0 <= i < self@.len() && #[trigger] reads(self@, i, w) && !witness@.contains_key(w))
                || (exists|k: int|
                0 <= k < targets@.len() && (#[trigger] targets@[k] matches Target::Wire(w)
                    && !witness@.contains_key(w))),
            r matches Ok(values) ==> residues(values@) == self.eval_all(targets@, witness@),
            r matches Err(e) ==> exists|w: Wire|
                e == WitnessError::UnresolvedWire(w) && !witness@.contains_key(w),
    {
        let values = match self.node_values(witness) {
            Ok(values) => values,
            Err(e) => {
                return Err(e);
            },
        };
        let mut out: Vec<F> = Vec::new();
        let mut k: usize = 0;
        while k < targets.len()
            invariant
                k <= targets.len(),
                values@.len() == self@.len(),
                forall|j: int|
                    0 <= j < values@.len() ==> (#[trigger] values@[j]).value() == self.eval(
                        Target::Virtual(j as usize),
                        witness@,
                    ),
                out@.len() == k,
                forall|m: int|
                    0 <= m < k ==> (#[trigger] out@[m]).value() == self.eval(targets@[m], witness@),
                forall|m: int|
                    0 <= m < k ==> ((#[trigger] targets@[m]) matches Target::Wire(w)
                        ==> witness@.contains_key(w)),
                forall|i: int, w: Wire|
                    0 <= i < self@.len() && #[trigger] reads(self@, i, w) ==> witness@.contains_key(
                        w,
                    ),
            decreases targets.len() - k,
        {
            let value = match targets[k] {
                Target::Wire(w) => match witness.try_get_wire(w) {
                    Some(v) => v,
                    None => {
                        return Err(WitnessError::UnresolvedWire(w));
                    },
                },
                Target::Virtual(j) => if j < values.len() {
                    values[j]
                } else {
                    F::zero()
                },
            };
            out.push(value);
            k = k + 1;
        }
        proof {
            assert(residues(out@) =~= self.eval_all(targets@, witness@));
        }
        Ok(out)
    }
}

} // verus!
