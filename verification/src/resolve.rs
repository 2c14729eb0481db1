//! Witness resolution: running the generators of a circuit until no one of
//! them can derive anything more.

use vstd::prelude::*;
use crate::circuit::Circuit;
use crate::collection::{GateKind, RESCUE_SPONGE_WIDTH};
use crate::error::WitnessError;
use crate::fermat::exponent_invertible;
use crate::field::Field;
use crate::gates::base_4_sum::Base4SumGate;
use crate::gates::buffer::BufferGate;
use crate::gates::rescue_a::{
    generated_wires, input_wire, lemma_generated_is_unique, rescue_generated, RescueStepAGate,
};
use crate::wire::{Target, Wire};
use crate::witness::{lemma_submap_value, PartialWitness};

verus! {

/// The targets that the generator of a gate of this variant at `row` reads.
pub open spec fn dependencies_of(kind: GateKind, row: usize) -> Seq<Target> {
    match kind {
        GateKind::RescueStepA => Seq::new(
            RESCUE_SPONGE_WIDTH as nat,
            |i: int| Target::Wire(input_wire(row, i)),
        ),
        _ => Seq::empty(),
    }
}

/// The wires that the generator of a gate of this variant at `row` assigns.
pub open spec fn outputs_of(kind: GateKind, row: usize) -> Set<Wire> {
    match kind {
        GateKind::RescueStepA => generated_wires(row),
        _ => Set::empty(),
    }
}

/// Every one of `targets` is a wire that the assignment holds.
pub open spec fn holds_all(assignment: Map<Wire, int>, targets: Seq<Target>) -> bool {
    forall|k: int|
        0 <= k < targets.len() ==> ((#[trigger] targets[k]) matches Target::Wire(w)
            && assignment.contains_key(w))
}

/// The assignment holds everything that the generator of `row` reads.
pub open spec fn ready(rows: Seq<GateKind>, row: int, assignment: Map<Wire, int>) -> bool {
    holds_all(assignment, dependencies_of(rows[row], row as usize))
}

/// `wire` gets a value within `depth` rounds of generators: it is given, or
/// a generator assigns it whose dependencies all get their values a round
/// earlier.
pub open spec fn reachable(rows: Seq<GateKind>, given: Set<Wire>, wire: Wire, depth: nat) -> bool
    decreases depth,
{
    given.contains(wire) || (depth > 0 && (reachable(rows, given, wire, (depth - 1) as nat)
        || exists|row: int|
        0 <= row < rows.len() && outputs_of(#[trigger] rows[row], row as usize).contains(wire)
            && forall|k: int|
            0 <= k < dependencies_of(rows[row], row as usize).len() ==> ((
            #[trigger] dependencies_of(rows[row], row as usize)[k]) matches Target::Wire(w)
                && reachable(rows, given, w, (depth - 1) as nat))))
}

/// The number of entries that are not set.
pub open spec fn count_false(flags: Seq<bool>) -> nat
    decreases flags.len(),
{
    if flags.len() == 0 {
        0
    } else {
        count_false(flags.drop_last()) + if flags.last() {
            0nat
        } else {
            1nat
        }
    }
}

/// Setting an entry that was not set leaves fewer entries that are not.
pub proof fn lemma_count_false_decreases(flags: Seq<bool>, i: int)
    requires
        0 <= i < flags.len(),
        !flags[i],
    ensures
        count_false(flags.update(i, true)) < count_false(flags),
    decreases flags.len(),
{
    let set = flags.update(i, true);
    if i == flags.len() - 1 {
        assert(set.drop_last() =~= flags.drop_last());
    } else {
        lemma_count_false_decreases(flags.drop_last(), i);
        assert(set.drop_last() =~= flags.drop_last().update(i, true));
    }
}

/// What is reachable within some number of rounds is reachable within more.
pub proof fn lemma_reachable_later(
    rows: Seq<GateKind>,
    given: Set<Wire>,
    wire: Wire,
    depth: nat,
    later: nat,
)
    requires
        reachable(rows, given, wire, depth),
        depth <= later,
    ensures
        reachable(rows, given, wire, later),
    decreases later,
{
    if depth < later {
        lemma_reachable_later(rows, given, wire, depth, (later - 1) as nat);
    }
}

/// An assignment that holds what is given, and what every generator that
/// is ready assigns, holds every wire that is reachable.
pub proof fn lemma_closed_holds_reachable(
    rows: Seq<GateKind>,
    given: Set<Wire>,
    assignment: Map<Wire, int>,
    wire: Wire,
    depth: nat,
)
    requires
        given.subset_of(assignment.dom()),
        forall|row: int|
            0 <= row < rows.len() && #[trigger] ready(rows, row, assignment) ==> outputs_of(
                rows[row],
                row as usize,
            ).subset_of(assignment.dom()),
        reachable(rows, given, wire, depth),
    ensures
        assignment.contains_key(wire),
    decreases depth,
{
    if !given.contains(wire) {
        let before = (depth - 1) as nat;
        if reachable(rows, given, wire, before) {
            lemma_closed_holds_reachable(rows, given, assignment, wire, before);
        } else {
            let row = choose|row: int|
                0 <= row < rows.len() && outputs_of(#[trigger] rows[row], row as usize).contains(
                    wire,
                ) && forall|k: int|
                    0 <= k < dependencies_of(rows[row], row as usize).len() ==> ((
                    #[trigger] dependencies_of(rows[row], row as usize)[k]) matches Target::Wire(w)
                        && reachable(rows, given, w, before));
            let deps = dependencies_of(rows[row], row as usize);
            assert forall|k: int| 0 <= k < deps.len() implies ((#[trigger] deps[k]) matches Target::Wire(
                w,
            ) && assignment.contains_key(w)) by {
                match deps[k] {
                    Target::Wire(w) => {
                        lemma_closed_holds_reachable(rows, given, assignment, w, before);
                    },
                    Target::Virtual(_) => {},
                }
            }
            assert(ready(rows, row, assignment));
        }
    }
}

/// Whether every one of `targets` is a wire that the witness holds.
pub fn holds_targets<F: Field>(witness: &PartialWitness<F>, targets: &Vec<Target>) -> (r: bool)
    ensures
        r == holds_all(witness@, targets@),
{
    let mut k: usize = 0;
    while k < targets.len()
        invariant
            k <= targets.len(),
            forall|m: int|
                0 <= m < k ==> ((#[trigger] targets@[m]) matches Target::Wire(w)
                    && witness@.contains_key(w)),
        decreases targets.len() - k,
    {
        let held = match targets[k] {
            Target::Wire(w) => witness.contains_wire(w),
            Target::Virtual(_) => false,
        };
        if !held {
            return false;
        }
        k = k + 1;
    }
    true
}

/// The first of `required` that the witness does not hold.
pub fn first_missing<F: Field>(witness: &PartialWitness<F>, required: &Vec<Wire>) -> (r: Option<
    Wire,
>)
    ensures
        match r {
            Some(wire) => exists|i: int|
                0 <= i < required@.len() && #[trigger] required@[i] == wire
                    && !witness@.contains_key(wire) && forall|j: int|
                    0 <= j < i ==> witness@.contains_key(#[trigger] required@[j]),
            None => forall|i: int|
                0 <= i < required@.len() ==> witness@.contains_key(#[trigger] required@[i]),
        },
{
    let mut i: usize = 0;
    while i < required.len()
        invariant
            i <= required.len(),
            forall|m: int| 0 <= m < i ==> witness@.contains_key(#[trigger] required@[m]),
        decreases required.len() - i,
    {
        if !witness.contains_wire(required[i]) {
            return Some(required[i]);
        }
        i = i + 1;
    }
    None
}

impl<F: Field> Circuit<F> {
    /// `delta` is what the generator of `row` derives from the assignment.
    pub open spec fn row_generated(
        &self,
        row: int,
        assignment: Map<Wire, int>,
        delta: Map<Wire, int>,
    ) -> bool {
        match self.rows()[row] {
            GateKind::RescueStepA => rescue_generated(
                row as usize,
                self.prefix_len(row),
                self.constants()[row],
                assignment,
                delta,
                F::modulus(),
            ),
            _ => delta == Map::<Wire, int>::empty(),
        }
    }

    /// The assignment holds what the generator of `row` derives from it.
    pub open spec fn derived(&self, row: int, assignment: Map<Wire, int>) -> bool {
        exists|delta: Map<Wire, int>| #[trigger]
            delta.submap_of(assignment) && self.row_generated(row, assignment, delta)
    }

    /// Every generator that is ready has its values in the assignment.
    pub open spec fn closed(&self, assignment: Map<Wire, int>) -> bool {
        forall|row: int|
            0 <= row < self.rows().len() && #[trigger] ready(self.rows(), row, assignment)
                ==> self.derived(row, assignment)
    }

    /// The assignment holds what is given, and is closed.
    pub open spec fn fixpoint(&self, given: Map<Wire, int>, assignment: Map<Wire, int>) -> bool {
        given.submap_of(assignment) && self.closed(assignment)
    }

    /// The assignment is a resolution: it holds what is given with the
    /// given values, exactly the wires that are reachable from there, what
    /// every generator that is ready derives, and every required wire.
    pub open spec fn resolves(
        &self,
        given: Map<Wire, int>,
        required: Seq<Wire>,
        assignment: Map<Wire, int>,
    ) -> bool {
        &&& self.fixpoint(given, assignment)
        &&& forall|wire: Wire|
            assignment.contains_key(wire) <==> exists|depth: nat| #[trigger]
                reachable(self.rows(), given.dom(), wire, depth)
        &&& forall|i: int|
            0 <= i < required.len() ==> assignment.contains_key(#[trigger] required[i])
    }

    /// Where fifth powers permute the field, what a generator derives from
    /// a part of a closed assignment lies in that assignment.
    pub proof fn lemma_step_stays_below(
        &self,
        row: int,
        current: Map<Wire, int>,
        delta: Map<Wire, int>,
        closed: Map<Wire, int>,
    )
        requires
            self.wf(),
            exponent_invertible(5, F::modulus()),
            0 <= row < self.rows().len(),
            row < usize::MAX,
            ready(self.rows(), row, current),
            self.row_generated(row, current, delta),
            current.submap_of(closed),
            self.closed(closed),
        ensures
            delta.submap_of(closed),
    {
        let deps = dependencies_of(self.rows()[row], row as usize);
        assert forall|k: int| 0 <= k < deps.len() implies ((#[trigger] deps[k]) matches Target::Wire(
            w,
        ) && closed.contains_key(w)) by {
            match deps[k] {
                Target::Wire(w) => {
                    assert(current.dom().contains(w));
                },
                Target::Virtual(_) => {},
            }
        }
        assert(ready(self.rows(), row, closed));
        assert(self.derived(row, closed));
        let other = choose|other: Map<Wire, int>| #[trigger]
            other.submap_of(closed) && self.row_generated(row, closed, other);
        if self.rows()[row] == GateKind::RescueStepA {
            assert forall|k: int| 0 <= k < RESCUE_SPONGE_WIDTH implies closed[input_wire(
                row as usize,
                k,
            )] == current[#[trigger] input_wire(row as usize, k)] by {
                assert(deps[k] == Target::Wire(input_wire(row as usize, k)));
                assert(current.dom().contains(input_wire(row as usize, k)));
            }
            assert(self.row_generated(row, current, other));
            assert(row + 1 < self.rows().len());
            F::lemma_modulus_is_prime();
            lemma_generated_is_unique(
                row as usize,
                self.prefix_len(row),
                self.constants()[row],
                current,
                delta,
                other,
                F::modulus(),
            );
        }
    }

    /// What a generator derives has the wires of its variant.
    pub proof fn lemma_generated_dom(
        &self,
        row: int,
        assignment: Map<Wire, int>,
        delta: Map<Wire, int>,
    )
        requires
            self.row_generated(row, assignment, delta),
        ensures
            delta.dom() == outputs_of(self.rows()[row], row as usize),
    {
        assert(delta.dom() =~= outputs_of(self.rows()[row], row as usize));
    }

    /// What a generator derived stays derived when the assignment grows.
    pub proof fn lemma_derived_stays(
        &self,
        row: int,
        smaller: Map<Wire, int>,
        larger: Map<Wire, int>,
    )
        requires
            0 <= row <= usize::MAX,
            ready(self.rows(), row, smaller),
            self.derived(row, smaller),
            smaller.submap_of(larger),
        ensures
            ready(self.rows(), row, larger),
            self.derived(row, larger),
    {
        let delta = choose|delta: Map<Wire, int>| #[trigger]
            delta.submap_of(smaller) && self.row_generated(row, smaller, delta);
        let deps = dependencies_of(self.rows()[row], row as usize);
        assert forall|k: int| 0 <= k < deps.len() implies ((#[trigger] deps[k]) matches Target::Wire(
            w,
        ) && larger.contains_key(w)) by {
            match deps[k] {
                Target::Wire(w) => {
                    assert(smaller.dom().contains(w));
                },
                Target::Virtual(_) => {},
            }
        }
        assert(delta.submap_of(larger)) by {
            assert forall|w: Wire| delta.dom().contains(w) implies #[trigger] larger.dom().contains(
                w,
            ) && delta[w] == larger[w] by {
                assert(smaller.dom().contains(w));
            }
        }
        if self.rows()[row] == GateKind::RescueStepA {
            assert forall|k: int| 0 <= k < RESCUE_SPONGE_WIDTH implies larger[input_wire(
                row as usize,
                k,
            )] == smaller[#[trigger] input_wire(row as usize, k)] by {
                assert(deps[k] == Target::Wire(input_wire(row as usize, k)));
                assert(smaller.dom().contains(input_wire(row as usize, k)));
            }
        }
        assert(self.row_generated(row, larger, delta));
    }

    /// Once a generator has run and its values are taken over, the
    /// assignment holds what the generator derives from it.
    pub proof fn lemma_run_is_derived(
        &self,
        row: int,
        before: Map<Wire, int>,
        delta: Map<Wire, int>,
        after: Map<Wire, int>,
    )
        requires
            0 <= row <= usize::MAX,
            ready(self.rows(), row, before),
            self.row_generated(row, before, delta),
            before.submap_of(after),
            delta.submap_of(after),
        ensures
            ready(self.rows(), row, after),
            self.derived(row, after),
    {
        let deps = dependencies_of(self.rows()[row], row as usize);
        assert forall|k: int| 0 <= k < deps.len() implies ((#[trigger] deps[k]) matches Target::Wire(
            w,
        ) && after.contains_key(w)) by {
            match deps[k] {
                Target::Wire(w) => {
                    assert(before.dom().contains(w));
                },
                Target::Virtual(_) => {},
            }
        }
        if self.rows()[row] == GateKind::RescueStepA {
            assert forall|k: int| 0 <= k < RESCUE_SPONGE_WIDTH implies after[input_wire(
                row as usize,
                k,
            )] == before[#[trigger] input_wire(row as usize, k)] by {
                assert(deps[k] == Target::Wire(input_wire(row as usize, k)));
                assert(before.dom().contains(input_wire(row as usize, k)));
            }
        }
        assert(self.row_generated(row, after, delta));
    }

    /// A closed assignment that holds what is given holds every reachable wire.
    pub proof fn lemma_closed_is_complete(
        &self,
        given: Set<Wire>,
        assignment: Map<Wire, int>,
        wire: Wire,
        depth: nat,
    )
        requires
            given.subset_of(assignment.dom()),
            self.closed(assignment),
            reachable(self.rows(), given, wire, depth),
        ensures
            assignment.contains_key(wire),
    {
        assert forall|row: int|
            0 <= row < self.rows().len() && #[trigger] ready(
                self.rows(),
                row,
                assignment,
            ) implies outputs_of(self.rows()[row], row as usize).subset_of(assignment.dom()) by {
            assert(self.derived(row, assignment));
            let delta = choose|delta: Map<Wire, int>| #[trigger]
                delta.submap_of(assignment) && self.row_generated(row, assignment, delta);
            self.lemma_generated_dom(row, assignment, delta);
            assert forall|w: Wire|
                outputs_of(self.rows()[row], row as usize).contains(
                    w,
                ) implies assignment.dom().contains(w) by {
                assert(delta.dom().contains(w));
            }
        }
        lemma_closed_holds_reachable(self.rows(), given, assignment, wire, depth);
    }

    /// The targets that the generator of `row` reads.
    pub fn dependencies(&self, row: usize) -> (r: Vec<Target>)
        requires
            row < self.rows().len(),
        ensures
            r@ == dependencies_of(self.rows()[row as int], row),
    {
        let deps = match self.gate(row) {
            GateKind::Base4Sum => Base4SumGate::<F>::new(row).dependencies(),
            GateKind::Buffer => BufferGate::<F>::new(row).dependencies(),
            GateKind::RescueStepA => RescueStepAGate::<F>::new(row).dependencies(),
        };
        assert(deps@ =~= dependencies_of(self.rows()[row as int], row));
        deps
    }

    /// What the generator of `row` derives from the witness.
    pub fn generate_row(&self, row: usize, witness: &PartialWitness<F>) -> (r: Result<
        PartialWitness<F>,
        WitnessError,
    >)
        requires
            self.wf(),
            row < self.rows().len(),
            ready(self.rows(), row as int, witness@),
        ensures
            r matches Ok(delta) ==> self.row_generated(row as int, witness@, delta@),
            r matches Err(e) ==> self.rows()[row as int] == GateKind::RescueStepA
                && !exponent_invertible(5, F::modulus()) && exists|k: int|
                0 <= k < RESCUE_SPONGE_WIDTH && e == WitnessError::RootExtraction(
                    #[trigger] input_wire(row, k),
                ),
    {
        let num_rows: usize = self.num_rows();
        match self.gate(row) {
            GateKind::Base4Sum => Ok(
                Base4SumGate::<F>::new(row).generate(
                    self.gates().prefixes(),
                    self.constant_rows(),
                    witness,
                ),
            ),
            GateKind::Buffer => Ok(
                BufferGate::<F>::new(row).generate(
                    self.gates().prefixes(),
                    self.constant_rows(),
                    witness,
                ),
            ),
            GateKind::RescueStepA => {
                proof {
                    let deps = dependencies_of(GateKind::RescueStepA, row);
                    assert(self.rows()[row as int] == GateKind::RescueStepA);
                    assert(row + 1 < num_rows);
                    assert forall|k: int| 0 <= k < RESCUE_SPONGE_WIDTH implies witness@.contains_key(
                        #[trigger] input_wire(row, k),
                    ) by {
                        assert(deps[k] == Target::Wire(input_wire(row, k)));
                    }
                }
                RescueStepAGate::<F>::new(row).generate(
                    self.gates().prefixes(),
                    self.constant_rows(),
                    witness,
                )
            },
        }
    }

    /// Runs the generators of the circuit, each as soon as the witness
    /// holds what it reads, until none is left that can run; then asks
    /// that every wire of `required` has its value.
    ///
    /// On success the witness is a resolution: it holds exactly the wires
    /// that are reachable from the given ones, the given ones with their
    /// given values, and what every generator that is ready derives. A
    /// required wire that is not reachable, a value without the root that a
    /// generator needs, and two different values for one wire are reported.
    ///
    /// Where fifth powers permute the field, there is at most one
    /// resolution, and the call succeeds exactly when there is one.
    pub fn resolve(&self, inputs: PartialWitness<F>, required: &Vec<Wire>) -> (r: Result<
        PartialWitness<F>,
        WitnessError,
    >)
        requires
            self.wf(),
        ensures
            exponent_invertible(5, F::modulus()) ==> (r is Ok <==> exists|w: Map<Wire, int>| #[trigger]
                self.resolves(inputs@, required@, w)),
            exponent_invertible(5, F::modulus()) ==> (r matches Ok(witness) ==> forall|
                w: Map<Wire, int>,
            | #[trigger]
                self.resolves(inputs@, required@, w) ==> w == witness@),
            match r {
                Ok(witness) => self.resolves(inputs@, required@, witness@),
                Err(WitnessError::UnresolvedWire(wire)) => required@.contains(wire) && forall|
                    depth: nat,
                |
                    !#[trigger] reachable(self.rows(), inputs@.dom(), wire, depth),
                Err(WitnessError::ConflictingAssignment(wire)) => exists|row: int|
                    0 <= row < self.rows().len() && outputs_of(
                        #[trigger] self.rows()[row],
                        row as usize,
                    ).contains(wire),
                Err(WitnessError::RootExtraction(wire)) => !exponent_invertible(5, F::modulus())
                    && exists|row: int, k: int|
                    0 <= row < self.rows().len() && self.rows()[row] == GateKind::RescueStepA && 0
                        <= k < RESCUE_SPONGE_WIDTH && wire == #[trigger] input_wire(
                        row as usize,
                        k,
                    ),
                Err(WitnessError::ConstraintViolation { .. }) => false,
            },
    {
        let ghost rows = self.rows();
        let ghost given = inputs@;
        let ghost unique = exponent_invertible(5, F::modulus());
        let n: usize = self.num_rows();
        let mut ran: Vec<bool> = Vec::new();
        while ran.len() < n
            invariant
                ran@.len() <= n,
                forall|i: int| 0 <= i < ran@.len() ==> !#[trigger] ran@[i],
            decreases n - ran@.len(),
        {
            ran.push(false);
        }
        let mut witness = inputs;
        let ghost mut depth: nat = 0;
        let mut progress = true;
        while progress
            invariant
                self.wf(),
                rows == self.rows(),
                n == rows.len(),
                ran@.len() == n,
                given.submap_of(witness@),
                given == inputs@,
                unique == exponent_invertible(5, F::modulus()),
                unique ==> forall|w: Map<Wire, int>| #[trigger]
                    self.fixpoint(given, w) ==> witness@.submap_of(w),
                forall|wire: Wire|
                    witness@.contains_key(wire) ==> reachable(rows, given.dom(), wire, depth),
                forall|row: int|
                    0 <= row < n && #[trigger] ran@[row] ==> ready(rows, row, witness@)
                        && self.derived(row, witness@),
                !progress ==> forall|row: int|
                    0 <= row < n && !#[trigger] ran@[row] ==> !ready(rows, row, witness@),
            decreases
                    count_false(ran@),
                    if progress {
                        1nat
                    } else {
                        0nat
                    },
        {
            let ghost pending = count_false(ran@);
            progress = false;
            let mut i: usize = 0;
            while i < n
                invariant
                    i <= n,
                    self.wf(),
                    rows == self.rows(),
                    n == rows.len(),
                    ran@.len() == n,
                    given.submap_of(witness@),
                    given == inputs@,
                unique == exponent_invertible(5, F::modulus()),
                    unique ==> forall|w: Map<Wire, int>| #[trigger]
                        self.fixpoint(given, w) ==> witness@.submap_of(w),
                    forall|wire: Wire|
                        witness@.contains_key(wire) ==> reachable(rows, given.dom(), wire, depth),
                    forall|row: int|
                        0 <= row < n && #[trigger] ran@[row] ==> ready(rows, row, witness@)
                            && self.derived(row, witness@),
                    !progress ==> forall|row: int|
                        0 <= row < i && !#[trigger] ran@[row] ==> !ready(rows, row, witness@),
                    count_false(ran@) <= pending,
                    progress ==> count_false(ran@) < pending,
                decreases n - i,
            {
                if !ran[i] {
                    let deps = self.dependencies(i);
                    if holds_targets(&witness, &deps) {
                        let ghost before = witness@;
                        let ghost flags = ran@;
                        assert(ready(rows, i as int, before));
                        let delta = match self.generate_row(i, &witness) {
                            Ok(delta) => delta,
                            Err(e) => {
                                return Err(e);
                            },
                        };
                        proof {
                            self.lemma_generated_dom(i as int, before, delta@);
                            if unique {
                                assert forall|w: Map<Wire, int>| #[trigger]
                                    self.fixpoint(given, w) implies delta@.submap_of(w) by {
                                    self.lemma_step_stays_below(i as int, before, delta@, w);
                                }
                            }
                        }
                        match witness.merge(&delta) {
                            Ok(()) => {},
                            Err(e) => {
                                proof {
                                    let wire = choose|wire: Wire|
                                        e == WitnessError::ConflictingAssignment(wire)
                                            && before.contains_key(wire) && delta@.contains_key(
                                            wire,
                                        ) && before[wire] != delta@[wire];
                                    assert(delta@.dom().contains(wire));
                                    assert(outputs_of(rows[i as int], i).contains(wire));
                                    if unique {
                                        assert forall|w: Map<Wire, int>| !#[trigger] self.fixpoint(
                                            given,
                                            w,
                                        ) by {
                                            if self.fixpoint(given, w) {
                                                assert(before.submap_of(w));
                                                assert(delta@.submap_of(w));
                                                lemma_submap_value(before, w, wire);
                                                lemma_submap_value(delta@, w, wire);
                                            }
                                        }
                                        assert forall|w: Map<Wire, int>| !#[trigger] self.resolves(
                                            given,
                                            required@,
                                            w,
                                        ) by {
                                            assert(!self.fixpoint(given, w));
                                        }
                                    }
                                }
                                return Err(e);
                            },
                        }
                        ran.set(i, true);
                        progress = true;
                        proof {
                            let after = witness@;
                            assert(before.submap_of(after));
                            assert(delta@.submap_of(after));
                            assert(given.submap_of(after));
                            if unique {
                                assert forall|w: Map<Wire, int>| #[trigger]
                                    self.fixpoint(given, w) implies after.submap_of(w) by {
                                    assert(before.submap_of(w));
                                    assert(delta@.submap_of(w));
                                    assert forall|x: Wire| after.dom().contains(x) implies #[trigger] w.dom().contains(
                                        x,
                                    ) && after[x] == w[x] by {
                                        if delta@.dom().contains(x) {
                                            lemma_submap_value(delta@, w, x);
                                        } else {
                                            lemma_submap_value(before, w, x);
                                        }
                                    }
                                    assert(after.submap_of(w));
                                }
                            }
                            lemma_count_false_decreases(flags, i as int);
                            assert forall|wire: Wire| after.contains_key(wire) implies reachable(
                                rows,
                                given.dom(),
                                wire,
                                depth + 1,
                            ) by {
                                if before.contains_key(wire) {
                                    lemma_reachable_later(
                                        rows,
                                        given.dom(),
                                        wire,
                                        depth,
                                        depth + 1,
                                    );
                                } else {
                                    assert(delta@.dom().contains(wire));
                                    assert(outputs_of(rows[i as int], i).contains(wire));
                                    assert forall|k: int| 0 <= k < deps@.len() implies ((
                                    #[trigger] dependencies_of(rows[i as int], i)[k]) matches Target::Wire(
                                        w,
                                    ) && reachable(rows, given.dom(), w, depth)) by {
                                        match deps@[k] {
                                            Target::Wire(w) => {
                                                assert(before.contains_key(w));
                                            },
                                            Target::Virtual(_) => {},
                                        }
                                    }
                                }
                            }
                            assert forall|row: int|
                                0 <= row < n && #[trigger] ran@[row] implies ready(
                                rows,
                                row,
                                after,
                            ) && self.derived(row, after) by {
                                if row != i {
                                    assert(flags[row]);
                                    self.lemma_derived_stays(row, before, after);
                                } else {
                                    self.lemma_run_is_derived(i as int, before, delta@, after);
                                }
                            }
                            depth = depth + 1;
                        }
                    }
                }
                i = i + 1;
            }
        }
        proof {
            assert(self.closed(witness@)) by {
                assert forall|row: int|
                    0 <= row < rows.len() && #[trigger] ready(
                        rows,
                        row,
                        witness@,
                    ) implies self.derived(row, witness@) by {
                    assert(ran@[row]);
                }
            }
            assert(given.dom().subset_of(witness@.dom()));
            assert forall|wire: Wire|
                witness@.contains_key(wire) <==> exists|depth: nat| #[trigger]
                    reachable(rows, given.dom(), wire, depth) by {
                if witness@.contains_key(wire) {
                    assert(reachable(rows, given.dom(), wire, depth));
                }
                if exists|d: nat| #[trigger] reachable(rows, given.dom(), wire, d) {
                    let d = choose|d: nat| #[trigger] reachable(rows, given.dom(), wire, d);
                    self.lemma_closed_is_complete(given.dom(), witness@, wire, d);
                }
            }
        }
        match first_missing(&witness, required) {
            Some(wire) => {
                proof {
                    assert forall|w: Map<Wire, int>| !#[trigger] self.resolves(
                        given,
                        required@,
                        w,
                    ) by {
                        if self.resolves(given, required@, w) {
                            let i = choose|i: int| 0 <= i < required@.len() && required@[i] == wire;
                            assert(w.contains_key(required@[i]));
                        }
                    }
                }
                Err(WitnessError::UnresolvedWire(wire))
            },
            None => {
                proof {
                    assert(self.resolves(given, required@, witness@));
                    if unique {
                        assert forall|w: Map<Wire, int>| #[trigger]
                            self.resolves(given, required@, w) implies w == witness@ by {
                            assert(self.fixpoint(given, w));
                            assert(witness@.submap_of(w));
                            assert(w.dom() =~= witness@.dom());
                            assert(w =~= witness@);
                        }
                    }
                }
                Ok(witness)
            },
        }
    }
}

} // verus!
