//! A circuit: rows of gates with their constants, and the check that a
//! witness satisfies every gate.

use vstd::prelude::*;
use crate::collection::{GateCollection, GateKind, RESCUE_SPONGE_WIDTH};
use crate::error::{CircuitError, WitnessError};
use crate::field::{residues, Field};
use crate::gates::base_4_sum::{base4_residuals, Base4SumGate, NUM_LIMBS, WIRE_LIMB_0};
use crate::gates::buffer::BufferGate;
use crate::gates::rescue_a::{rescue_residuals, RescueStepAGate};
use crate::wire::{wire_at, Wire};
use crate::witness::{row_values, PartialWitness};

verus! {

/// The number of wires of its own row that a gate of this variant constrains.
pub open spec fn local_wires_spec(kind: GateKind) -> nat {
    match kind {
        GateKind::Base4Sum => (WIRE_LIMB_0 + NUM_LIMBS) as nat,
        GateKind::Buffer => 0,
        GateKind::RescueStepA => (2 * RESCUE_SPONGE_WIDTH) as nat,
    }
}

/// The number of wires of the following row that a gate of this variant constrains.
pub open spec fn right_wires_spec(kind: GateKind) -> nat {
    match kind {
        GateKind::Base4Sum => 0,
        GateKind::Buffer => 0,
        GateKind::RescueStepA => RESCUE_SPONGE_WIDTH as nat,
    }
}

/// The number of wires of its own row that a gate of this variant constrains.
pub fn local_wires(kind: GateKind) -> (r: usize)
    ensures
        r == local_wires_spec(kind),
{
    match kind {
        GateKind::Base4Sum => WIRE_LIMB_0 + NUM_LIMBS,
        GateKind::Buffer => 0,
        GateKind::RescueStepA => 2 * RESCUE_SPONGE_WIDTH,
    }
}

/// The number of wires of the following row that a gate of this variant constrains.
pub fn right_wires(kind: GateKind) -> (r: usize)
    ensures
        r == right_wires_spec(kind),
{
    match kind {
        GateKind::Base4Sum => 0,
        GateKind::Buffer => 0,
        GateKind::RescueStepA => RESCUE_SPONGE_WIDTH,
    }
}

/// The residues of each row of constants.
pub open spec fn constant_residues<F: Field>(constants: Seq<Vec<F>>) -> Seq<Seq<int>> {
    Seq::new(constants.len(), |i: int| residues(constants[i]@))
}

/// Rows of gates and their constants that a circuit can be made of: every
/// gate's variant is in the collection, every row of constants holds the
/// gate's code and constants, and a gate that writes to the following row
/// has one.
pub open spec fn valid_rows(
    gates: GateCollection,
    rows: Seq<GateKind>,
    constants: Seq<Seq<int>>,
) -> bool {
    &&& rows.len() == constants.len()
    &&& forall|i: int|
        0 <= i < rows.len() ==> gates.table().contains_key(#[trigger] rows[i]) && constants[i].len()
            >= gates.prefix_len(rows[i]) + rows[i].num_constants_spec()
    &&& forall|i: int| 0 <= i < rows.len() && #[trigger] rows[i] == GateKind::RescueStepA ==> i + 1 < rows.len()
}

/// What is wrong with row `i`, if anything: its variant is not in the
/// collection, or its constants end too early, or it is the last row and
/// its gate writes to the row that follows.
pub open spec fn row_fault(
    gates: GateCollection,
    rows: Seq<GateKind>,
    constants: Seq<Seq<int>>,
    i: int,
) -> Option<CircuitError> {
    if !gates.table().contains_key(rows[i]) {
        Some(CircuitError::UnknownGate(rows[i]))
    } else if constants[i].len() < gates.prefix_len(rows[i]) + rows[i].num_constants_spec() {
        Some(CircuitError::MissingConstants(i as usize))
    } else if rows[i] == GateKind::RescueStepA && i + 1 == rows.len() {
        Some(CircuitError::UnterminatedChain(i as usize))
    } else {
        None
    }
}

/// The rows of a circuit: each row's gate and the constants of each row.
#[derive(Debug)]
pub struct Circuit<F: Field> {
    gates: GateCollection,
    rows: Vec<GateKind>,
    constants: Vec<Vec<F>>,
}

impl<F: Field> Circuit<F> {
    /// Gate variants in use, with their codes.
    pub closed spec fn collection(&self) -> GateCollection {
        self.gates
    }

    /// The variant of each row's gate.
    pub closed spec fn rows(&self) -> Seq<GateKind> {
        self.rows@
    }

    /// The constants of each row, as residues.
    pub closed spec fn constants(&self) -> Seq<Seq<int>> {
        constant_residues(self.constants@)
    }

    /// What construction establishes.
    pub open spec fn wf(&self) -> bool {
        &&& 3 * RESCUE_SPONGE_WIDTH - 2 < F::modulus()
        &&& self.collection().wf()
        &&& valid_rows(self.collection(), self.rows(), self.constants())
    }

    /// Where the constants of row `row`'s gate begin among the row's constants.
    pub open spec fn prefix_len(&self, row: int) -> int {
        self.collection().prefix_len(self.rows()[row]) as int
    }

    /// The constraints of row `row`'s gate on an assignment of the wires.
    pub open spec fn row_residuals(&self, row: int, assignment: Map<Wire, int>) -> Seq<int> {
        match self.rows()[row] {
            GateKind::Base4Sum => base4_residuals(
                row_values(assignment, row as usize, local_wires_spec(GateKind::Base4Sum)),
                F::modulus(),
            ),
            GateKind::Buffer => Seq::empty(),
            GateKind::RescueStepA => rescue_residuals(
                self.prefix_len(row),
                self.constants()[row],
                row_values(assignment, row as usize, local_wires_spec(GateKind::RescueStepA)),
                row_values(
                    assignment,
                    (row + 1) as usize,
                    right_wires_spec(GateKind::RescueStepA),
                ),
                F::modulus(),
            ),
        }
    }

    /// `wire` is one of the wires that row `row`'s gate constrains.
    pub open spec fn row_constrains(&self, row: int, wire: Wire) -> bool {
        ||| exists|k: int|
            0 <= k < local_wires_spec(self.rows()[row]) && wire == #[trigger] wire_at(row, k)
        ||| exists|k: int|
            0 <= k < right_wires_spec(self.rows()[row]) && wire == #[trigger] wire_at(row + 1, k)
    }

    /// The assignment holds every wire that row `row`'s gate constrains.
    pub open spec fn row_complete(&self, row: int, assignment: Map<Wire, int>) -> bool {
        &&& forall|k: int|
            0 <= k < local_wires_spec(self.rows()[row]) ==> assignment.contains_key(
                #[trigger] wire_at(row, k),
            )
        &&& forall|k: int|
            0 <= k < right_wires_spec(self.rows()[row]) ==> assignment.contains_key(
                #[trigger] wire_at(row + 1, k),
            )
    }

    /// Every constraint of row `row`'s gate vanishes on the assignment.
    pub open spec fn row_satisfied(&self, row: int, assignment: Map<Wire, int>) -> bool {
        forall|k: int|
            0 <= k < self.row_residuals(row, assignment).len() ==> #[trigger] self.row_residuals(
                row,
                assignment,
            )[k] == 0
    }

    /// The assignment is a witness of the circuit: it holds every wire that
    /// a gate constrains, and every constraint vanishes on it.
    pub open spec fn satisfied_by(&self, assignment: Map<Wire, int>) -> bool {
        forall|row: int|
            0 <= row < self.rows().len() ==> #[trigger] self.row_complete(row, assignment)
                && self.row_satisfied(row, assignment)
    }

    /// A circuit of the gates `rows`, row by row, with the constants of each row.
    pub fn new(gates: GateCollection, rows: Vec<GateKind>, constants: Vec<Vec<F>>) -> (r: Result<
        Circuit<F>,
        CircuitError,
    >)
        requires
            3 * RESCUE_SPONGE_WIDTH - 2 < F::modulus(),
            gates.wf(),
        ensures
            r is Ok <==> valid_rows(gates, rows@, constant_residues(constants@)),
            r matches Ok(c) ==> c.wf() && c.collection() == gates && c.rows() == rows@
                && c.constants() == constant_residues(constants@),
            r matches Err(e) ==> if rows.len() != constants.len() {
                e == CircuitError::RowCountMismatch
            } else {
                exists|i: int|
                    0 <= i < rows.len() && #[trigger] row_fault(
                        gates,
                        rows@,
                        constant_residues(constants@),
                        i,
                    ) == Some(e) && forall|j: int|
                        0 <= j < i ==> #[trigger] row_fault(
                            gates,
                            rows@,
                            constant_residues(constants@),
                            j,
                        ) is None
            },
    {
        if rows.len() != constants.len() {
            return Err(CircuitError::RowCountMismatch);
        }
        let ghost views = constant_residues(constants@);
        let mut i: usize = 0;
        while i < rows.len()
            invariant
                i <= rows.len() == constants.len(),
                gates.wf(),
                views == constant_residues(constants@),
                forall|a: int|
                    0 <= a < i ==> gates.table().contains_key(#[trigger] rows@[a]) && views[a].len()
                        >= gates.prefix_len(rows@[a]) + rows@[a].num_constants_spec(),
                forall|a: int| 0 <= a < i && #[trigger] rows@[a] == GateKind::RescueStepA ==> a + 1 < rows.len(),
                forall|a: int| 0 <= a < i ==> #[trigger] row_fault(gates, rows@, views, a) is None,
            decreases rows.len() - i,
        {
            let kind = rows[i];
            if !gates.contains(kind) {
                proof {
                    assert(row_fault(gates, rows@, views, i as int) == Some(CircuitError::UnknownGate(kind)));
                }
                return Err(CircuitError::UnknownGate(kind));
            }
            let prefix_len: usize = gates.prefix(kind).len();
            let needed: usize = kind.num_constants();
            let given: usize = constants[i].len();
            assert(views[i as int].len() == given);
            if given < prefix_len || given - prefix_len < needed {
                proof {
                    assert(row_fault(gates, rows@, views, i as int) == Some(CircuitError::MissingConstants(i)));
                }
                return Err(CircuitError::MissingConstants(i));
            }
            if kind == GateKind::RescueStepA && i + 1 == rows.len() {
                proof {
                    assert(row_fault(gates, rows@, views, i as int) == Some(CircuitError::UnterminatedChain(i)));
                }
                return Err(CircuitError::UnterminatedChain(i));
            }
            i = i + 1;
        }
        Ok(Circuit { gates, rows, constants })
    }

    /// The number of rows.
    pub fn num_rows(&self) -> (r: usize)
        ensures
            r == self.rows().len(),
    {
        self.rows.len()
    }

    /// The variant of row `row`'s gate.
    pub fn gate(&self, row: usize) -> (r: GateKind)
        requires
            row < self.rows().len(),
        ensures
            r == self.rows()[row as int],
    {
        self.rows[row]
    }

    /// The constants of each row.
    pub fn constant_rows(&self) -> (r: &[Vec<F>])
        ensures
            constant_residues(r@) == self.constants(),
    {
        self.constants.as_slice()
    }

    /// Gate variants in use, with their codes.
    pub fn gates(&self) -> (r: &GateCollection)
        ensures
            *r == self.collection(),
    {
        &self.gates
    }
}

/// The values that a witness holds on the first `count` wires of `row`, or
/// the first of these wires that has no value.
pub fn read_row<F: Field>(witness: &PartialWitness<F>, row: usize, count: usize) -> (r: Result<
    Vec<F>,
    WitnessError,
>)
    ensures
        r is Ok <==> forall|k: int|
            0 <= k < count ==> witness@.contains_key(#[trigger] wire_at(row as int, k)),
        r matches Ok(values) ==> values@.len() == count && residues(values@) == row_values(
            witness@,
            row,
            count as nat,
        ),
        r matches Err(e) ==> exists|k: int|
            0 <= k < count && e == WitnessError::UnresolvedWire(#[trigger] wire_at(row as int, k))
                && !witness@.contains_key(wire_at(row as int, k)) && forall|m: int|
                0 <= m < k ==> witness@.contains_key(#[trigger] wire_at(row as int, m)),
{
    let mut values: Vec<F> = Vec::new();
    let mut k: usize = 0;
    while k < count
        invariant
            k <= count,
            values@.len() == k,
            forall|m: int| 0 <= m < k ==> witness@.contains_key(#[trigger] wire_at(row as int, m)),
            forall|m: int|
                0 <= m < k ==> (#[trigger] values@[m]).value() == witness@[wire_at(row as int, m)],
        decreases count - k,
    {
        let wire = Wire { gate: row, input: k };
        assert(wire == wire_at(row as int, k as int));
        match witness.try_get_wire(wire) {
            Some(value) => {
                values.push(value);
            },
            None => {
                return Err(WitnessError::UnresolvedWire(wire));
            },
        }
        k = k + 1;
    }
    proof {
        assert(residues(values@) =~= row_values(witness@, row, count as nat)) by {
            assert forall|m: int| 0 <= m < count implies residues(values@)[m] == row_values(
                witness@,
                row,
                count as nat,
            )[m] by {
                assert(values@[m].value() == witness@[wire_at(row as int, m)]);
            }
        }
    }
    Ok(values)
}

/// The position of the first element that is not zero.
pub fn first_nonzero<F: Field>(values: &Vec<F>) -> (r: Option<usize>)
    ensures
        match r {
            Some(at) => at < values@.len() && values@[at as int].value() != 0 && forall|k: int|
                0 <= k < at ==> (#[trigger] values@[k]).value() == 0,
            None => forall|k: int| 0 <= k < values@.len() ==> (#[trigger] values@[k]).value() == 0,
        },
{
    let mut k: usize = 0;
    while k < values.len()
        invariant
            k <= values.len(),
            forall|m: int| 0 <= m < k ==> (#[trigger] values@[m]).value() == 0,
        decreases values.len() - k,
    {
        if !values[k].is_zero() {
            return Some(k);
        }
        k = k + 1;
    }
    None
}

impl<F: Field> Circuit<F> {
    /// The constraints of row `row`'s gate on the witness, natively evaluated.
    fn evaluate_row(&self, row: usize, local: &Vec<F>, right: &Vec<F>) -> (r: Vec<F>)
        requires
            self.wf(),
            row < self.rows().len(),
            local@.len() == local_wires_spec(self.rows()[row as int]),
            right@.len() == right_wires_spec(self.rows()[row as int]),
        ensures
            residues(r@) == match self.rows()[row as int] {
                GateKind::Base4Sum => base4_residuals(residues(local@), F::modulus()),
                GateKind::Buffer => Seq::<int>::empty(),
                GateKind::RescueStepA => rescue_residuals(
                    self.prefix_len(row as int),
                    self.constants()[row as int],
                    residues(local@),
                    residues(right@),
                    F::modulus(),
                ),
            },
    {
        let below: Vec<F> = Vec::new();
        let constants = &self.constants[row];
        assert(self.constants()[row as int] == residues(constants@));
        match self.rows[row] {
            GateKind::Base4Sum => {
                let gate = Base4SumGate::<F>::new(row);
                gate.evaluate_unfiltered(
                    &self.gates,
                    constants.as_slice(),
                    local.as_slice(),
                    right.as_slice(),
                    below.as_slice(),
                )
            },
            GateKind::Buffer => {
                let gate = BufferGate::<F>::new(row);
                let values = gate.evaluate_unfiltered(
                    &self.gates,
                    constants.as_slice(),
                    local.as_slice(),
                    right.as_slice(),
                    below.as_slice(),
                );
                assert(residues(values@) =~= Seq::<int>::empty());
                values
            },
            GateKind::RescueStepA => {
                let gate = RescueStepAGate::<F>::new(row);
                gate.evaluate_unfiltered(
                    &self.gates,
                    constants.as_slice(),
                    local.as_slice(),
                    right.as_slice(),
                    below.as_slice(),
                )
            },
        }
    }

    /// Checks row `row`'s gate against the witness.
    pub fn check_row(&self, row: usize, witness: &PartialWitness<F>) -> (r: Result<
        (),
        WitnessError,
    >)
        requires
            self.wf(),
            row < self.rows().len(),
        ensures
            r is Ok <==> self.row_complete(row as int, witness@) && self.row_satisfied(
                row as int,
                witness@,
            ),
            r matches Err(e) ==> match e {
                WitnessError::UnresolvedWire(wire) => !witness@.contains_key(wire)
                    && self.row_constrains(row as int, wire),
                WitnessError::ConstraintViolation { row: at, constraint } => at == row
                    && self.row_complete(row as int, witness@) && constraint
                    < self.row_residuals(row as int, witness@).len() && self.row_residuals(
                    row as int,
                    witness@,
                )[constraint as int] != 0 && forall|k: int|
                    0 <= k < constraint ==> #[trigger] self.row_residuals(row as int, witness@)[k]
                        == 0,
                _ => false,
            },
    {
        let kind = self.rows[row];
        let num_rows: usize = self.rows.len();
        assert(kind == self.rows()[row as int]);
        assert(kind == GateKind::RescueStepA ==> row + 1 < self.rows().len());
        let local = match read_row(witness, row, local_wires(kind)) {
            Ok(values) => values,
            Err(e) => {
                proof {
                    let k = choose|k: int|
                        0 <= k < local_wires_spec(kind) && e == WitnessError::UnresolvedWire(
                            #[trigger] wire_at(row as int, k),
                        ) && !witness@.contains_key(wire_at(row as int, k));
                    assert(self.row_constrains(row as int, wire_at(row as int, k)));
                }
                return Err(e);
            },
        };
        let right = if right_wires(kind) > 0 {
            match read_row(witness, row + 1, right_wires(kind)) {
                Ok(values) => values,
                Err(e) => {
                    proof {
                        let k = choose|k: int|
                            0 <= k < right_wires_spec(kind) && e == WitnessError::UnresolvedWire(
                                #[trigger] wire_at(row + 1, k),
                            ) && !witness@.contains_key(wire_at(row + 1, k));
                        assert(self.row_constrains(row as int, wire_at(row + 1, k)));
                    }
                    return Err(e);
                },
            }
        } else {
            Vec::new()
        };
        proof {
            assert(residues(right@) =~= row_values(
                witness@,
                (row + 1) as usize,
                right_wires_spec(kind),
            ));
        }
        let residuals = self.evaluate_row(row, &local, &right);
        assert(residues(residuals@) == self.row_residuals(row as int, witness@));
        match first_nonzero(&residuals) {
            Some(constraint) => {
                proof {
                    assert(residues(residuals@)[constraint as int] != 0);
                    assert forall|k: int| 0 <= k < constraint implies #[trigger] self.row_residuals(
                        row as int,
                        witness@,
                    )[k] == 0 by {
                        assert(residues(residuals@)[k] == residuals@[k].value());
                    }
                }
                Err(WitnessError::ConstraintViolation { row, constraint })
            },
            None => {
                proof {
                    assert forall|k: int|
                        0 <= k < self.row_residuals(row as int, witness@).len() implies #[trigger] self.row_residuals(
                        row as int,
                        witness@,
                    )[k] == 0 by {
                        assert(residues(residuals@)[k] == residuals@[k].value());
                    }
                }
                Ok(())
            },
        }
    }

    /// Checks every gate against the witness: the first wire that a gate
    /// constrains and the witness lacks, or the first constraint that does
    /// not vanish, is reported.
    pub fn check_constraints(&self, witness: &PartialWitness<F>) -> (r: Result<(), WitnessError>)
        requires
            self.wf(),
        ensures
            r is Ok <==> self.satisfied_by(witness@),
            r matches Err(e) ==> match e {
                WitnessError::UnresolvedWire(wire) => !witness@.contains_key(wire) && exists|
                    row: int,
                |
                    0 <= row < self.rows().len() && #[trigger] self.row_constrains(row, wire),
                WitnessError::ConstraintViolation { row, constraint } => row < self.rows().len()
                    && self.row_complete(row as int, witness@) && constraint
                    < self.row_residuals(row as int, witness@).len() && self.row_residuals(
                    row as int,
                    witness@,
                )[constraint as int] != 0,
                _ => false,
            },
    {
        let mut row: usize = 0;
        while row < self.rows.len()
            invariant
                row <= self.rows().len(),
                self.wf(),
                forall|i: int|
                    0 <= i < row ==> #[trigger] self.row_complete(i, witness@)
                        && self.row_satisfied(i, witness@),
            decreases self.rows.len() - row,
        {
            match self.check_row(row, witness) {
                Ok(()) => {},
                Err(e) => {
                    proof {
                        assert(!(self.row_complete(row as int, witness@) && self.row_satisfied(
                            row as int,
                            witness@,
                        )));
                    }
                    return Err(e);
                },
            }
            row = row + 1;
        }
        Ok(())
    }
}

} // verus!
