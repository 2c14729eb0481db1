//! The ways in which building or checking a witness fails.

use vstd::prelude::*;
use crate::collection::GateKind;
use crate::wire::Wire;

verus! {

/// A circuit definition that cannot be laid out.
#[derive(Clone, Copy, Debug, PartialEq, Eq, Structural)]
pub enum CircuitError {
    /// The list of codes and the list of gate variants differ in length.
    LengthMismatch,
    /// A gate variant is listed twice.
    DuplicateGate(GateKind),
    /// The code of the first variant begins the code of the second.
    NotPrefixFree(GateKind, GateKind),
    /// The variant's code and constants do not fit into one row of constants.
    ConstantsOverflow(GateKind),
    /// The rows of gates and the rows of constants differ in number.
    RowCountMismatch,
    /// A row uses a variant that the collection does not hold.
    UnknownGate(GateKind),
    /// The constants of this row end before those that its gate reads.
    MissingConstants(usize),
    /// This row's gate, the last one, puts its results on a row that
    /// does not exist.
    UnterminatedChain(usize),
}

/// A failure of witness generation, resolution or checking.
#[derive(Clone, Copy, Debug, PartialEq, Eq, Structural)]
pub enum WitnessError {
    /// Two different values were assigned to one wire.
    ConflictingAssignment(Wire),
    /// No generator could make progress while this required wire had no value.
    UnresolvedWire(Wire),
    /// The value on this wire has no root of the order that a generator needs.
    RootExtraction(Wire),
    /// The witness is complete, but a constraint of a gate at `row` is not zero.
    ConstraintViolation { row: usize, constraint: usize },
}

} // verus!
