//! Addresses of witness cells and the handles that in-circuit code computes with.

use vstd::prelude::*;

verus! {

/// One witness cell: input slot `input` of a gate at row `gate`.
#[derive(Clone, Copy, Debug, PartialEq, Eq, Structural, Hash)]
pub struct Wire {
    pub gate: usize,
    pub input: usize,
}

/// The wire at slot `slot` of row `row`.
pub open spec fn wire_at(row: int, slot: int) -> Wire {
    Wire { gate: row as usize, input: slot as usize }
}

/// A value inside a circuit under construction: either a wire of the circuit
/// being verified, or an expression that the builder derived, by its index.
#[derive(Clone, Copy, Debug, PartialEq, Eq, Structural, Hash)]
pub enum Target {
    Wire(Wire),
    Virtual(usize),
}

} // verus!
