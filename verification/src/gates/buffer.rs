//! A gate without constraints, which only receives what another gate puts out.

use std::marker::PhantomData;
use vstd::prelude::*;
use crate::builder::CircuitBuilder;
use crate::collection::{GateCollection, GateKind, GatePrefixes};
use crate::field::Field;
use crate::wire::{Target, Wire};
use crate::witness::PartialWitness;

verus! {

/// A gate which performs no arithmetic and only acts as a buffer for
/// receiving data. A gate such as the permutation round puts its results
/// on input wires of the row that follows it; the last such gate in a chain
/// is followed by a buffer gate, which takes its results.
pub struct BufferGate<F: Field> {
    pub index: usize,
    pub phantom: PhantomData<F>,
}

impl<F: Field> BufferGate<F> {
    /// A gate at row `index`.
    pub fn new(index: usize) -> (r: Self)
        ensures
            r.index == index,
    {
        BufferGate { index, phantom: PhantomData }
    }

    /// The variant that this gate is an instance of.
    pub fn kind(&self) -> (r: GateKind)
        ensures
            r == GateKind::Buffer,
    {
        GateKind::Buffer
    }

    /// The name of the variant.
    pub fn name(&self) -> (r: &'static str)
        ensures
            r@ == GateKind::Buffer.name_spec(),
    {
        GateKind::Buffer.name()
    }

    /// The highest degree among this gate's constraints: it has none.
    pub fn degree(&self) -> (r: usize)
        ensures
            r == GateKind::Buffer.degree_spec(),
    {
        GateKind::Buffer.degree()
    }

    /// The number of constants that this gate reads.
    pub fn num_constants(&self) -> (r: usize)
        ensures
            r == GateKind::Buffer.num_constants_spec(),
    {
        GateKind::Buffer.num_constants()
    }

    /// The constraints of this gate on the values of a row: none.
    pub fn evaluate_unfiltered(
        &self,
        gates: &GateCollection,
        local_constant_values: &[F],
        local_wire_values: &[F],
        right_wire_values: &[F],
        below_wire_values: &[F],
    ) -> (r: Vec<F>)
        ensures
            r@.len() == 0,
    {
        Vec::new()
    }

    /// Targets for the constraints of this gate: none, and the builder is
    /// left as it was.
    pub fn evaluate_unfiltered_recursively(
        &self,
        builder: &mut CircuitBuilder<F>,
        gates: &GateCollection,
        local_constant_values: &[Target],
        local_wire_values: &[Target],
        right_wire_values: &[Target],
        below_wire_values: &[Target],
    ) -> (r: Vec<Target>)
        ensures
            r@.len() == 0,
            final(builder)@ == old(builder)@,
    {
        Vec::new()
    }

    /// The wires that must hold values before this gate can derive others: none.
    pub fn dependencies(&self) -> (r: Vec<Target>)
        ensures
            r@.len() == 0,
    {
        Vec::new()
    }

    /// The values that this gate derives: none.
    pub fn generate(
        &self,
        prefixes: &GatePrefixes,
        constants: &[Vec<F>],
        witness: &PartialWitness<F>,
    ) -> (r: PartialWitness<F>)
        ensures
            r@ == Map::<Wire, int>::empty(),
    {
        PartialWitness::new()
    }
}

} // verus!
