//! Gate constraints, witness generation and in-circuit re-evaluation for a
//! PLONK-style arithmetization, stated over prime fields and proved with Verus.

pub mod builder;
pub mod circuit;
pub mod collection;
pub mod error;
pub mod fermat;
pub mod field;
pub mod gates;
pub mod mds;
pub mod mersenne;
pub mod modular;
pub mod residue;
pub mod resolve;
pub mod small;
pub mod wire;
pub mod witness;

pub use builder::CircuitBuilder;
pub use circuit::Circuit;
pub use collection::{GateCollection, GateKind, GatePrefixes, RESCUE_SPONGE_WIDTH};
pub use error::{CircuitError, WitnessError};
pub use field::Field;
pub use gates::base_4_sum::Base4SumGate;
pub use gates::buffer::BufferGate;
pub use gates::rescue_a::RescueStepAGate;
pub use mds::{mds_matrix, MdsMatrix};
pub use mersenne::Mersenne31;
pub use small::Fp65521;
pub use wire::{Target, Wire};
pub use witness::PartialWitness;
