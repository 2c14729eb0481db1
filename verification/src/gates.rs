//! Gate variants: what each constrains, natively and inside a circuit,
//! and what each derives for the witness.

pub mod base_4_sum;
pub mod buffer;
pub mod rescue_a;
