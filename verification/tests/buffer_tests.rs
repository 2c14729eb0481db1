use plonk_gates::builder::CircuitBuilder;
use plonk_gates::collection::{GateCollection, GateKind};
use plonk_gates::gates::buffer::BufferGate;
use plonk_gates::mersenne::Mersenne31;
use plonk_gates::wire::{Target, Wire};
use plonk_gates::witness::PartialWitness;

fn fe(n: u64) -> Mersenne31 {
    Mersenne31::new(n)
}

fn collection() -> GateCollection {
    GateCollection::new(vec![GateKind::Buffer], 4).ok().unwrap()
}

#[test]
fn buffer_metadata() {
    let gate = BufferGate::<Mersenne31>::new(4);
    assert_eq!(gate.index, 4);
    assert_eq!(gate.name(), "BufferGate");
    assert_eq!(gate.degree(), 0);
    assert_eq!(gate.num_constants(), 0);
    assert_eq!(gate.kind(), GateKind::Buffer);
}

#[test]
fn buffer_has_no_constraints() {
    let gate = BufferGate::<Mersenne31>::new(0);
    let values = [fe(1), fe(2), fe(3)];
    assert!(gate.evaluate_unfiltered(&collection(), &values, &values, &values, &values).is_empty());
    assert!(gate.evaluate_unfiltered(&collection(), &[], &[], &[], &[]).is_empty());
}

#[test]
fn buffer_builds_nothing_in_a_circuit() {
    let gate = BufferGate::<Mersenne31>::new(0);
    let mut builder = CircuitBuilder::<Mersenne31>::new();
    builder.constant_wire(fe(5));
    let before = builder.num_nodes();
    let targets = [Target::Wire(Wire { gate: 0, input: 0 }), Target::Virtual(0)];
    let built = gate.evaluate_unfiltered_recursively(
        &mut builder,
        &collection(),
        &targets,
        &targets,
        &targets,
        &targets,
    );
    assert!(built.is_empty());
    assert_eq!(builder.num_nodes(), before);
}

#[test]
fn buffer_reads_and_derives_nothing() {
    let gate = BufferGate::<Mersenne31>::new(1);
    assert!(gate.dependencies().is_empty());
    let gates = collection();
    let mut witness = PartialWitness::new();
    witness.set_wire(Wire { gate: 1, input: 0 }, fe(3)).unwrap();
    let delta = gate.generate(gates.prefixes(), &[], &witness);
    assert!(!delta.contains_wire(Wire { gate: 1, input: 0 }));
    assert!(!delta.contains_wire(Wire { gate: 2, input: 0 }));
}

#[test]
fn main_types_are_exported_at_the_root() {
    let gates = plonk_gates::GateCollection::new(vec![plonk_gates::GateKind::Buffer], 2)
        .ok()
        .unwrap();
    let gate = plonk_gates::BufferGate::<plonk_gates::Mersenne31>::new(0);
    assert!(gate.evaluate_unfiltered(&gates, &[], &[], &[], &[]).is_empty());
    assert_eq!(plonk_gates::RESCUE_SPONGE_WIDTH, 4);
    let wire = plonk_gates::Wire { gate: 0, input: 1 };
    assert_eq!(plonk_gates::Target::Wire(wire), Target::Wire(Wire { gate: 0, input: 1 }));
}
