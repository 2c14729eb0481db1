use plonk_gates::builder::CircuitBuilder;
use plonk_gates::error::WitnessError;
use plonk_gates::mersenne::{Mersenne31, MERSENNE_31};
use plonk_gates::wire::{Target, Wire};
use plonk_gates::witness::PartialWitness;

fn fe(n: u64) -> Mersenne31 {
    Mersenne31::new(n)
}

fn wire(gate: usize, input: usize) -> Wire {
    Wire { gate, input }
}

fn witness_of(values: &[(Wire, u64)]) -> PartialWitness<Mersenne31> {
    let mut witness = PartialWitness::new();
    for (w, v) in values {
        witness.set_wire(*w, fe(*v)).unwrap();
    }
    witness
}

#[test]
fn constants_evaluate_to_themselves() {
    let mut builder = CircuitBuilder::<Mersenne31>::new();
    let c = builder.constant_wire(fe(17));
    let n = builder.constant_wire_u32(4);
    let zero = builder.zero_wire();
    let one = builder.one_wire();
    assert_eq!(builder.num_nodes(), 4);
    let witness = PartialWitness::new();
    assert_eq!(builder.evaluate(c, &witness), Ok(fe(17)));
    assert_eq!(builder.evaluate(n, &witness), Ok(fe(4)));
    assert_eq!(builder.evaluate(zero, &witness), Ok(fe(0)));
    assert_eq!(builder.evaluate(one, &witness), Ok(fe(1)));
}

#[test]
fn targets_are_numbered_in_order() {
    let mut builder = CircuitBuilder::<Mersenne31>::new();
    assert_eq!(builder.constant_wire(fe(1)), Target::Virtual(0));
    assert_eq!(builder.constant_wire(fe(2)), Target::Virtual(1));
    assert_eq!(builder.add(Target::Virtual(0), Target::Virtual(1)), Target::Virtual(2));
}

#[test]
fn arithmetic_on_wires() {
    let a = Target::Wire(wire(0, 0));
    let b = Target::Wire(wire(0, 1));
    let mut builder = CircuitBuilder::<Mersenne31>::new();
    let sum = builder.add(a, b);
    let difference = builder.sub(a, b);
    let product = builder.mul(a, b);
    let fused = builder.mul_add(a, b, sum);
    let power = builder.exp_constant_usize(b, 5);
    let witness = witness_of(&[(wire(0, 0), 3), (wire(0, 1), 10)]);
    assert_eq!(builder.evaluate(sum, &witness), Ok(fe(13)));
    assert_eq!(builder.evaluate(difference, &witness), Ok(fe(MERSENNE_31 - 7)));
    assert_eq!(builder.evaluate(product, &witness), Ok(fe(30)));
    assert_eq!(builder.evaluate(fused, &witness), Ok(fe(43)));
    assert_eq!(builder.evaluate(power, &witness), Ok(fe(100000)));
    assert_eq!(
        builder.evaluate_all(&vec![power, a, sum], &witness),
        Ok(vec![fe(100000), fe(3), fe(13)])
    );
    assert_eq!(
        builder.node_values(&witness),
        Ok(vec![fe(13), fe(MERSENNE_31 - 7), fe(30), fe(43), fe(100000)])
    );
}

#[test]
fn a_wire_evaluates_to_its_value() {
    let builder = CircuitBuilder::<Mersenne31>::new();
    let witness = witness_of(&[(wire(2, 3), 99)]);
    assert_eq!(builder.evaluate(Target::Wire(wire(2, 3)), &witness), Ok(fe(99)));
}

#[test]
fn a_wire_without_a_value_is_reported() {
    let a = Target::Wire(wire(0, 0));
    let b = Target::Wire(wire(0, 1));
    let mut builder = CircuitBuilder::<Mersenne31>::new();
    let sum = builder.add(a, b);
    let witness = witness_of(&[(wire(0, 0), 3)]);
    assert_eq!(builder.evaluate(sum, &witness), Err(WitnessError::UnresolvedWire(wire(0, 1))));
    assert_eq!(builder.node_values(&witness), Err(WitnessError::UnresolvedWire(wire(0, 1))));
    assert_eq!(
        builder.evaluate_all(&vec![a], &witness),
        Err(WitnessError::UnresolvedWire(wire(0, 1)))
    );
    let empty = CircuitBuilder::<Mersenne31>::new();
    assert_eq!(empty.evaluate(b, &witness), Err(WitnessError::UnresolvedWire(wire(0, 1))));
    assert_eq!(
        empty.evaluate_all(&vec![a, b], &witness),
        Err(WitnessError::UnresolvedWire(wire(0, 1)))
    );
}

#[test]
fn a_target_of_no_node_evaluates_to_zero() {
    let builder = CircuitBuilder::<Mersenne31>::new();
    let witness = PartialWitness::new();
    assert_eq!(builder.evaluate(Target::Virtual(5), &witness), Ok(fe(0)));
}
