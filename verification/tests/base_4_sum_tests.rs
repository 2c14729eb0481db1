use plonk_gates::builder::CircuitBuilder;
use plonk_gates::collection::{GateCollection, GateKind};
use plonk_gates::field::Field;
use plonk_gates::gates::base_4_sum::{
    Base4SumGate, NUM_LIMBS, WIRE_ACC_NEW, WIRE_ACC_OLD, WIRE_LIMB_0,
};
use plonk_gates::mersenne::{Mersenne31, MERSENNE_31};
use plonk_gates::wire::{Target, Wire};
use plonk_gates::witness::PartialWitness;

fn fe(n: u64) -> Mersenne31 {
    Mersenne31::new(n)
}

fn collection() -> GateCollection {
    GateCollection::new(vec![GateKind::Base4Sum, GateKind::Buffer, GateKind::RescueStepA], 16)
        .ok()
        .unwrap()
}

fn row(acc_old: u64, acc_new: u64, limbs: [u64; 7]) -> Vec<Mersenne31> {
    let mut wires = vec![fe(acc_old), fe(acc_new)];
    for limb in limbs {
        wires.push(fe(limb));
    }
    wires
}

fn evaluate(wires: &[Mersenne31]) -> Vec<u64> {
    let gate = Base4SumGate::<Mersenne31>::new(0);
    gate.evaluate_unfiltered(&collection(), &[], wires, &[], &[])
        .iter()
        .map(|x| x.to_canonical_u64())
        .collect()
}

fn evaluate_in_circuit(wires: &[Mersenne31]) -> Vec<u64> {
    let gate = Base4SumGate::<Mersenne31>::new(0);
    let mut builder = CircuitBuilder::new();
    let mut witness = PartialWitness::new();
    let mut targets = Vec::new();
    for (input, value) in wires.iter().enumerate() {
        let wire = Wire { gate: 0, input };
        witness.set_wire(wire, *value).unwrap();
        targets.push(Target::Wire(wire));
    }
    let built =
        gate.evaluate_unfiltered_recursively(&mut builder, &collection(), &[], &targets, &[], &[]);
    builder
        .evaluate_all(&built, &witness)
        .unwrap()
        .iter()
        .map(|x| x.to_canonical_u64())
        .collect()
}

#[test]
fn wire_layout() {
    assert_eq!(WIRE_ACC_OLD, 0);
    assert_eq!(WIRE_ACC_NEW, 1);
    assert_eq!(WIRE_LIMB_0, 2);
    assert_eq!(NUM_LIMBS, 7);
    assert_eq!(Base4SumGate::<Mersenne31>::new(3).index, 3);
}

#[test]
fn metadata() {
    let gate = Base4SumGate::<Mersenne31>::new(0);
    assert_eq!(gate.name(), "Base4SumGate");
    assert_eq!(gate.degree(), 4);
    assert_eq!(gate.num_constants(), 0);
    assert_eq!(gate.kind(), GateKind::Base4Sum);
}

#[test]
fn accumulation_from_zero_satisfies_every_constraint() {
    // 1*4^6 + 0*4^5 + 2*4^4 + 3*4^3 + 1*4^2 + 0*4 + 2
    let acc_new = 4096 + 512 + 192 + 16 + 2;
    assert_eq!(acc_new, 4818);
    assert_eq!(evaluate(&row(0, acc_new, [1, 0, 2, 3, 1, 0, 2])), vec![0; 8]);
}

#[test]
fn accumulation_shifts_the_old_accumulator() {
    // 3 * 4^7 + 4818
    assert_eq!(evaluate(&row(3, 53970, [1, 0, 2, 3, 1, 0, 2])), vec![0; 8]);
}

#[test]
fn accumulation_wraps_at_the_modulus() {
    // (p - 1) * 4^7 + 0 = -16384 (mod p)
    let expected = MERSENNE_31 - 16384;
    assert_eq!(evaluate(&row(MERSENNE_31 - 1, expected, [0; 7])), vec![0; 8]);
}

#[test]
fn wrong_accumulator_shows_in_the_first_constraint() {
    let residuals = evaluate(&row(0, 4817, [1, 0, 2, 3, 1, 0, 2]));
    assert_eq!(residuals, vec![1, 0, 0, 0, 0, 0, 0, 0]);
    let residuals = evaluate(&row(0, 4819, [1, 0, 2, 3, 1, 0, 2]));
    assert_eq!(residuals, vec![MERSENNE_31 - 1, 0, 0, 0, 0, 0, 0, 0]);
}

#[test]
fn limb_out_of_range_shows_in_its_own_constraint() {
    // limbs [4, 0, 0, 0, 0, 0, 5] accumulate to 4 * 4^6 + 5
    let residuals = evaluate(&row(0, 4 * 4096 + 5, [4, 0, 0, 0, 0, 0, 5]));
    assert_eq!(residuals, vec![0, 24, 0, 0, 0, 0, 0, 120]);
}

#[test]
fn range_check_of_the_largest_residue() {
    // (-1)(-2)(-3)(-4) = 24
    let residuals = evaluate(&row(0, 0, [MERSENNE_31 - 1, 0, 0, 0, 0, 0, 0]));
    assert_eq!(residuals[1], 24);
}

#[test]
fn each_digit_passes_the_range_check() {
    for digit in 0..4 {
        let residuals = evaluate(&row(0, 0, [digit; 7]));
        assert_eq!(&residuals[1..], &[0; 7]);
    }
}

#[test]
fn longer_rows_are_read_up_to_the_last_limb() {
    let mut wires = row(0, 4818, [1, 0, 2, 3, 1, 0, 2]);
    wires.push(fe(999));
    assert_eq!(evaluate(&wires), vec![0; 8]);
}

#[test]
fn in_circuit_evaluation_matches_native_on_a_valid_row() {
    let wires = row(0, 4818, [1, 0, 2, 3, 1, 0, 2]);
    assert_eq!(evaluate_in_circuit(&wires), evaluate(&wires));
    assert_eq!(evaluate_in_circuit(&wires), vec![0; 8]);
}

#[test]
fn in_circuit_evaluation_matches_native_on_invalid_rows() {
    let rows = [
        row(7, 11, [4, 5, 6, 7, 8, 9, 10]),
        row(MERSENNE_31 - 1, 12345, [3, 2, 1, 0, MERSENNE_31 - 2, 99, 1 << 30]),
        row(0, 0, [0; 7]),
    ];
    for wires in rows.iter() {
        let native = evaluate(wires);
        assert_eq!(native.len(), 8);
        assert_eq!(evaluate_in_circuit(wires), native);
    }
}

#[test]
fn in_circuit_evaluation_only_adds_nodes() {
    let gate = Base4SumGate::<Mersenne31>::new(0);
    let mut builder = CircuitBuilder::<Mersenne31>::new();
    let seven = builder.constant_wire(fe(7));
    let before = builder.num_nodes();
    let targets: Vec<Target> =
        (0..9).map(|input| Target::Wire(Wire { gate: 0, input })).collect();
    let built =
        gate.evaluate_unfiltered_recursively(&mut builder, &collection(), &[], &targets, &[], &[]);
    assert_eq!(built.len(), 8);
    assert!(builder.num_nodes() > before);
    let witness = PartialWitness::new();
    assert_eq!(builder.evaluate(seven, &witness).ok(), None);
}

#[test]
fn nothing_is_read_and_nothing_derived() {
    let gate = Base4SumGate::<Mersenne31>::new(2);
    assert!(gate.dependencies().is_empty());
    let gates = collection();
    let witness = PartialWitness::new();
    let delta = gate.generate(gates.prefixes(), &[], &witness);
    assert!(!delta.contains_wire(Wire { gate: 2, input: 0 }));
    assert!(!delta.contains_wire(Wire { gate: 2, input: 1 }));
    assert!(!delta.contains_wire(Wire { gate: 3, input: 0 }));
}
