use plonk_gates::circuit::{first_nonzero, local_wires, read_row, right_wires, Circuit};
use plonk_gates::collection::{GateCollection, GateKind};
use plonk_gates::error::{CircuitError, WitnessError};
use plonk_gates::mersenne::Mersenne31;
use plonk_gates::resolve::{first_missing, holds_targets};
use plonk_gates::small::Fp65521;
use plonk_gates::wire::{Target, Wire};
use plonk_gates::witness::PartialWitness;

fn fe(n: u64) -> Mersenne31 {
    Mersenne31::new(n)
}

fn fes(ns: &[u64]) -> Vec<Mersenne31> {
    ns.iter().map(|n| fe(*n)).collect()
}

fn wire(gate: usize, input: usize) -> Wire {
    Wire { gate, input }
}

/// Codes: permutation round `[false]`, buffer `[true, false]`, base-4 sum
/// `[true, true, false]`.
fn collection() -> GateCollection {
    GateCollection::new(vec![GateKind::RescueStepA, GateKind::Buffer, GateKind::Base4Sum], 8)
        .ok()
        .unwrap()
}

fn witness_of(values: &[(Wire, u64)]) -> PartialWitness<Mersenne31> {
    let mut witness = PartialWitness::new();
    for (w, v) in values {
        witness.set_wire(*w, fe(*v)).unwrap();
    }
    witness
}

fn row_inputs(row: usize, values: &[u64]) -> Vec<(Wire, u64)> {
    values.iter().enumerate().map(|(input, v)| (wire(row, input), *v)).collect()
}

const MIXED: [u64; 4] = [2101466147, 296557273, 1026872149, 1232246578];

fn round_and_buffer() -> Circuit<Mersenne31> {
    Circuit::new(
        collection(),
        vec![GateKind::RescueStepA, GateKind::Buffer],
        vec![fes(&[0, 5, 6, 7, 8]), fes(&[1, 0])],
    )
    .ok()
    .unwrap()
}

#[test]
fn wires_that_each_variant_constrains() {
    assert_eq!(local_wires(GateKind::Base4Sum), 9);
    assert_eq!(local_wires(GateKind::Buffer), 0);
    assert_eq!(local_wires(GateKind::RescueStepA), 8);
    assert_eq!(right_wires(GateKind::Base4Sum), 0);
    assert_eq!(right_wires(GateKind::Buffer), 0);
    assert_eq!(right_wires(GateKind::RescueStepA), 4);
}

#[test]
fn circuit_keeps_its_rows() {
    let circuit = round_and_buffer();
    assert_eq!(circuit.num_rows(), 2);
    assert_eq!(circuit.gate(0), GateKind::RescueStepA);
    assert_eq!(circuit.gate(1), GateKind::Buffer);
    assert_eq!(circuit.gates().num_gates(), 3);
    assert_eq!(circuit.constant_rows().len(), 2);
    assert_eq!(circuit.constant_rows()[0], fes(&[0, 5, 6, 7, 8]));
}

#[test]
fn circuit_rejects_rows_without_constants() {
    let r = Circuit::<Mersenne31>::new(collection(), vec![GateKind::Buffer], vec![]);
    assert_eq!(r.err(), Some(CircuitError::RowCountMismatch));
}

#[test]
fn circuit_rejects_a_variant_outside_the_collection() {
    let gates = GateCollection::new(vec![GateKind::Buffer], 8).ok().unwrap();
    let r = Circuit::<Mersenne31>::new(
        gates,
        vec![GateKind::Buffer, GateKind::Base4Sum],
        vec![fes(&[0]), fes(&[0])],
    );
    assert_eq!(r.err(), Some(CircuitError::UnknownGate(GateKind::Base4Sum)));
}

#[test]
fn circuit_rejects_a_row_with_too_few_constants() {
    let r = Circuit::<Mersenne31>::new(
        collection(),
        vec![GateKind::RescueStepA, GateKind::Buffer],
        vec![fes(&[0, 5, 6, 7]), fes(&[1, 0])],
    );
    assert_eq!(r.err(), Some(CircuitError::MissingConstants(0)));
    let r = Circuit::<Mersenne31>::new(
        collection(),
        vec![GateKind::RescueStepA, GateKind::Buffer],
        vec![fes(&[0, 5, 6, 7, 8]), fes(&[1])],
    );
    assert_eq!(r.err(), Some(CircuitError::MissingConstants(1)));
}

#[test]
fn circuit_rejects_a_round_without_a_following_row() {
    let r = Circuit::<Mersenne31>::new(
        collection(),
        vec![GateKind::Buffer, GateKind::RescueStepA],
        vec![fes(&[1, 0]), fes(&[0, 5, 6, 7, 8])],
    );
    assert_eq!(r.err(), Some(CircuitError::UnterminatedChain(1)));
}

#[test]
fn empty_circuit_is_satisfied_by_the_empty_witness() {
    let circuit = Circuit::<Mersenne31>::new(collection(), vec![], vec![]).ok().unwrap();
    let witness = circuit.resolve(PartialWitness::new(), &vec![]).ok().unwrap();
    assert_eq!(circuit.check_constraints(&witness), Ok(()));
}

#[test]
fn round_with_buffer_resolves_and_satisfies_both_constraints() {
    let circuit = round_and_buffer();
    let inputs = witness_of(&row_inputs(0, &[1, 32, 243, 1024]));
    let required: Vec<Wire> = (0..4).map(|i| wire(1, i)).collect();
    let witness = circuit.resolve(inputs, &required).ok().unwrap();
    for i in 0..4 {
        assert_eq!(witness.get_wire(wire(0, 4 + i)), fe(i as u64 + 1));
        assert_eq!(witness.get_wire(wire(1, i)), fe(MIXED[i]));
    }
    assert_eq!(witness.get_wire(wire(0, 1)), fe(32));
    assert!(!witness.contains_wire(wire(1, 4)));
    assert_eq!(circuit.check_constraints(&witness), Ok(()));
    assert_eq!(circuit.check_row(0, &witness), Ok(()));
    assert_eq!(circuit.check_row(1, &witness), Ok(()));
}

fn chain() -> Circuit<Mersenne31> {
    Circuit::new(
        collection(),
        vec![GateKind::RescueStepA, GateKind::RescueStepA, GateKind::Buffer, GateKind::Base4Sum],
        vec![fes(&[0, 5, 6, 7, 8]), fes(&[0, 1, 2, 3, 4]), fes(&[1, 0]), fes(&[1, 1, 0])],
    )
    .ok()
    .unwrap()
}

#[test]
fn chain_of_rounds_resolves_row_after_row() {
    let circuit = chain();
    let mut given = row_inputs(0, &[1, 32, 243, 1024]);
    given.extend(row_inputs(3, &[0, 4818, 1, 0, 2, 3, 1, 0, 2]));
    let required: Vec<Wire> = (0..4).map(|i| wire(2, i)).collect();
    let witness = circuit.resolve(witness_of(&given), &required).ok().unwrap();
    for i in 0..4 {
        assert_eq!(witness.get_wire(wire(1, i)), fe(MIXED[i]));
        assert_eq!(
            plonk_gates::field::Field::exp_usize(witness.get_wire(wire(1, 4 + i)), 5),
            fe(MIXED[i])
        );
        assert!(witness.contains_wire(wire(2, i)));
    }
    assert_eq!(circuit.check_constraints(&witness), Ok(()));
}

#[test]
fn resolution_reports_a_required_wire_that_nothing_reaches() {
    let circuit = chain();
    // The first row lacks one of its inputs, so no round can run.
    let given = row_inputs(0, &[1, 32, 243]);
    let required = vec![wire(0, 0), wire(1, 0), wire(2, 0)];
    assert_eq!(
        circuit.resolve(witness_of(&given), &required).err(),
        Some(WitnessError::UnresolvedWire(wire(1, 0)))
    );
    // Nothing is asked for: the fixpoint holds the given wires only.
    let witness = circuit.resolve(witness_of(&given), &vec![]).ok().unwrap();
    assert!(witness.contains_wire(wire(0, 2)));
    assert!(!witness.contains_wire(wire(0, 4)));
    assert!(!witness.contains_wire(wire(1, 0)));
}

#[test]
fn resolution_reports_a_wire_that_no_generator_writes() {
    let circuit = round_and_buffer();
    let inputs = witness_of(&row_inputs(0, &[1, 32, 243, 1024]));
    assert_eq!(
        circuit.resolve(inputs, &vec![wire(1, 0), wire(1, 7)]).err(),
        Some(WitnessError::UnresolvedWire(wire(1, 7)))
    );
}

#[test]
fn resolution_starts_from_a_middle_row() {
    let circuit = chain();
    let given = row_inputs(1, &[1, 32, 243, 1024]);
    let witness = circuit.resolve(witness_of(&given), &vec![wire(2, 3)]).ok().unwrap();
    assert!(witness.contains_wire(wire(1, 7)));
    assert!(!witness.contains_wire(wire(0, 4)));
    assert_eq!(circuit.check_row(1, &witness), Ok(()));
    assert_eq!(
        circuit.check_constraints(&witness),
        Err(WitnessError::UnresolvedWire(wire(0, 0)))
    );
}

#[test]
fn resolution_rejects_a_given_value_that_a_generator_contradicts() {
    let circuit = round_and_buffer();
    let mut given = row_inputs(0, &[1, 32, 243, 1024]);
    given.push((wire(1, 2), MIXED[2] + 1));
    assert_eq!(
        circuit.resolve(witness_of(&given), &vec![]).err(),
        Some(WitnessError::ConflictingAssignment(wire(1, 2)))
    );
}

#[test]
fn resolution_accepts_a_given_value_that_a_generator_confirms() {
    let circuit = round_and_buffer();
    let mut given = row_inputs(0, &[1, 32, 243, 1024]);
    given.push((wire(1, 2), MIXED[2]));
    given.push((wire(0, 5), 2));
    let witness = circuit.resolve(witness_of(&given), &vec![wire(1, 3)]).ok().unwrap();
    assert_eq!(circuit.check_constraints(&witness), Ok(()));
}

#[test]
fn resolution_reports_an_input_without_a_fifth_root() {
    let constants: Vec<Vec<Fp65521>> = vec![
        [0u64, 5, 6, 7, 8].iter().map(|n| Fp65521::new(*n)).collect(),
        [1u64, 0].iter().map(|n| Fp65521::new(*n)).collect(),
    ];
    let circuit =
        Circuit::new(collection(), vec![GateKind::RescueStepA, GateKind::Buffer], constants)
            .ok()
            .unwrap();
    let mut inputs = PartialWitness::new();
    for (input, value) in [3u64, 1, 1, 1].iter().enumerate() {
        inputs.set_wire(wire(0, input), Fp65521::new(*value)).unwrap();
    }
    assert_eq!(
        circuit.resolve(inputs, &vec![]).err(),
        Some(WitnessError::RootExtraction(wire(0, 0)))
    );
}

#[test]
fn check_reports_the_first_constraint_that_does_not_vanish() {
    let circuit = round_and_buffer();
    let mut given = row_inputs(0, &[1, 32, 243, 1024, 1, 2, 3, 4]);
    given.extend(row_inputs(1, &[MIXED[0], MIXED[1], MIXED[2] + 1, MIXED[3]]));
    assert_eq!(
        circuit.check_constraints(&witness_of(&given)),
        Err(WitnessError::ConstraintViolation { row: 0, constraint: 5 })
    );
    let mut given = row_inputs(0, &[1, 32, 243, 1024, 1, 2, 3, 5]);
    given.extend(row_inputs(1, &MIXED));
    assert_eq!(
        circuit.check_constraints(&witness_of(&given)),
        Err(WitnessError::ConstraintViolation { row: 0, constraint: 1 })
    );
}

#[test]
fn check_reports_the_first_wire_without_a_value() {
    let circuit = round_and_buffer();
    let mut given = row_inputs(0, &[1, 32, 243, 1024, 1, 2, 3, 4]);
    given.extend(row_inputs(1, &[MIXED[0], MIXED[1]]));
    assert_eq!(
        circuit.check_constraints(&witness_of(&given)),
        Err(WitnessError::UnresolvedWire(wire(1, 2)))
    );
    assert_eq!(
        circuit.check_constraints(&witness_of(&row_inputs(0, &[1, 32, 243]))),
        Err(WitnessError::UnresolvedWire(wire(0, 3)))
    );
}

#[test]
fn check_of_an_accumulation_row() {
    let circuit =
        Circuit::new(collection(), vec![GateKind::Base4Sum], vec![fes(&[1, 1, 0])]).ok().unwrap();
    let good = witness_of(&row_inputs(0, &[0, 4818, 1, 0, 2, 3, 1, 0, 2]));
    assert_eq!(circuit.check_constraints(&good), Ok(()));
    let bad_sum = witness_of(&row_inputs(0, &[0, 4819, 1, 0, 2, 3, 1, 0, 2]));
    assert_eq!(
        circuit.check_constraints(&bad_sum),
        Err(WitnessError::ConstraintViolation { row: 0, constraint: 0 })
    );
    let bad_limb = witness_of(&row_inputs(0, &[0, 4818 + 2 * 64, 1, 0, 2, 5, 1, 0, 2]));
    assert_eq!(
        circuit.check_constraints(&bad_limb),
        Err(WitnessError::ConstraintViolation { row: 0, constraint: 4 })
    );
}

#[test]
fn helpers_read_rows_and_find_what_is_missing() {
    let witness = witness_of(&row_inputs(2, &[7, 0, 9]));
    assert_eq!(read_row(&witness, 2, 3), Ok(fes(&[7, 0, 9])));
    assert_eq!(read_row(&witness, 2, 0), Ok(vec![]));
    assert_eq!(read_row(&witness, 2, 4), Err(WitnessError::UnresolvedWire(wire(2, 3))));
    assert_eq!(first_nonzero(&fes(&[0, 0, 5, 6])), Some(2));
    assert_eq!(first_nonzero(&fes(&[0, 0])), None);
    let three: Vec<Target> = (0..3).map(|i| Target::Wire(wire(2, i))).collect();
    let four: Vec<Target> = (0..4).map(|i| Target::Wire(wire(2, i))).collect();
    assert!(holds_targets(&witness, &three));
    assert!(!holds_targets(&witness, &four));
    assert!(holds_targets(&witness, &vec![]));
    assert!(!holds_targets(&witness, &vec![Target::Virtual(0)]));
    assert_eq!(first_missing(&witness, &vec![wire(2, 0), wire(2, 2)]), None);
    assert_eq!(first_missing(&witness, &vec![wire(2, 0), wire(3, 0), wire(4, 0)]), Some(wire(3, 0)));
}

#[test]
fn each_row_reads_what_its_gate_reads() {
    let circuit = chain();
    let expected: Vec<Target> = (0..4).map(|i| Target::Wire(wire(1, i))).collect();
    assert_eq!(circuit.dependencies(1), expected);
    assert!(circuit.dependencies(2).is_empty());
    assert!(circuit.dependencies(3).is_empty());
}

#[test]
fn each_row_derives_what_its_gate_derives() {
    let circuit = chain();
    let witness = witness_of(&row_inputs(1, &[1, 32, 243, 1024]));
    let delta = circuit.generate_row(1, &witness).ok().unwrap();
    assert_eq!(delta.get_wire(wire(1, 5)), fe(2));
    assert!(delta.contains_wire(wire(2, 0)));
    let nothing = circuit.generate_row(2, &witness).ok().unwrap();
    assert!(!nothing.contains_wire(wire(2, 0)));
    let nothing = circuit.generate_row(3, &witness).ok().unwrap();
    assert!(!nothing.contains_wire(wire(3, 0)));
}
