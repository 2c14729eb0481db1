use plonk_gates::builder::CircuitBuilder;
use plonk_gates::collection::{GateCollection, GateKind, RESCUE_SPONGE_WIDTH};
use plonk_gates::error::WitnessError;
use plonk_gates::field::Field;
use plonk_gates::gates::rescue_a::RescueStepAGate;
use plonk_gates::mds::mds_matrix;
use plonk_gates::mersenne::{Mersenne31, MERSENNE_31};
use plonk_gates::small::Fp65521;
use plonk_gates::wire::{Target, Wire};
use plonk_gates::witness::PartialWitness;

fn fe(n: u64) -> Mersenne31 {
    Mersenne31::new(n)
}

fn fes(ns: &[u64]) -> Vec<Mersenne31> {
    ns.iter().map(|n| fe(*n)).collect()
}

fn canonical(values: &[Mersenne31]) -> Vec<u64> {
    values.iter().map(|x| x.to_canonical_u64()).collect()
}

/// The permutation round has the code `[false]`, the buffer `[true, false]`.
fn collection() -> GateCollection {
    GateCollection::new(vec![GateKind::RescueStepA, GateKind::Buffer], 8).ok().unwrap()
}

const MIXED: [u64; 4] = [2101466147, 296557273, 1026872149, 1232246578];

#[test]
fn wire_indices() {
    assert_eq!(RESCUE_SPONGE_WIDTH, 4);
    assert_eq!(RescueStepAGate::<Mersenne31>::wire_acc(0), 0);
    assert_eq!(RescueStepAGate::<Mersenne31>::wire_acc(2), 2);
    assert_eq!(RescueStepAGate::<Mersenne31>::wire_root(0), 4);
    assert_eq!(RescueStepAGate::<Mersenne31>::wire_root(3), 7);
    assert_eq!(RescueStepAGate::<Mersenne31>::new(6).index, 6);
}

#[test]
fn rescue_metadata() {
    let gate = RescueStepAGate::<Mersenne31>::new(0);
    assert_eq!(gate.name(), "RescueStepAGate");
    assert_eq!(gate.degree(), 5);
    assert_eq!(gate.num_constants(), 4);
    assert_eq!(gate.kind(), GateKind::RescueStepA);
}

#[test]
fn mixing_matrix_holds_inverses_of_index_sums() {
    let mds = mds_matrix::<Mersenne31>(4);
    assert_eq!(mds.get(0, 0), fe(536870912));
    assert_eq!(mds.get(0, 3), fe(1840700269));
    assert_eq!(mds.get(1, 3), fe(268435456));
    assert_eq!(mds.get(3, 3), fe(1503238553));
    for i in 0..4 {
        for j in 0..4 {
            assert_eq!(mds.get(i, j).mul(fe((i + 4 + j) as u64)), Mersenne31::one());
            assert_eq!(mds.get(i, j), mds.get(j, i));
        }
    }
}

#[test]
fn mixing_matrix_of_size_one() {
    let mds = mds_matrix::<Mersenne31>(1);
    assert_eq!(mds.get(0, 0), Mersenne31::one());
}

#[test]
fn dependencies_are_the_accumulator_wires() {
    let gate = RescueStepAGate::<Mersenne31>::new(3);
    let expected: Vec<Target> =
        (0..4).map(|input| Target::Wire(Wire { gate: 3, input })).collect();
    assert_eq!(gate.dependencies(), expected);
}

#[test]
fn constraints_vanish_on_roots_and_mixed_state() {
    let gate = RescueStepAGate::<Mersenne31>::new(0);
    let constants = fes(&[0, 5, 6, 7, 8]);
    let local = fes(&[1, 32, 243, 1024, 1, 2, 3, 4]);
    let right = fes(&MIXED);
    let residuals = gate.evaluate_unfiltered(&collection(), &constants, &local, &right, &[]);
    assert_eq!(canonical(&residuals), vec![0; 8]);
}

#[test]
fn constraints_come_in_pairs_root_then_mixing() {
    let gate = RescueStepAGate::<Mersenne31>::new(0);
    let constants = fes(&[0, 5, 6, 7, 8]);
    // The second input is off by one and the third output is off by two.
    let local = fes(&[1, 33, 243, 1024, 1, 2, 3, 4]);
    let right = fes(&[MIXED[0], MIXED[1], MIXED[2] + 2, MIXED[3]]);
    let residuals = gate.evaluate_unfiltered(&collection(), &constants, &local, &right, &[]);
    assert_eq!(
        canonical(&residuals),
        vec![0, 0, MERSENNE_31 - 1, 0, 0, MERSENNE_31 - 2, 0, 0]
    );
}

#[test]
fn constants_are_read_behind_the_prefix() {
    let gates = GateCollection::from_prefixes(
        vec![GateKind::RescueStepA],
        vec![vec![true, false, true]],
        8,
    )
    .ok()
    .unwrap();
    let gate = RescueStepAGate::<Mersenne31>::new(0);
    let constants = fes(&[1, 0, 1, 5, 6, 7, 8, 99]);
    let local = fes(&[1, 32, 243, 1024, 1, 2, 3, 4]);
    let right = fes(&MIXED);
    let residuals = gate.evaluate_unfiltered(&gates, &constants, &local, &right, &[]);
    assert_eq!(canonical(&residuals), vec![0; 8]);
}

#[test]
fn mixing_follows_the_affine_formula() {
    let gate = RescueStepAGate::<Mersenne31>::new(0);
    let constants = fes(&[0, 11, 22, 33, 44]);
    let roots = fes(&[9, 8, 7, 6]);
    let mut local = fes(&[0, 0, 0, 0]);
    local.extend(roots.iter());
    let right = fes(&[0, 0, 0, 0]);
    let residuals = gate.evaluate_unfiltered(&collection(), &constants, &local, &right, &[]);
    let mds = mds_matrix::<Mersenne31>(4);
    for i in 0..4 {
        assert_eq!(residuals[2 * i], roots[i].exp_usize(5));
        let mut expected = constants[1 + i];
        for j in 0..4 {
            expected = expected.add(mds.get(i, j).mul(roots[j]));
        }
        assert_eq!(residuals[2 * i + 1], expected);
    }
}

fn evaluate_in_circuit(
    constants: &[Mersenne31],
    local: &[Mersenne31],
    right: &[Mersenne31],
) -> Vec<Mersenne31> {
    let gate = RescueStepAGate::<Mersenne31>::new(0);
    let mut builder = CircuitBuilder::new();
    let mut witness = PartialWitness::new();
    let mut targets: Vec<Vec<Target>> = Vec::new();
    for (row, values) in [local, right, constants].iter().enumerate() {
        let mut row_targets = Vec::new();
        for (input, value) in values.iter().enumerate() {
            let wire = Wire { gate: row, input };
            witness.set_wire(wire, *value).unwrap();
            row_targets.push(Target::Wire(wire));
        }
        targets.push(row_targets);
    }
    let built = gate.evaluate_unfiltered_recursively(
        &mut builder,
        &collection(),
        &targets[2],
        &targets[0],
        &targets[1],
        &[],
    );
    builder.evaluate_all(&built, &witness).unwrap()
}

#[test]
fn in_circuit_evaluation_matches_native() {
    let gate = RescueStepAGate::<Mersenne31>::new(0);
    let cases = [
        (fes(&[0, 5, 6, 7, 8]), fes(&[1, 32, 243, 1024, 1, 2, 3, 4]), fes(&MIXED)),
        (
            fes(&[0, 1, 2, 3, 4]),
            fes(&[10, 20, 30, 40, 50, 60, 70, MERSENNE_31 - 1]),
            fes(&[5, 4, 3, 2]),
        ),
        (fes(&[0; 5]), fes(&[0; 8]), fes(&[0; 4])),
    ];
    for (constants, local, right) in cases.iter() {
        let native = gate.evaluate_unfiltered(&collection(), constants, local, right, &[]);
        assert_eq!(native.len(), 8);
        assert_eq!(evaluate_in_circuit(constants, local, right), native);
    }
}

fn inputs(row: usize, values: &[u64]) -> PartialWitness<Mersenne31> {
    let mut witness = PartialWitness::new();
    for (input, value) in values.iter().enumerate() {
        witness.set_wire(Wire { gate: row, input }, fe(*value)).unwrap();
    }
    witness
}

#[test]
fn generator_derives_roots_and_mixed_state() {
    let gates = collection();
    let gate = RescueStepAGate::<Mersenne31>::new(0);
    let constants = vec![fes(&[0, 5, 6, 7, 8]), fes(&[1, 0])];
    let witness = inputs(0, &[1, 32, 243, 1024]);
    let delta = gate.generate(gates.prefixes(), &constants, &witness).ok().unwrap();
    for i in 0..4 {
        assert_eq!(delta.get_wire(Wire { gate: 0, input: 4 + i }), fe(i as u64 + 1));
        assert_eq!(delta.get_wire(Wire { gate: 1, input: i }), fe(MIXED[i]));
        assert!(!delta.contains_wire(Wire { gate: 0, input: i }));
        assert!(!delta.contains_wire(Wire { gate: 1, input: 4 + i }));
    }
}

#[test]
fn generated_values_satisfy_the_constraints() {
    let gates = collection();
    let gate = RescueStepAGate::<Mersenne31>::new(1);
    let constants = vec![fes(&[]), fes(&[0, 123, 456, 789, 1011]), fes(&[1, 0])];
    let ins = [987654321, 0, MERSENNE_31 - 1, 42];
    let witness = inputs(1, &ins);
    let delta = gate.generate(gates.prefixes(), &constants, &witness).ok().unwrap();
    let mut local = fes(&ins);
    let mut right = Vec::new();
    for i in 0..4 {
        let root = delta.get_wire(Wire { gate: 1, input: 4 + i });
        assert_eq!(root.exp_usize(5), fe(ins[i]));
        local.push(root);
        right.push(delta.get_wire(Wire { gate: 2, input: i }));
    }
    let residuals = gate.evaluate_unfiltered(&gates, &constants[1], &local, &right, &[]);
    assert_eq!(canonical(&residuals), vec![0; 8]);
}

#[test]
fn generator_fails_on_an_input_without_a_fifth_root() {
    let gates = collection();
    let gate = RescueStepAGate::<Fp65521>::new(0);
    let row: Vec<Fp65521> = [0u64, 5, 6, 7, 8].iter().map(|n| Fp65521::new(*n)).collect();
    let constants = vec![row, vec![]];
    let mut witness = PartialWitness::new();
    for (input, value) in [1u64, 32, 2, 3].iter().enumerate() {
        witness.set_wire(Wire { gate: 0, input }, Fp65521::new(*value)).unwrap();
    }
    assert_eq!(
        gate.generate(gates.prefixes(), &constants, &witness).err(),
        Some(WitnessError::RootExtraction(Wire { gate: 0, input: 2 }))
    );
}

#[test]
fn generator_works_in_the_small_field_where_roots_exist() {
    let gates = collection();
    let gate = RescueStepAGate::<Fp65521>::new(0);
    let row: Vec<Fp65521> = [0u64, 5, 6, 7, 8].iter().map(|n| Fp65521::new(*n)).collect();
    let constants = vec![row.clone(), vec![]];
    let mut witness = PartialWitness::new();
    let ins: Vec<Fp65521> = [1u64, 32, 6, 7].iter().map(|n| Fp65521::new(*n)).collect();
    for (input, value) in ins.iter().enumerate() {
        witness.set_wire(Wire { gate: 0, input }, *value).unwrap();
    }
    let delta = gate.generate(gates.prefixes(), &constants, &witness).ok().unwrap();
    let mut local = ins.clone();
    let mut right = Vec::new();
    for i in 0..4 {
        local.push(delta.get_wire(Wire { gate: 0, input: 4 + i }));
        right.push(delta.get_wire(Wire { gate: 1, input: i }));
    }
    let residuals = gate.evaluate_unfiltered(&gates, &row, &local, &right, &[]);
    assert!(residuals.iter().all(|x| x.is_zero()));
    assert_eq!(residuals.len(), 8);
}
