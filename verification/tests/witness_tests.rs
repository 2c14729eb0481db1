use plonk_gates::error::WitnessError;
use plonk_gates::mersenne::Mersenne31;
use plonk_gates::wire::Wire;
use plonk_gates::witness::PartialWitness;

fn fe(n: u64) -> Mersenne31 {
    Mersenne31::new(n)
}

fn wire(gate: usize, input: usize) -> Wire {
    Wire { gate, input }
}

#[test]
fn empty_witness_holds_nothing() {
    let witness: PartialWitness<Mersenne31> = PartialWitness::new();
    assert!(!witness.contains_wire(wire(0, 0)));
    assert_eq!(witness.try_get_wire(wire(0, 0)), None);
}

#[test]
fn set_then_get() {
    let mut witness = PartialWitness::new();
    assert_eq!(witness.set_wire(wire(1, 2), fe(42)), Ok(()));
    assert!(witness.contains_wire(wire(1, 2)));
    assert!(!witness.contains_wire(wire(2, 1)));
    assert_eq!(witness.get_wire(wire(1, 2)), fe(42));
    assert_eq!(witness.try_get_wire(wire(1, 2)), Some(fe(42)));
}

#[test]
fn setting_the_same_value_twice_is_accepted() {
    let mut witness = PartialWitness::new();
    assert_eq!(witness.set_wire(wire(0, 0), fe(7)), Ok(()));
    assert_eq!(witness.set_wire(wire(0, 0), fe(7)), Ok(()));
    assert_eq!(witness.get_wire(wire(0, 0)), fe(7));
}

#[test]
fn setting_another_value_is_a_conflict() {
    let mut witness = PartialWitness::new();
    assert_eq!(witness.set_wire(wire(0, 0), fe(7)), Ok(()));
    assert_eq!(
        witness.set_wire(wire(0, 0), fe(8)),
        Err(WitnessError::ConflictingAssignment(wire(0, 0)))
    );
    assert_eq!(witness.get_wire(wire(0, 0)), fe(7));
}

#[test]
fn merge_takes_over_every_assignment() {
    let mut left = PartialWitness::new();
    left.set_wire(wire(0, 0), fe(1)).unwrap();
    left.set_wire(wire(0, 1), fe(2)).unwrap();
    let mut right = PartialWitness::new();
    right.set_wire(wire(0, 1), fe(2)).unwrap();
    right.set_wire(wire(3, 0), fe(9)).unwrap();
    assert_eq!(left.merge(&right), Ok(()));
    assert_eq!(left.get_wire(wire(0, 0)), fe(1));
    assert_eq!(left.get_wire(wire(0, 1)), fe(2));
    assert_eq!(left.get_wire(wire(3, 0)), fe(9));
}

#[test]
fn merge_rejects_a_conflict_and_takes_nothing() {
    let mut left = PartialWitness::new();
    left.set_wire(wire(0, 1), fe(2)).unwrap();
    let mut right = PartialWitness::new();
    right.set_wire(wire(5, 5), fe(1)).unwrap();
    right.set_wire(wire(0, 1), fe(3)).unwrap();
    assert_eq!(left.merge(&right), Err(WitnessError::ConflictingAssignment(wire(0, 1))));
    assert!(!left.contains_wire(wire(5, 5)));
    assert_eq!(left.get_wire(wire(0, 1)), fe(2));
}

#[test]
fn merge_with_the_empty_witness_changes_nothing() {
    let mut left = PartialWitness::new();
    left.set_wire(wire(0, 1), fe(2)).unwrap();
    let right = PartialWitness::new();
    assert_eq!(left.merge(&right), Ok(()));
    assert_eq!(left.get_wire(wire(0, 1)), fe(2));
}
