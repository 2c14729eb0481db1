use plonk_gates::collection::{is_prefix, GateCollection, GateKind, GatePrefixes};
use plonk_gates::error::CircuitError;

#[test]
fn metadata_of_each_variant() {
    assert_eq!(GateKind::Base4Sum.name(), "Base4SumGate");
    assert_eq!(GateKind::Buffer.name(), "BufferGate");
    assert_eq!(GateKind::RescueStepA.name(), "RescueStepAGate");
    assert_eq!(GateKind::Base4Sum.degree(), 4);
    assert_eq!(GateKind::Buffer.degree(), 0);
    assert_eq!(GateKind::RescueStepA.degree(), 5);
    assert_eq!(GateKind::Base4Sum.num_constants(), 0);
    assert_eq!(GateKind::Buffer.num_constants(), 0);
    assert_eq!(GateKind::RescueStepA.num_constants(), 4);
}

#[test]
fn new_hands_out_unary_codes() {
    let gates = GateCollection::new(
        vec![GateKind::RescueStepA, GateKind::Buffer, GateKind::Base4Sum],
        8,
    )
    .ok()
    .unwrap();
    assert_eq!(gates.prefix(GateKind::RescueStepA), &vec![false]);
    assert_eq!(gates.prefix(GateKind::Buffer), &vec![true, false]);
    assert_eq!(gates.prefix(GateKind::Base4Sum), &vec![true, true, false]);
    assert_eq!(gates.num_gates(), 3);
    assert_eq!(gates.capacity(), 8);
    assert!(gates.contains(GateKind::Buffer));
}

#[test]
fn new_rejects_a_variant_listed_twice() {
    let r = GateCollection::new(vec![GateKind::Buffer, GateKind::Base4Sum, GateKind::Buffer], 8);
    assert_eq!(r.err(), Some(CircuitError::DuplicateGate(GateKind::Buffer)));
}

#[test]
fn new_rejects_constants_beyond_the_capacity() {
    let r = GateCollection::new(vec![GateKind::Buffer, GateKind::RescueStepA], 5);
    assert_eq!(r.err(), Some(CircuitError::ConstantsOverflow(GateKind::RescueStepA)));
    assert!(GateCollection::new(vec![GateKind::Buffer, GateKind::RescueStepA], 6).is_ok());
}

#[test]
fn new_accepts_no_variant_at_all() {
    let gates = GateCollection::new(vec![], 0).ok().unwrap();
    assert_eq!(gates.num_gates(), 0);
    assert!(!gates.contains(GateKind::Buffer));
    assert_eq!(gates.active_gate(&vec![true, false]), None);
}

#[test]
fn from_prefixes_keeps_the_given_codes() {
    let gates = GateCollection::from_prefixes(
        vec![GateKind::Base4Sum, GateKind::Buffer],
        vec![vec![true, false, false, false], vec![false, true]],
        4,
    )
    .ok()
    .unwrap();
    assert_eq!(gates.prefix(GateKind::Base4Sum), &vec![true, false, false, false]);
    assert_eq!(gates.prefix(GateKind::Buffer), &vec![false, true]);
    assert!(!gates.contains(GateKind::RescueStepA));
    assert_eq!(gates.prefixes().get(GateKind::RescueStepA), None);
    assert_eq!(gates.prefixes().get(GateKind::Buffer), Some(&vec![false, true]));
}

#[test]
fn from_prefixes_rejects_a_code_that_begins_another() {
    let r = GateCollection::from_prefixes(
        vec![GateKind::Base4Sum, GateKind::Buffer],
        vec![vec![true, false, true], vec![true, false]],
        8,
    );
    assert_eq!(r.err(), Some(CircuitError::NotPrefixFree(GateKind::Buffer, GateKind::Base4Sum)));
}

#[test]
fn from_prefixes_rejects_equal_codes() {
    let r = GateCollection::from_prefixes(
        vec![GateKind::Base4Sum, GateKind::Buffer],
        vec![vec![true], vec![true]],
        8,
    );
    assert_eq!(r.err(), Some(CircuitError::NotPrefixFree(GateKind::Base4Sum, GateKind::Buffer)));
}

#[test]
fn from_prefixes_rejects_lists_of_different_length() {
    let r = GateCollection::from_prefixes(vec![GateKind::Base4Sum], vec![], 8);
    assert_eq!(r.err(), Some(CircuitError::LengthMismatch));
}

#[test]
fn from_prefixes_rejects_duplicates_and_overflow() {
    let r = GateCollection::from_prefixes(
        vec![GateKind::Buffer, GateKind::Buffer],
        vec![vec![true], vec![false]],
        8,
    );
    assert_eq!(r.err(), Some(CircuitError::DuplicateGate(GateKind::Buffer)));
    let r = GateCollection::from_prefixes(vec![GateKind::RescueStepA], vec![vec![true, true]], 5);
    assert_eq!(r.err(), Some(CircuitError::ConstantsOverflow(GateKind::RescueStepA)));
}

#[test]
fn selector_bits_decode_to_one_variant() {
    let gates = GateCollection::new(
        vec![GateKind::RescueStepA, GateKind::Buffer, GateKind::Base4Sum],
        8,
    )
    .ok()
    .unwrap();
    assert_eq!(gates.active_gate(&vec![false, true, true]), Some(GateKind::RescueStepA));
    assert_eq!(gates.active_gate(&vec![true, false, true]), Some(GateKind::Buffer));
    assert_eq!(gates.active_gate(&vec![true, true, false]), Some(GateKind::Base4Sum));
    assert_eq!(gates.active_gate(&vec![true, true, true]), None);
    assert_eq!(gates.active_gate(&vec![true]), None);
    assert_eq!(gates.active_gate(&vec![]), None);
}

#[test]
fn prefix_test_on_bit_sequences() {
    assert!(is_prefix(&vec![], &vec![true]));
    assert!(is_prefix(&vec![true, false], &vec![true, false]));
    assert!(is_prefix(&vec![true, false], &vec![true, false, true]));
    assert!(!is_prefix(&vec![true, true], &vec![true, false, true]));
    assert!(!is_prefix(&vec![true, false, true], &vec![true, false]));
}

#[test]
fn prefix_table_keeps_the_last_code_of_a_variant() {
    let mut table = GatePrefixes::new();
    assert_eq!(table.get(GateKind::Buffer), None);
    table.insert(GateKind::Buffer, vec![true]);
    table.insert(GateKind::Base4Sum, vec![false]);
    table.insert(GateKind::Buffer, vec![true, true]);
    assert_eq!(table.get(GateKind::Buffer), Some(&vec![true, true]));
    assert_eq!(table.get(GateKind::Base4Sum), Some(&vec![false]));
}
