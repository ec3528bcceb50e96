use endgame::crypto::field::FIELD_PRIME;
use endgame::{FieldElement, ReedSolomonAccumulator};

#[test]
fn test_field_arithmetic() {
    let a = FieldElement::new(123456789);
    let b = FieldElement::new(987654321);

    // Test addition
    let c = a.add(b);
    assert_eq!(
        (c.value() + FIELD_PRIME - a.value() - b.value()) % FIELD_PRIME,
        0
    );

    // Test multiplication and division
    let d = a.mul(b);
    let e = d.div(b).unwrap();
    assert_eq!(e, a);

    // Test powers
    let f = a.pow(3);
    let expected = a.mul(a).mul(a);
    assert_eq!(f, expected);

    // Test inverse
    let g = a.inverse().unwrap();
    assert_eq!(a.mul(g), FieldElement::one());
}

#[test]
fn test_rs_accumulator() {
    let mut acc = ReedSolomonAccumulator::new();

    // Create some test state
    let state1: Vec<FieldElement> = (0..10).map(|i| FieldElement::new(i as u64)).collect();

    // Generate and verify proof
    let proof1 = acc.accumulate(state1.clone()).unwrap();
    assert!(acc.verify(&proof1));

    // Create another accumulator and fold
    let mut acc2 = ReedSolomonAccumulator::new();
    let state2: Vec<FieldElement> = (10..20).map(|i| FieldElement::new(i as u64)).collect();

    let proof2 = acc2.accumulate(state2).unwrap();
    assert!(acc2.verify(&proof2));

    // Test folding
    let folded_proof = acc.fold(&acc2);
    assert!(acc.verify(&folded_proof));
}

#[test]
fn test_field_properties() {
    // Test associativity
    let a = FieldElement::random();
    let b = FieldElement::random();
    let c = FieldElement::random();

    assert_eq!(a.add(b).add(c), a.add(b.add(c)));
    assert_eq!(a.mul(b).mul(c), a.mul(b.mul(c)));

    // Test distributivity
    assert_eq!(a.mul(b.add(c)), a.mul(b).add(a.mul(c)));

    // Test identity elements
    assert_eq!(a.add(FieldElement::zero()), a);
    assert_eq!(a.mul(FieldElement::one()), a);

    // Test inverse properties
    if a.value() != 0 {
        let a_inv = a.inverse().unwrap();
        assert_eq!(a.mul(a_inv), FieldElement::one());
    }
}
