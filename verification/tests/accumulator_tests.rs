//! Tests of the dynamic accumulator and the digest set.
use veridex::digest_set::DigestSet;
use veridex::dynamic_accumulator::{AccError, DynamicAccumulator, QueryResult, TrustedSetup};
use veridex::field::{scalar_from_u64, scalar_neg_from_u64};

#[test]
fn test_digest_to_poly() {
    let set = DigestSet::from_u64_counts(&vec![(1u64, 2u32), (2, 1), (3, 1)]);
    let poly = set.expand_to_poly();
    // (X-1)^2 * (X-2) * (X-3) = X^4 - 7X^3 + 17X^2 - 17X + 6
    let expected = vec![
        scalar_from_u64(6),
        scalar_neg_from_u64(17),
        scalar_from_u64(17),
        scalar_neg_from_u64(7),
        scalar_from_u64(1),
    ];
    assert_eq!(poly, expected);
}

#[test]
fn test_dynamic_accumulator_add() {
    let setup = TrustedSetup::deterministic();
    let mut dyn_acc = DynamicAccumulator::new();
    let add_proof1 = dyn_acc.add(&1i64).unwrap();
    let add_proof2 = dyn_acc.add(&2i64).unwrap();
    let add_proof3_res = dyn_acc.add(&1i64); // Add 1 again

    assert!(add_proof1.verify(&setup));
    assert!(add_proof2.verify(&setup));
    assert!(add_proof3_res.is_err()); // Should fail to add duplicate

    // The value equals the one computed independently through the
    // polynomial route: expand the digest polynomial, evaluate it at the
    // setup scalar, and raise the generator once.
    let static_value = veridex::dynamic_accumulator::static_accumulator(&vec![(1i64, 1), (2, 1)]);
    assert_eq!(dyn_acc.acc_value(), &static_value);
    assert_eq!(dyn_acc.len(), 2);
    assert!(dyn_acc.prove_membership(&1i64).is_ok());
    assert!(dyn_acc.prove_membership(&2i64).is_ok());
}

#[test]
fn test_dynamic_accumulator_delete() {
    let setup = TrustedSetup::deterministic();
    let mut dyn_acc = DynamicAccumulator::new();
    dyn_acc.add(&1i64).unwrap();
    dyn_acc.add(&2i64).unwrap();

    // Delete 1
    let delete_proof1 = dyn_acc.delete(&1i64).unwrap();
    assert!(delete_proof1.verify(&setup));

    let static_value1 = veridex::dynamic_accumulator::static_accumulator(&vec![(2i64, 1)]);
    assert_eq!(dyn_acc.acc_value(), &static_value1);
    assert!(dyn_acc.prove_membership(&1i64).is_err());

    // Try to delete 1 again (should fail)
    assert!(dyn_acc.delete(&1i64).is_err());

    // Delete 2
    let delete_proof2 = dyn_acc.delete(&2i64).unwrap();
    assert!(delete_proof2.verify(&setup));

    let static_acc2 = DynamicAccumulator::new();
    assert_eq!(dyn_acc.acc_value(), static_acc2.acc_value());
    assert_eq!(
        dyn_acc.acc_value(),
        &veridex::dynamic_accumulator::static_accumulator(&vec![])
    );
    assert!(dyn_acc.is_empty());

    // Try to delete an element that was never there
    assert!(dyn_acc.delete(&3i64).is_err());
}

#[test]
fn test_membership_proof() {
    let setup = TrustedSetup::deterministic();
    let mut dyn_acc = DynamicAccumulator::new();
    dyn_acc.add(&100).unwrap();
    dyn_acc.add(&200).unwrap();
    dyn_acc.add(&300).unwrap();

    // 1. Prove and verify 200
    let proof = dyn_acc.prove_membership(&200).unwrap();
    assert!(dyn_acc.verify_membership(&proof));
    assert!(proof.verify(dyn_acc.acc_value(), &setup));

    // 2. Check that the witness is the accumulator of the set without 200
    let mut without_200 = DynamicAccumulator::new();
    without_200.add_batch(&[100i64, 300]).unwrap();
    assert_eq!(&proof.witness, without_200.acc_value());

    // 3. A proof for a different element should fail
    let wrong_proof = veridex::dynamic_accumulator::MembershipProof {
        witness: proof.witness.clone(),
        element: 999,
    };
    assert!(!dyn_acc.verify_membership(&wrong_proof));

    // 4. Cannot prove membership for an element not in the set
    assert!(dyn_acc.prove_membership(&999i64).is_err());
}

#[test]
fn test_non_membership_proof() {
    let mut dyn_acc = DynamicAccumulator::new();
    dyn_acc.add(&100).unwrap();
    dyn_acc.add(&200).unwrap();

    // 1. Prove and verify non-membership for 300
    let proof = dyn_acc.prove_non_membership(&300).unwrap();
    assert!(dyn_acc.verify_non_membership(&proof));

    // 2. A non-membership proof for an element that IS in the set should fail
    assert!(dyn_acc.prove_non_membership(&100).is_err());

    // 3. A tampered proof should fail verification
    let tampered = veridex::dynamic_accumulator::NonMembershipProof {
        element: 400,
        witness: proof.witness.clone(),
        g1_a: proof.g1_a.clone(),
    };
    assert!(!dyn_acc.verify_non_membership(&tampered));

    // 4. An empty accumulator should be able to prove non-membership
    let empty_acc = DynamicAccumulator::new();
    let proof_for_empty = empty_acc.prove_non_membership(&100).unwrap();
    assert!(empty_acc.verify_non_membership(&proof_for_empty));
}

#[test]
fn test_update_and_query() {
    let setup = TrustedSetup::deterministic();
    let mut dyn_acc = DynamicAccumulator::new();
    dyn_acc.add(&100).unwrap();
    dyn_acc.add(&200).unwrap();

    // 1. Test successful update
    let (delete_proof, add_proof) = dyn_acc.update(&100, &150).unwrap();
    assert!(delete_proof.verify(&setup));
    assert!(add_proof.verify(&setup));

    // Verify 100 is gone
    match dyn_acc.query(&100).unwrap() {
        QueryResult::NonMembership(proof) => {
            assert!(dyn_acc.verify_non_membership(&proof));
        }
        _ => panic!("Should have been a non-membership proof for 100"),
    }

    // Verify 150 is present
    match dyn_acc.query(&150).unwrap() {
        QueryResult::Membership(proof) => {
            assert!(dyn_acc.verify_membership(&proof));
        }
        _ => panic!("Should have been a membership proof for 150"),
    }

    // Verify 200 is still present
    match dyn_acc.query(&200).unwrap() {
        QueryResult::Membership(proof) => {
            assert!(dyn_acc.verify_membership(&proof));
        }
        _ => panic!("Should have been a membership proof for 200"),
    }

    // 2. Test update on a non-existent element (should fail)
    assert!(dyn_acc.update(&999, &1000).is_err());
}

#[test]
fn test_intersection_proof() {
    // Create two accumulators with overlapping elements
    let mut acc1 = DynamicAccumulator::new();
    acc1.add(&100).unwrap();
    acc1.add(&200).unwrap();
    acc1.add(&300).unwrap();

    let mut acc2 = DynamicAccumulator::new();
    acc2.add(&200).unwrap();
    acc2.add(&300).unwrap();
    acc2.add(&400).unwrap();

    // 1. Prove intersection
    let (intersection_acc, proof) = acc1.prove_intersection(&acc2).unwrap();

    // 2. Verify the intersection contains the expected elements
    assert_eq!(intersection_acc.len(), 2);
    assert!(intersection_acc.prove_membership(&200i64).is_ok());
    assert!(intersection_acc.prove_membership(&300i64).is_ok());

    // 3. Verify the intersection proof
    assert!(DynamicAccumulator::verify_intersection(
        acc1.acc_value(),
        acc2.acc_value(),
        intersection_acc.acc_value(),
        &proof
    ));

    // 4. A manually created intersection accumulator has the same value
    let mut manual_intersection = DynamicAccumulator::new();
    manual_intersection.add(&200).unwrap();
    manual_intersection.add(&300).unwrap();
    assert_eq!(intersection_acc.acc_value(), manual_intersection.acc_value());
}

#[test]
fn test_intersection_proof_empty_intersection() {
    // Create two accumulators with no overlapping elements
    let mut acc1 = DynamicAccumulator::new();
    acc1.add(&100).unwrap();
    acc1.add(&200).unwrap();

    let mut acc2 = DynamicAccumulator::new();
    acc2.add(&300).unwrap();
    acc2.add(&400).unwrap();

    // 1. Prove intersection (should be empty)
    let (intersection_acc, proof) = acc1.prove_intersection(&acc2).unwrap();

    // 2. Verify the intersection is empty
    assert_eq!(intersection_acc.len(), 0);
    assert_eq!(
        intersection_acc.acc_value(),
        DynamicAccumulator::new().acc_value()
    );

    // 3. Verify the intersection proof
    assert!(DynamicAccumulator::verify_intersection(
        acc1.acc_value(),
        acc2.acc_value(),
        intersection_acc.acc_value(),
        &proof
    ));
}

#[test]
fn test_intersection_proof_identical_sets() {
    // Create two identical accumulators
    let mut acc1 = DynamicAccumulator::new();
    acc1.add(&100).unwrap();
    acc1.add(&200).unwrap();

    let mut acc2 = DynamicAccumulator::new();
    acc2.add(&100).unwrap();
    acc2.add(&200).unwrap();

    // 1. Prove intersection (should be identical to both sets)
    let (intersection_acc, proof) = acc1.prove_intersection(&acc2).unwrap();

    // 2. Verify the intersection equals both original sets
    assert_eq!(intersection_acc.len(), 2);
    assert_eq!(intersection_acc.acc_value(), acc1.acc_value());
    assert_eq!(intersection_acc.acc_value(), acc2.acc_value());

    // 3. Verify the intersection proof
    assert!(DynamicAccumulator::verify_intersection(
        acc1.acc_value(),
        acc2.acc_value(),
        intersection_acc.acc_value(),
        &proof
    ));
}

#[test]
fn test_add_delete_round_trip_bitwise() {
    // Adding an element and deleting it again restores the accumulator
    // bytes exactly.
    let mut acc = DynamicAccumulator::new();
    acc.add_batch(&[100i64, 200, 300]).unwrap();
    let before = acc.acc_value().clone();
    acc.add(&400).unwrap();
    assert_ne!(&before, acc.acc_value());
    acc.delete(&400).unwrap();
    assert_eq!(&before, acc.acc_value());
}

#[test]
fn test_accumulator_scenario_add_delete_query() {
    // Start empty; add 100, 200, 300; query present and absent elements;
    // delete and delete again.
    let mut acc = DynamicAccumulator::new();
    acc.add(&100).unwrap();
    acc.add(&200).unwrap();
    acc.add(&300).unwrap();

    match acc.query(&200).unwrap() {
        QueryResult::Membership(p) => assert!(acc.verify_membership(&p)),
        _ => panic!("200 should be a member"),
    }
    match acc.query(&999).unwrap() {
        QueryResult::NonMembership(p) => assert!(acc.verify_non_membership(&p)),
        _ => panic!("999 should not be a member"),
    }

    acc.delete(&100).unwrap();
    match acc.query(&100).unwrap() {
        QueryResult::NonMembership(p) => assert!(acc.verify_non_membership(&p)),
        _ => panic!("100 should be gone"),
    }
    match acc.delete(&100) {
        Err(AccError::ElementAbsent) => (),
        _ => panic!("second delete should report the element absent"),
    }
}

#[test]
fn test_union_proof() {
    // A nested pair: the union equals the first set and the intersection the
    // second, so the verifier's group equation holds alongside the
    // intersection proof.
    let mut acc1 = DynamicAccumulator::new();
    acc1.add_batch(&[100i64, 200, 300]).unwrap();
    let mut acc2 = DynamicAccumulator::new();
    acc2.add_batch(&[200i64, 300]).unwrap();

    let (union_acc, union_proof) = acc1.prove_union(&acc2).unwrap();
    assert_eq!(union_acc.len(), 3);
    assert_eq!(union_acc.acc_value(), acc1.acc_value());
    assert_eq!(&union_proof.intersection_acc_value, acc2.acc_value());
    assert!(DynamicAccumulator::verify_union(
        acc1.acc_value(),
        acc2.acc_value(),
        union_acc.acc_value(),
        &union_proof
    ));

    // For overlapping but un-nested sets the embedded intersection proof
    // still verifies on its own.
    let mut acc3 = DynamicAccumulator::new();
    acc3.add_batch(&[200i64, 300, 400]).unwrap();
    let (union_acc2, union_proof2) = acc1.prove_union(&acc3).unwrap();
    assert_eq!(union_acc2.len(), 4);
    assert!(DynamicAccumulator::verify_intersection(
        acc1.acc_value(),
        acc3.acc_value(),
        &union_proof2.intersection_acc_value,
        &union_proof2.intersection_proof
    ));
}

#[test]
fn test_intersection_with_values() {
    let mut acc1 = DynamicAccumulator::new();
    acc1.add_batch(&[100i64, 200, 300]).unwrap();
    let mut acc2 = DynamicAccumulator::new();
    acc2.add_batch(&[200i64, 300, 400]).unwrap();

    let (values, _iacc, proof) = acc1
        .prove_intersection_with_values(&acc2, &[100, 200, 300], &[200, 300, 400])
        .unwrap();
    assert_eq!(values, vec![200i64, 300]);
    assert!(DynamicAccumulator::verify_intersection_with_values(
        acc1.acc_value(),
        acc2.acc_value(),
        &values,
        &proof
    ));
}

#[test]
fn test_union_with_values() {
    let mut acc1 = DynamicAccumulator::new();
    acc1.add_batch(&[1i64, 2]).unwrap();
    let mut acc2 = DynamicAccumulator::new();
    acc2.add_batch(&[2i64, 3]).unwrap();

    let (union_values, intersection_values, union_acc, union_proof) = acc1
        .prove_union_with_values(&acc2, &[1, 2], &[2, 3])
        .unwrap();
    assert_eq!(union_values, vec![1i64, 2, 3]);
    assert_eq!(intersection_values, vec![2i64]);
    assert!(DynamicAccumulator::verify_union_with_values(
        acc1.acc_value(),
        acc2.acc_value(),
        &union_values,
        &intersection_values,
        &union_proof
    ));
}

#[test]
fn test_elements_fr_are_digests() {
    // The exposed element digests change with the held set.
    let mut acc = DynamicAccumulator::new();
    assert!(acc.elements_fr().is_empty());
    acc.add(&7i64).unwrap();
    let digs = acc.elements_fr();
    assert_eq!(digs.len(), 1);
    assert_eq!(digs[0].len(), 32);
    let mut acc2 = DynamicAccumulator::new();
    acc2.add(&8i64).unwrap();
    assert_ne!(acc.elements_fr(), acc2.elements_fr());
}

#[test]
fn test_query_in_intersection_with_elements() {
    let mut acc1 = DynamicAccumulator::new();
    acc1.add_batch(&[10i64, 20]).unwrap();
    let mut acc2 = DynamicAccumulator::new();
    acc2.add_batch(&[20i64, 30]).unwrap();

    let (result, _proof, iacc, digs) = acc1
        .query_in_intersection_with_elements(&acc2, &20i64)
        .unwrap();
    assert_eq!(iacc.len(), 1);
    assert_eq!(digs.len(), 1);
    match result {
        QueryResult::Membership(p) => assert!(iacc.verify_membership(&p)),
        _ => panic!("20 should be in the intersection"),
    }
}
