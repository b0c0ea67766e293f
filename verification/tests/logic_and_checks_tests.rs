use metatron_qso::dtl::{DTLOperations, TripolarStateKind};
use metatron_qso::quantum::{
    check_amplitude_count, check_basis_index, check_permutation, QuantumOperatorError,
    QuantumStateError,
};
use metatron_qso::text::{append_binary, append_decimal, binary_padded};
use metatron_qso::vqa::{EncodingType, InitialStateType, OptimizerType};

const KINDS: [TripolarStateKind; 3] = [
    TripolarStateKind::L0,
    TripolarStateKind::L1,
    TripolarStateKind::Ld,
];

#[test]
fn boolean_reduction_matches_expectations() {
    let l0 = TripolarStateKind::L0;
    let l1 = TripolarStateKind::L1;
    assert_eq!(DTLOperations::and_kind(l0, l1), TripolarStateKind::L0);
    assert_eq!(DTLOperations::or_kind(l0, l1), TripolarStateKind::L1);
    assert_eq!(DTLOperations::not_kind(l0), TripolarStateKind::L1);
}

#[test]
fn dynamic_class_stays_dynamic() {
    let ld = TripolarStateKind::Ld;
    assert_eq!(DTLOperations::and_kind(ld, TripolarStateKind::L1), ld);
    assert_eq!(DTLOperations::and_kind(ld, TripolarStateKind::L0), TripolarStateKind::L0);
    assert_eq!(DTLOperations::or_kind(ld, TripolarStateKind::L0), ld);
    assert_eq!(DTLOperations::or_kind(ld, TripolarStateKind::L1), TripolarStateKind::L1);
    assert_eq!(DTLOperations::not_kind(ld), ld);
    assert_eq!(DTLOperations::and_kind(ld, ld), ld);
}

#[test]
fn de_morgan_and_commutativity_on_all_classes() {
    for &x in &KINDS {
        assert_eq!(DTLOperations::not_kind(DTLOperations::not_kind(x)), x);
        for &y in &KINDS {
            assert_eq!(DTLOperations::and_kind(x, y), DTLOperations::and_kind(y, x));
            assert_eq!(DTLOperations::or_kind(x, y), DTLOperations::or_kind(y, x));
            assert_eq!(
                DTLOperations::not_kind(DTLOperations::and_kind(x, y)),
                DTLOperations::or_kind(DTLOperations::not_kind(x), DTLOperations::not_kind(y))
            );
            assert_eq!(
                DTLOperations::not_kind(DTLOperations::or_kind(x, y)),
                DTLOperations::and_kind(DTLOperations::not_kind(x), DTLOperations::not_kind(y))
            );
        }
    }
}

#[test]
fn permutation_checks() {
    let identity: Vec<usize> = (0..13).collect();
    assert_eq!(check_permutation(&identity), Ok(()));
    let short: Vec<usize> = (0..5).collect();
    let err = check_permutation(&short).unwrap_err();
    assert_eq!(
        err,
        QuantumOperatorError::InvalidPermutationLength { expected: 13, actual: 5 }
    );
    assert_eq!(err.message(), "permutation must have length 13, got 5");
    let mut bad = identity.clone();
    bad[3] = 20;
    bad[9] = 15;
    let err = check_permutation(&bad).unwrap_err();
    assert_eq!(
        err,
        QuantumOperatorError::PermutationIndexOutOfRange { index: 20, dimension: 13 }
    );
    assert_eq!(err.message(), "permutation index 20 exceeds dimension 13");
}

#[test]
fn state_dimension_checks() {
    assert_eq!(check_amplitude_count(13), Ok(()));
    let err = check_amplitude_count(12).unwrap_err();
    assert_eq!(err, QuantumStateError::DimensionMismatch { expected: 13, actual: 12 });
    assert_eq!(err.message(), "expected 13 amplitudes, got 12");
    assert_eq!(check_basis_index(12), Ok(()));
    assert!(check_basis_index(13).is_err());
    assert_eq!(
        QuantumStateError::ZeroNorm.message(),
        "state has zero norm and cannot be measured"
    );
}

#[test]
fn number_formatting() {
    let mut s = String::from("n=");
    append_decimal(&mut s, 0);
    append_decimal(&mut s, 4096);
    assert_eq!(s, "n=04096");
    let mut b = String::new();
    append_binary(&mut b, 10);
    assert_eq!(b, "1010");
    assert_eq!(binary_padded(5, 6), "000101");
    assert_eq!(binary_padded(5, 2), "101");
    assert_eq!(binary_padded(0, 0), "0");
    assert_eq!(binary_padded(255, 8), "11111111");
}

#[test]
fn configuration_enums_compare() {
    assert_eq!(OptimizerType::Adam, OptimizerType::Adam);
    assert_ne!(OptimizerType::Adam, OptimizerType::LBFGS);
    assert_ne!(EncodingType::Angle, EncodingType::Basis);
    assert_eq!(InitialStateType::HartreeFock, InitialStateType::HartreeFock);
}
