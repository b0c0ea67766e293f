use metatron_qso::ansatz::{
    check_parameter_count, AnsatzType, EfficientSU2Ansatz, EntanglementStrategy,
    HardwareEfficientAnsatz, MetatronAnsatz,
};
use metatron_qso::METATRON_DIMENSION;

#[test]
fn test_hardware_efficient_parameter_count() {
    let ansatz = HardwareEfficientAnsatz::new(3);
    assert_eq!(ansatz.num_parameters(), 2 * METATRON_DIMENSION * 3);
}

#[test]
fn test_efficient_su2_parameter_count() {
    let ansatz = EfficientSU2Ansatz::new(2);
    assert_eq!(ansatz.num_parameters(), 3 * METATRON_DIMENSION * 2);
}

#[test]
fn metatron_ring_ansatz_parameter_count() {
    let ansatz = MetatronAnsatz::new(2);
    assert_eq!(ansatz.num_entangling_gates(), 13);
    assert_eq!(ansatz.num_parameters(), 52);
    assert_eq!(ansatz.depth(), 2);
    assert_eq!(ansatz.num_qubits(), 13);
    assert!(matches!(ansatz.ansatz_type(), AnsatzType::Metatron));
}

#[test]
fn metatron_full_ansatz_parameter_count() {
    let ansatz = MetatronAnsatz::new_with_entanglement(2, EntanglementStrategy::Full);
    assert_eq!(ansatz.num_entangling_gates(), 78);
    assert_eq!(ansatz.num_parameters(), 182);
}

#[test]
fn zero_depth_ansatz_has_no_parameters() {
    assert_eq!(HardwareEfficientAnsatz::new(0).num_parameters(), 0);
    assert_eq!(EfficientSU2Ansatz::new(0).num_parameters(), 0);
    assert_eq!(MetatronAnsatz::new(0).num_parameters(), 0);
}

#[test]
fn ansatz_types_and_sizes() {
    let hw = HardwareEfficientAnsatz::new(4);
    assert!(matches!(hw.ansatz_type(), AnsatzType::HardwareEfficient));
    assert_eq!(hw.num_qubits(), 13);
    assert_eq!(hw.depth(), 4);
    let su2 = EfficientSU2Ansatz::new(5);
    assert!(matches!(su2.ansatz_type(), AnsatzType::EfficientSU2));
    assert_eq!(su2.num_qubits(), 13);
    assert_eq!(su2.depth(), 5);
}

#[test]
fn parameter_count_validation() {
    let ansatz = HardwareEfficientAnsatz::new(3);
    assert!(ansatz.validate_parameter_count(78).is_ok());
    assert_eq!(
        ansatz.validate_parameter_count(5),
        Err("Expected 78 parameters, got 5".to_string())
    );
    let su2 = EfficientSU2Ansatz::new(1);
    assert_eq!(
        su2.validate_parameter_count(0),
        Err("Expected 39 parameters, got 0".to_string())
    );
    let metatron = MetatronAnsatz::new(1);
    assert!(metatron.validate_parameter_count(26).is_ok());
    assert_eq!(
        metatron.validate_parameter_count(27),
        Err("Expected 26 parameters, got 27".to_string())
    );
}

#[test]
fn check_parameter_count_message() {
    assert_eq!(check_parameter_count(10, 10), Ok(()));
    assert_eq!(
        check_parameter_count(10, 123),
        Err("Expected 10 parameters, got 123".to_string())
    );
}
