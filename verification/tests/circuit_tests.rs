use metatron_qso::circuit::{
    increment_count, insert_count, Angle, GateType, MeasurementResult, MetatronCircuit,
};

fn angle(x: f64) -> Angle {
    Angle { bits: x.to_bits() }
}

fn probability(result: &MeasurementResult, outcome: &str) -> f64 {
    result.count_of(outcome) as f64 / result.shots as f64
}

fn expectation_z(result: &MeasurementResult, qubit: usize) -> f64 {
    let mut expectation = 0.0;
    for (outcome, _) in &result.counts {
        let prob = probability(result, outcome);
        let sign = if MeasurementResult::qubit_is_one(outcome, qubit) { -1.0 } else { 1.0 };
        expectation += sign * prob;
    }
    expectation
}

#[test]
fn test_circuit_builder() {
    let circuit = MetatronCircuit::new(2).h(0).cnot(0, 1).measure_all();

    assert_eq!(circuit.num_qubits, 2);
    assert_eq!(circuit.gates.len(), 4); // H + CNOT + 2 measurements
}

#[test]
fn test_measurement_result() {
    let mut counts = Vec::new();
    insert_count(&mut counts, "00".to_string(), 500);
    insert_count(&mut counts, "11".to_string(), 500);

    let result = MeasurementResult::new(counts, 1000, "test".to_string());

    assert_eq!(probability(&result, "00"), 0.5);
    assert_eq!(probability(&result, "11"), 0.5);
    assert_eq!(expectation_z(&result, 0), 0.0);
}

#[test]
fn builder_records_gates_in_order() {
    let circuit = MetatronCircuit::new(3)
        .h(0)
        .x(1)
        .y(2)
        .z(0)
        .s(1)
        .t(2)
        .rx(0, angle(0.5))
        .ry(1, angle(1.5))
        .rz(2, angle(-0.25))
        .u(0, angle(0.1), angle(0.2), angle(0.3))
        .cz(0, 2)
        .swap(1, 2)
        .measure(1);
    assert_eq!(circuit.num_clbits, 3);
    assert_eq!(circuit.depth(), 13);
    assert!(matches!(circuit.gates[0].gate_type, GateType::H));
    assert_eq!(circuit.gates[0].qubits, vec![0]);
    assert!(matches!(circuit.gates[6].gate_type, GateType::RX(a) if a.bits == 0.5f64.to_bits()));
    assert!(matches!(circuit.gates[10].gate_type, GateType::CZ));
    assert_eq!(circuit.gates[10].qubits, vec![0, 2]);
    assert!(matches!(circuit.gates[11].gate_type, GateType::SWAP));
    assert_eq!(circuit.gates[11].qubits, vec![1, 2]);
    assert!(matches!(circuit.gates[12].gate_type, GateType::Measure));
    assert_eq!(circuit.gates[12].qubits, vec![1]);
}

#[test]
fn measure_all_measures_each_qubit() {
    let circuit = MetatronCircuit::new(3).measure_all();
    assert_eq!(circuit.gates.len(), 3);
    for q in 0..3 {
        assert!(matches!(circuit.gates[q].gate_type, GateType::Measure));
        assert_eq!(circuit.gates[q].qubits, vec![q]);
    }
}

#[test]
fn count_gates_compares_angles_by_value() {
    let circuit = MetatronCircuit::new(2)
        .rx(0, angle(0.5))
        .rx(1, angle(0.5))
        .rx(0, angle(0.75))
        .h(0)
        .h(1)
        .rz(0, angle(0.0));
    assert_eq!(circuit.count_gates(&GateType::RX(angle(0.5))), 2);
    assert_eq!(circuit.count_gates(&GateType::RX(angle(0.75))), 1);
    assert_eq!(circuit.count_gates(&GateType::H), 2);
    assert_eq!(circuit.count_gates(&GateType::CNOT), 0);
    // -0.0 == 0.0 in IEEE arithmetic
    assert_eq!(circuit.count_gates(&GateType::RZ(angle(-0.0))), 1);
}

#[test]
fn nan_angles_are_never_equal() {
    let nan = angle(f64::NAN);
    assert!(!nan.same_value(&nan));
    assert!(angle(0.0).same_value(&angle(-0.0)));
    assert!(angle(2.5).same_value(&angle(2.5)));
    assert!(!angle(2.5).same_value(&angle(2.0)));
    let circuit = MetatronCircuit::new(1).ry(0, nan);
    assert_eq!(circuit.count_gates(&GateType::RY(nan)), 0);
    assert!(!GateType::RY(nan).same_as(&GateType::RY(nan)));
    assert!(GateType::U(angle(1.0), angle(2.0), angle(3.0))
        .same_as(&GateType::U(angle(1.0), angle(2.0), angle(3.0))));
    assert!(!GateType::X.same_as(&GateType::Y));
}

#[test]
fn counts_insert_and_increment() {
    let mut counts: Vec<(String, u64)> = Vec::new();
    increment_count(&mut counts, "01".to_string());
    increment_count(&mut counts, "01".to_string());
    increment_count(&mut counts, "10".to_string());
    insert_count(&mut counts, "10".to_string(), 7);
    assert_eq!(counts.len(), 2);
    let result = MeasurementResult::new(counts, 9, "sim".to_string());
    assert_eq!(result.count_of("01"), 2);
    assert_eq!(result.count_of("10"), 7);
    assert_eq!(result.count_of("11"), 0);
    assert_eq!(result.execution_time_ms, None);
    assert_eq!(result.backend_name, "sim");
}

#[test]
fn most_likely_outcome_has_the_largest_count() {
    let mut counts = Vec::new();
    insert_count(&mut counts, "00".to_string(), 3);
    insert_count(&mut counts, "01".to_string(), 9);
    insert_count(&mut counts, "10".to_string(), 4);
    let result = MeasurementResult::new(counts, 16, "sim".to_string());
    assert_eq!(result.most_likely_outcome(), Some(("01".to_string(), 9)));
    let empty = MeasurementResult::new(Vec::new(), 0, "sim".to_string());
    assert_eq!(empty.most_likely_outcome(), None);
}

#[test]
fn qubit_bits_are_read_from_the_right() {
    assert!(MeasurementResult::qubit_is_one("01", 0));
    assert!(!MeasurementResult::qubit_is_one("01", 1));
    assert!(!MeasurementResult::qubit_is_one("01", 5));
    assert!(MeasurementResult::qubit_is_one("100", 2));
}

#[test]
fn expectation_z_of_a_biased_result() {
    let mut counts = Vec::new();
    insert_count(&mut counts, "0".to_string(), 3);
    insert_count(&mut counts, "1".to_string(), 1);
    let result = MeasurementResult::new(counts, 4, "sim".to_string());
    assert_eq!(expectation_z(&result, 0), 0.5);
}
