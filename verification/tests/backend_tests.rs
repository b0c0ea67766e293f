use metatron_qso::backends::{
    default_backend_name, default_max_shots, ibm_env_field, BackendCapabilities, CapabilityMetadata, IbmConfig,
    IbmError, IbmMode, IbmQuantumBackend, LocalSimulatorBackend,
};
use metatron_qso::circuit::MetatronCircuit;

fn lookup(counts: &[(String, u64)], key: &str) -> Option<u64> {
    counts.iter().find(|(k, _)| k == key).map(|(_, c)| *c)
}

#[test]
fn test_default_config() {
    let config = IbmConfig::default();
    assert_eq!(config.mode, IbmMode::Disabled);
    assert!(config.token.is_none());
    assert_eq!(config.backend_name, "ibm_kyoto");
}

#[test]
fn test_disabled_mode() {
    let config = IbmConfig {
        mode: IbmMode::Disabled,
        ..Default::default()
    };

    let backend = IbmQuantumBackend::new(config).unwrap();
    let circuit = MetatronCircuit::new(2);

    let result = backend.run_circuit(&circuit, 100);
    assert!(result.is_err());
    assert!(result.unwrap_err().message().contains("disabled"));
}

#[test]
fn test_dry_run_mode() {
    let config = IbmConfig {
        mode: IbmMode::DryRun,
        backend_name: "ibm_test".to_string(),
        ..Default::default()
    };

    let backend = IbmQuantumBackend::new(config).unwrap();
    let circuit = MetatronCircuit::new(2).h(0).cnot(0, 1).measure_all();

    let result = backend.run_circuit(&circuit, 100).unwrap();
    assert_eq!(result.shots, 100);
    assert!(!result.counts.is_empty());
    assert!(result.backend_name.contains("dry_run"));
}

#[test]
fn test_mode_validation() {
    // Enabled mode requires token
    let config = IbmConfig {
        mode: IbmMode::Enabled,
        token: None,
        ..Default::default()
    };

    let result = IbmQuantumBackend::new(config);
    assert!(result.is_err());
}

#[test]
fn test_local_simulator_basic() {
    let backend = LocalSimulatorBackend::new();
    let caps = backend.info();

    assert_eq!(caps.provider, "local");
    assert!(caps.is_simulator);
    assert!(caps.available);
}

#[test]
fn default_values() {
    assert_eq!(default_backend_name(), "ibm_kyoto");
    assert_eq!(default_max_shots(), 8192);
    assert_eq!(IbmConfig::default().max_shots, 8192);
    assert_eq!(IbmMode::default(), IbmMode::Disabled);
}

#[test]
fn dry_run_counts_are_spread_evenly() {
    let config = IbmConfig {
        mode: IbmMode::DryRun,
        backend_name: "ibm_test".to_string(),
        ..Default::default()
    };
    let backend = IbmQuantumBackend::new(config).unwrap();
    let circuit = MetatronCircuit::new(2).h(0).cnot(0, 1).measure_all();
    let result = backend.run_circuit(&circuit, 100).unwrap();
    assert_eq!(result.counts.len(), 4);
    for key in ["00", "01", "10", "11"] {
        assert_eq!(lookup(&result.counts, key), Some(25));
    }
    assert_eq!(result.backend_name, "ibm_test_dry_run");
    assert_eq!(result.execution_time_ms, Some(0));
}

#[test]
fn dry_run_caps_outcomes_at_one_hundred() {
    let config = IbmConfig {
        mode: IbmMode::DryRun,
        ..Default::default()
    };
    let backend = IbmQuantumBackend::new(config).unwrap();
    let circuit = MetatronCircuit::new(13);
    let result = backend.run_circuit(&circuit, 1000).unwrap();
    assert_eq!(result.counts.len(), 100);
    assert_eq!(lookup(&result.counts, "0000000000000"), Some(10));
    assert_eq!(lookup(&result.counts, "0000001100011"), Some(10));
    assert_eq!(lookup(&result.counts, "0000001100100"), None);
}

#[test]
fn dry_run_of_zero_qubits_has_one_outcome() {
    let config = IbmConfig {
        mode: IbmMode::DryRun,
        ..Default::default()
    };
    let backend = IbmQuantumBackend::new(config).unwrap();
    let result = backend.run_circuit(&MetatronCircuit::new(0), 7).unwrap();
    assert_eq!(result.counts, vec![("0".to_string(), 7)]);
}

#[test]
fn too_many_shots_are_refused() {
    let config = IbmConfig {
        mode: IbmMode::DryRun,
        max_shots: 50,
        ..Default::default()
    };
    let backend = IbmQuantumBackend::new(config).unwrap();
    let err = backend.run_circuit(&MetatronCircuit::new(2), 51).unwrap_err();
    assert!(matches!(
        err,
        IbmError::ShotsExceedMaximum { requested: 51, maximum: 50, .. }
    ));
    assert_eq!(
        err.message(),
        "Requested 51 shots exceeds maximum 50 for backend 'ibm_kyoto'"
    );
    assert!(backend.run_circuit(&MetatronCircuit::new(2), 50).is_ok());
}

#[test]
fn enabled_mode_cannot_execute() {
    let config = IbmConfig {
        mode: IbmMode::Enabled,
        token: Some("test-token".to_string()),
        ..Default::default()
    };
    let backend = IbmQuantumBackend::new(config).unwrap();
    assert_eq!(*backend.mode(), IbmMode::Enabled);
    assert!(backend.info().available);
    let err = backend.run_circuit(&MetatronCircuit::new(2), 10).unwrap_err();
    assert!(matches!(err, IbmError::RealExecutionUnavailable));
    assert_eq!(
        err.message(),
        "Real IBM execution not yet implemented - use Python sidecar or REST API"
    );
}

#[test]
fn disabled_error_message() {
    let backend = IbmQuantumBackend::new(IbmConfig::default()).unwrap();
    let err = backend.run_circuit(&MetatronCircuit::new(1), 1).unwrap_err();
    assert_eq!(
        err.message(),
        "IBM backend 'ibm_kyoto' is disabled. Set IBM_BACKEND_MODE=dry-run or enabled"
    );
    let info = backend.info();
    assert!(!info.available);
    assert_eq!(info.provider, "ibm");
    assert_eq!(info.num_qubits, 127);
    assert!(!info.is_simulator);
    assert_eq!(info.max_shots, Some(8192));
    assert!(matches!(
        info.metadata,
        CapabilityMetadata::Ibm { mode: IbmMode::Disabled, max_shots: 8192 }
    ));
}

#[test]
fn configuration_validation_errors() {
    let dry = IbmConfig {
        mode: IbmMode::DryRun,
        backend_name: String::new(),
        ..Default::default()
    };
    let err = dry.validate().unwrap_err();
    assert!(matches!(err, IbmError::BackendNameRequiredForDryRun));
    assert_eq!(err.message(), "backend_name must be set for dry-run mode");

    let no_token = IbmConfig {
        mode: IbmMode::Enabled,
        ..Default::default()
    };
    let err = no_token.validate().unwrap_err();
    assert!(matches!(err, IbmError::TokenRequiredForEnabled));
    assert_eq!(err.message(), "token is required for enabled mode");

    let no_name = IbmConfig {
        mode: IbmMode::Enabled,
        token: Some("t".to_string()),
        backend_name: String::new(),
        ..Default::default()
    };
    let err = no_name.validate().unwrap_err();
    assert!(matches!(err, IbmError::BackendNameRequiredForEnabled));
    assert_eq!(err.message(), "backend_name must be set for enabled mode");

    assert!(IbmConfig::default().validate().is_ok());
    let disabled_without_name = IbmConfig {
        backend_name: String::new(),
        ..Default::default()
    };
    assert!(disabled_without_name.validate().is_ok());
}

#[test]
fn environment_values_need_token_when_enabled() {
    let enabled = IbmConfig {
        mode: IbmMode::Enabled,
        ..Default::default()
    };
    let err = IbmConfig::from_env(enabled).unwrap_err();
    assert!(matches!(err, IbmError::TokenRequiredFromEnvironment));
    assert_eq!(
        err.message(),
        "IBM_QUANTUM_TOKEN is required when mode is 'enabled'"
    );
    let dry = IbmConfig {
        mode: IbmMode::DryRun,
        backend_name: "ibm_osaka".to_string(),
        ..Default::default()
    };
    let accepted = IbmConfig::from_env(dry).unwrap();
    assert_eq!(accepted.mode, IbmMode::DryRun);
    assert_eq!(accepted.backend_name, "ibm_osaka");
}

#[test]
fn capabilities_constructors_and_description() {
    let sim = BackendCapabilities::simulator("local", "local_sim", 13);
    assert!(sim.is_simulator);
    assert!(sim.available);
    assert_eq!(sim.max_shots, Some(1_000_000));
    assert_eq!(sim.description(), "local_sim (local) - 13 qubits, simulator");
    assert!(sim.can_run(13));
    assert!(!sim.can_run(14));

    let qpu = BackendCapabilities::qpu("ibm", "ibm_osaka", 127);
    assert!(!qpu.is_simulator);
    assert!(!qpu.available);
    assert_eq!(qpu.max_shots, Some(100_000));
    assert_eq!(qpu.description(), "ibm_osaka (ibm) - 127 qubits, QPU");
    assert!(!qpu.can_run(1));

    let copy = sim.duplicate();
    assert_eq!(copy.provider, "local");
    assert_eq!(copy.name, "local_sim");
    assert_eq!(copy.num_qubits, 13);
}

#[test]
fn local_simulator_tallies_outcomes() {
    let backend = LocalSimulatorBackend::with_qubits(5);
    assert_eq!(backend.info().num_qubits, 5);
    assert_eq!(backend.info().name, "local_sim");
    let counts = backend.tally_outcomes(&[0, 3, 3, 1], 2);
    assert_eq!(counts.len(), 3);
    assert_eq!(lookup(&counts, "0000"), Some(1));
    assert_eq!(lookup(&counts, "0011"), Some(2));
    assert_eq!(lookup(&counts, "0001"), Some(1));

    assert_eq!(counts.iter().map(|(_, c)| *c).sum::<u64>(), 4);
    let wide = backend.tally_outcomes(&[5, 5], 6);
    assert_eq!(wide, vec![("000101".to_string(), 2)]);
}

#[test]
fn local_simulator_measurement_result() {
    let backend = LocalSimulatorBackend::default();
    assert_eq!(backend.info().num_qubits, 13);
    let result = backend.measurement_result(&[2, 2, 2], 3, 2, 17);
    assert_eq!(result.shots, 3);
    assert_eq!(result.execution_time_ms, Some(17));
    assert_eq!(result.backend_name, "local_sim");
    assert_eq!(result.counts, vec![("0010".to_string(), 3)]);
}

#[test]
fn environment_keys_name_configuration_fields() {
    assert_eq!(ibm_env_field("QUANTUM_TOKEN"), "token");
    assert_eq!(ibm_env_field("BACKEND_NAME"), "backend_name");
    assert_eq!(ibm_env_field("BACKEND_MODE"), "mode");
    assert_eq!(ibm_env_field("MAX_SHOTS"), "max_shots");
    assert_eq!(ibm_env_field("OTHER_KEY"), "other_key");
    assert_eq!(ibm_env_field("QUANTUM_"), "");
    assert_eq!(ibm_env_field("BACKEND_MODES"), "backend_modes");
}

#[test]
fn backend_from_environment_values() {
    let enabled = IbmConfig {
        mode: IbmMode::Enabled,
        ..Default::default()
    };
    assert!(matches!(
        IbmQuantumBackend::from_env(enabled),
        Err(IbmError::TokenRequiredFromEnvironment)
    ));
    let dry_without_name = IbmConfig {
        mode: IbmMode::DryRun,
        backend_name: String::new(),
        ..Default::default()
    };
    assert!(matches!(
        IbmQuantumBackend::from_env(dry_without_name),
        Err(IbmError::BackendNameRequiredForDryRun)
    ));
    let ok = IbmQuantumBackend::from_env(IbmConfig::default()).unwrap();
    assert_eq!(*ok.mode(), IbmMode::Disabled);
}
