use metatron_qso::backends::{BackendCapabilities, CapabilityMetadata, LocalSimulatorBackend};
use metatron_qso::circuit::MetatronCircuit;
use metatron_qso::registry::{BackendMode, BackendRegistry, RegistryError};

fn caps(provider: &str, name: &str, qubits: u32, simulator: bool, available: bool) -> BackendCapabilities {
    BackendCapabilities {
        provider: provider.to_string(),
        name: name.to_string(),
        num_qubits: qubits,
        is_simulator: simulator,
        max_shots: None,
        available,
        metadata: CapabilityMetadata::Empty,
    }
}

#[test]
fn test_registry_creation() {
    let registry: BackendRegistry<LocalSimulatorBackend> = BackendRegistry::new();
    assert_eq!(registry.mode(), &BackendMode::SimulationOnly);
    assert_eq!(registry.list_backends().len(), 0);
}

#[test]
fn test_backend_registration() {
    let mut registry = BackendRegistry::new();
    let backend = LocalSimulatorBackend::new();
    let info = backend.info();

    registry.register("local_sim".to_string(), backend, info).unwrap();
    assert_eq!(registry.list_backends().len(), 1);
    assert!(registry.get("local_sim").is_some());
}

#[test]
fn test_mode_switching() {
    let mut registry: BackendRegistry<LocalSimulatorBackend> = BackendRegistry::new();
    assert_eq!(registry.mode(), &BackendMode::SimulationOnly);

    registry.set_mode(BackendMode::QpuEnabledAuto);
    assert_eq!(registry.mode(), &BackendMode::QpuEnabledAuto);

    registry.set_mode(BackendMode::ForceProvider("ibm".to_string()));
    assert_eq!(
        registry.mode(),
        &BackendMode::ForceProvider("ibm".to_string())
    );
}

#[test]
fn test_backend_selection_simulation_only() {
    let mut registry = BackendRegistry::new();
    let backend = LocalSimulatorBackend::new();
    let info = backend.info();
    registry.register("local_sim".to_string(), backend, info).unwrap();

    let circuit = MetatronCircuit::new(2);
    let selected = registry.select_backend_for(&circuit).unwrap();

    assert!(selected.info().is_simulator);
    assert_eq!(selected.info().provider, "local");
}

#[test]
fn duplicate_names_are_refused() {
    let mut registry = BackendRegistry::new();
    registry.register("a".to_string(), 1u8, caps("local", "a", 5, true, true)).unwrap();
    let err = registry.register("a".to_string(), 2u8, caps("local", "a2", 5, true, true)).unwrap_err();
    assert!(matches!(&err, RegistryError::AlreadyRegistered { name } if name == "a"));
    assert_eq!(err.message(), "Backend 'a' is already registered");
    assert_eq!(registry.list_backends().len(), 1);
    assert_eq!(registry.get("a"), Some(&1u8));
    assert_eq!(registry.get("b"), None);
}

#[test]
fn list_backends_keeps_registration_order() {
    let mut registry = BackendRegistry::with_mode(BackendMode::QpuEnabledAuto);
    registry.register("x".to_string(), 0u8, caps("local", "x", 3, true, true)).unwrap();
    registry.register("y".to_string(), 1u8, caps("ibm", "y", 127, false, false)).unwrap();
    let listed = registry.list_backends();
    assert_eq!(listed.len(), 2);
    assert_eq!(listed[0].name, "x");
    assert_eq!(listed[1].name, "y");
    assert_eq!(listed[1].num_qubits, 127);
    assert_eq!(registry.mode(), &BackendMode::QpuEnabledAuto);
}

#[test]
fn simulation_only_picks_the_smallest_fitting_simulator() {
    let mut registry = BackendRegistry::new();
    registry.register("big".to_string(), 1u8, caps("local", "big", 20, true, true)).unwrap();
    registry.register("small".to_string(), 2u8, caps("local", "small", 5, true, true)).unwrap();
    registry.register("tiny".to_string(), 3u8, caps("local", "tiny", 2, true, true)).unwrap();
    registry.register("off".to_string(), 4u8, caps("local", "off", 4, true, false)).unwrap();
    registry.register("qpu".to_string(), 5u8, caps("ibm", "qpu", 3, false, true)).unwrap();
    assert_eq!(registry.select_backend_for(&MetatronCircuit::new(3)).ok(), Some(&2u8));
    assert_eq!(registry.select_backend_for(&MetatronCircuit::new(2)).ok(), Some(&3u8));
    assert_eq!(registry.select_backend_for(&MetatronCircuit::new(20)).ok(), Some(&1u8));
    let err = registry.select_backend_for(&MetatronCircuit::new(21)).unwrap_err();
    assert!(matches!(err, RegistryError::NoSimulator { num_qubits: 21 }));
    assert_eq!(err.message(), "No available simulator found for 21 qubits");
}

#[test]
fn equal_sizes_keep_the_first_registered() {
    let mut registry = BackendRegistry::new();
    registry.register("first".to_string(), 1u8, caps("local", "first", 5, true, true)).unwrap();
    registry.register("second".to_string(), 2u8, caps("local", "second", 5, true, true)).unwrap();
    assert_eq!(registry.select_backend_for(&MetatronCircuit::new(4)).ok(), Some(&1u8));
}

#[test]
fn qpu_enabled_falls_back_to_available_qpus() {
    let mut registry = BackendRegistry::with_mode(BackendMode::QpuEnabledAuto);
    registry.register("sim".to_string(), 1u8, caps("local", "sim", 13, true, true)).unwrap();
    registry.register("qpu_big".to_string(), 2u8, caps("ibm", "qpu_big", 127, false, true)).unwrap();
    registry.register("qpu_mid".to_string(), 3u8, caps("ibm", "qpu_mid", 27, false, true)).unwrap();
    registry.register("qpu_off".to_string(), 4u8, caps("ibm", "qpu_off", 20, false, false)).unwrap();
    assert_eq!(registry.select_backend_for(&MetatronCircuit::new(10)).ok(), Some(&1u8));
    assert_eq!(registry.select_backend_for(&MetatronCircuit::new(20)).ok(), Some(&3u8));
    assert_eq!(registry.select_backend_for(&MetatronCircuit::new(100)).ok(), Some(&2u8));
    let err = registry.select_backend_for(&MetatronCircuit::new(200)).unwrap_err();
    assert!(matches!(err, RegistryError::NoQpu { num_qubits: 200 }));
    assert_eq!(
        err.message(),
        "No available QPU found for 200 qubits (mode: QpuEnabledAuto)"
    );
}

#[test]
fn forced_provider_prefers_simulators_then_fewer_qubits() {
    let mut registry = BackendRegistry::with_mode(BackendMode::ForceProvider("ibm".to_string()));
    registry.register("local".to_string(), 1u8, caps("local", "local", 13, true, true)).unwrap();
    registry.register("ibm_big".to_string(), 2u8, caps("ibm", "ibm_big", 127, false, true)).unwrap();
    registry.register("ibm_small".to_string(), 3u8, caps("ibm", "ibm_small", 27, false, true)).unwrap();
    assert_eq!(registry.select_backend_for(&MetatronCircuit::new(5)).ok(), Some(&3u8));
    registry.register("ibm_sim".to_string(), 4u8, caps("ibm", "ibm_sim", 32, true, true)).unwrap();
    assert_eq!(registry.select_backend_for(&MetatronCircuit::new(5)).ok(), Some(&4u8));
    assert_eq!(registry.select_backend_for(&MetatronCircuit::new(100)).ok(), Some(&2u8));
    let err = registry.select_backend_for(&MetatronCircuit::new(128)).unwrap_err();
    assert!(matches!(
        &err,
        RegistryError::NoProviderBackend { provider, num_qubits: 128 } if provider == "ibm"
    ));
    assert_eq!(
        err.message(),
        "No available backend from provider 'ibm' for 128 qubits"
    );
}

#[test]
fn default_registry_is_empty_and_simulation_only() {
    let registry: BackendRegistry<u8> = BackendRegistry::default();
    assert_eq!(registry.mode(), &BackendMode::SimulationOnly);
    assert!(registry.list_backends().is_empty());
    assert_eq!(BackendMode::default(), BackendMode::SimulationOnly);
}

#[test]
fn lookup_after_registration() {
    let mut registry = BackendRegistry::new();
    registry.register("a".to_string(), 10u8, caps("local", "a", 5, true, true)).unwrap();
    registry.register("b".to_string(), 20u8, caps("local", "b", 5, true, true)).unwrap();
    assert_eq!(registry.get("a"), Some(&10u8));
    assert_eq!(registry.get("b"), Some(&20u8));
    assert_eq!(registry.get("c"), None);
}
