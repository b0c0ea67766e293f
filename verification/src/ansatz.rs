//! Parameter bookkeeping of the parametrized circuit templates (ansätze)
//! used by the variational algorithms: how many parameters each template
//! takes for a given depth, and the check that a parameter vector fits.
//! (Applying a template to a state is floating-point work done by the
//! surrounding application.)

use vstd::prelude::*;
use vstd::string::StringExecFns;

use crate::text::{append_decimal, decimal};
use crate::METATRON_DIMENSION;

verus! {

/// Ansatz type variants.
#[derive(Clone, Debug, PartialEq, Eq, Structural)]
pub enum AnsatzType {
    HardwareEfficient,
    EfficientSU2,
    Metatron,
}

/// Entanglement strategy of the Metatron ansatz.
#[derive(Clone, Debug, PartialEq, Eq, Structural)]
pub enum EntanglementStrategy {
    /// Ring/circular entanglement pattern.
    Ring,
    /// Full all-to-all entanglement.
    Full,
}

/// The message of a parameter vector of the wrong length.
pub open spec fn parameter_count_message(expected: nat, actual: nat) -> Seq<char> {
    "Expected "@ + decimal(expected) + " parameters, got "@ + decimal(actual)
}

/// Checks that `actual` parameters were given where `expected` are needed.
pub fn check_parameter_count(expected: usize, actual: usize) -> (r: Result<(), String>)
    ensures
        actual == expected <==> r is Ok,
        r matches Err(msg) ==> msg@ == parameter_count_message(expected as nat, actual as nat),
{
    if actual != expected {
        proof {
            reveal_strlit("Expected ");
            reveal_strlit(" parameters, got ");
        }
        let mut msg = String::new();
        msg.append("Expected ");
        append_decimal(&mut msg, expected);
        msg.append(" parameters, got ");
        append_decimal(&mut msg, actual);
        assert(msg@ =~= parameter_count_message(expected as nat, actual as nat));
        Err(msg)
    } else {
        Ok(())
    }
}

/// Hardware-efficient ansatz: per layer, Ry and Rz rotations on all 13
/// qubits followed by a circular entangling pattern; `2 * 13 * depth`
/// parameters.
#[derive(Clone, Debug)]
pub struct HardwareEfficientAnsatz {
    num_qubits: usize,
    depth: usize,
}

impl HardwareEfficientAnsatz {
    /// Number of qubits the template acts on.
    pub closed spec fn qubit_count(&self) -> nat {
        self.num_qubits as nat
    }

    /// Number of layers.
    pub closed spec fn layer_count(&self) -> nat {
        self.depth as nat
    }

    pub fn new(depth: usize) -> (r: Self)
        ensures
            r.qubit_count() == METATRON_DIMENSION,
            r.layer_count() == depth,
    {
        Self { num_qubits: METATRON_DIMENSION, depth }
    }

    /// Total number of parameters: two rotation angles per qubit per layer.
    pub fn num_parameters(&self) -> (r: usize)
        requires
            2 * self.qubit_count() <= usize::MAX,
            2 * self.qubit_count() * self.layer_count() <= usize::MAX,
        ensures
            r == 2 * self.qubit_count() * self.layer_count(),
    {
        2 * self.num_qubits * self.depth
    }

    pub fn ansatz_type(&self) -> (r: AnsatzType)
        ensures
            r == AnsatzType::HardwareEfficient,
    {
        AnsatzType::HardwareEfficient
    }

    pub fn num_qubits(&self) -> (r: usize)
        ensures
            r == METATRON_DIMENSION,
    {
        METATRON_DIMENSION
    }

    pub fn depth(&self) -> (r: usize)
        ensures
            r == self.layer_count(),
    {
        self.depth
    }

    /// Checks that a parameter vector of length `count` fits the template.
    pub fn validate_parameter_count(&self, count: usize) -> (r: Result<(), String>)
        requires
            2 * self.qubit_count() <= usize::MAX,
            2 * self.qubit_count() * self.layer_count() <= usize::MAX,
        ensures
            r is Ok <==> count == 2 * self.qubit_count() * self.layer_count(),
            r matches Err(msg) ==> msg@ == parameter_count_message(
                2 * self.qubit_count() * self.layer_count(),
                count as nat,
            ),
    {
        check_parameter_count(self.num_parameters(), count)
    }
}

/// EfficientSU2 ansatz: per layer, a full SU(2) rotation (three angles) on
/// each of the 13 qubits and a fixed entangling layer; `3 * 13 * depth`
/// parameters.
#[derive(Clone, Debug)]
pub struct EfficientSU2Ansatz {
    num_qubits: usize,
    depth: usize,
}

impl EfficientSU2Ansatz {
    /// Number of qubits the template acts on.
    pub closed spec fn qubit_count(&self) -> nat {
        self.num_qubits as nat
    }

    /// Number of layers.
    pub closed spec fn layer_count(&self) -> nat {
        self.depth as nat
    }

    pub fn new(depth: usize) -> (r: Self)
        ensures
            r.qubit_count() == METATRON_DIMENSION,
            r.layer_count() == depth,
    {
        Self { num_qubits: METATRON_DIMENSION, depth }
    }

    /// Total number of parameters: three angles per qubit per layer.
    pub fn num_parameters(&self) -> (r: usize)
        requires
            3 * self.qubit_count() <= usize::MAX,
            3 * self.qubit_count() * self.layer_count() <= usize::MAX,
        ensures
            r == 3 * self.qubit_count() * self.layer_count(),
    {
        3 * self.num_qubits * self.depth
    }

    pub fn ansatz_type(&self) -> (r: AnsatzType)
        ensures
            r == AnsatzType::EfficientSU2,
    {
        AnsatzType::EfficientSU2
    }

    pub fn num_qubits(&self) -> (r: usize)
        ensures
            r == METATRON_DIMENSION,
    {
        METATRON_DIMENSION
    }

    pub fn depth(&self) -> (r: usize)
        ensures
            r == self.layer_count(),
    {
        self.depth
    }

    /// Checks that a parameter vector of length `count` fits the template.
    pub fn validate_parameter_count(&self, count: usize) -> (r: Result<(), String>)
        requires
            3 * self.qubit_count() <= usize::MAX,
            3 * self.qubit_count() * self.layer_count() <= usize::MAX,
        ensures
            r is Ok <==> count == 3 * self.qubit_count() * self.layer_count(),
            r matches Err(msg) ==> msg@ == parameter_count_message(
                3 * self.qubit_count() * self.layer_count(),
                count as nat,
            ),
    {
        check_parameter_count(self.num_parameters(), count)
    }
}

/// Number of entangling gates per layer of the Metatron ansatz: one per
/// ring link (13) or one per pair of nodes (78).
pub open spec fn entangling_gate_count(strategy: EntanglementStrategy) -> nat {
    match strategy {
        EntanglementStrategy::Ring => 13,
        EntanglementStrategy::Full => 13 * 12 / 2,
    }
}

/// Metatron-optimized ansatz: per layer, one rotation per node of the
/// Metatron Cube and one entangling gate per link of the chosen strategy.
#[derive(Clone, Debug)]
pub struct MetatronAnsatz {
    depth: usize,
    entanglement_strategy: EntanglementStrategy,
}

impl MetatronAnsatz {
    /// Number of layers.
    pub closed spec fn layer_count(&self) -> nat {
        self.depth as nat
    }

    /// The entanglement strategy.
    pub closed spec fn strategy(&self) -> EntanglementStrategy {
        self.entanglement_strategy
    }

    /// Parameters per layer: one per node and one per entangling gate.
    pub open spec fn parameters_per_layer(&self) -> nat {
        13 + entangling_gate_count(self.strategy())
    }

    /// Metatron ansatz with ring entanglement.
    pub fn new(depth: usize) -> (r: Self)
        ensures
            r.layer_count() == depth,
            r.strategy() == EntanglementStrategy::Ring,
    {
        Self { depth, entanglement_strategy: EntanglementStrategy::Ring }
    }

    /// Metatron ansatz with the given entanglement strategy.
    pub fn new_with_entanglement(depth: usize, entanglement: EntanglementStrategy) -> (r: Self)
        ensures
            r.layer_count() == depth,
            r.strategy() == entanglement,
    {
        Self { depth, entanglement_strategy: entanglement }
    }

    /// Number of entangling gates per layer.
    pub fn num_entangling_gates(&self) -> (r: usize)
        ensures
            r == entangling_gate_count(self.strategy()),
    {
        match self.entanglement_strategy {
            EntanglementStrategy::Ring => METATRON_DIMENSION,
            EntanglementStrategy::Full => METATRON_DIMENSION * (METATRON_DIMENSION - 1) / 2,
        }
    }

    /// Total number of parameters.
    pub fn num_parameters(&self) -> (r: usize)
        requires
            self.parameters_per_layer() * self.layer_count() <= usize::MAX,
        ensures
            r == self.parameters_per_layer() * self.layer_count(),
    {
        (METATRON_DIMENSION + self.num_entangling_gates()) * self.depth
    }

    pub fn ansatz_type(&self) -> (r: AnsatzType)
        ensures
            r == AnsatzType::Metatron,
    {
        AnsatzType::Metatron
    }

    pub fn num_qubits(&self) -> (r: usize)
        ensures
            r == METATRON_DIMENSION,
    {
        METATRON_DIMENSION
    }

    pub fn depth(&self) -> (r: usize)
        ensures
            r == self.layer_count(),
    {
        self.depth
    }

    /// Checks that a parameter vector of length `count` fits the template.
    pub fn validate_parameter_count(&self, count: usize) -> (r: Result<(), String>)
        requires
            self.parameters_per_layer() * self.layer_count() <= usize::MAX,
        ensures
            r is Ok <==> count == self.parameters_per_layer() * self.layer_count(),
            r matches Err(msg) ==> msg@ == parameter_count_message(
                self.parameters_per_layer() * self.layer_count(),
                count as nat,
            ),
    {
        check_parameter_count(self.num_parameters(), count)
    }
}

} // verus!
