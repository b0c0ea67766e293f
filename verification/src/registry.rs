//! The registry of quantum backends and the rules that choose a backend for
//! a circuit under the current execution mode.

use vstd::prelude::*;
use vstd::string::StringExecFns;

use crate::backends::{can_run_on, same_capabilities, BackendCapabilities};
use crate::circuit::MetatronCircuit;
use crate::text::{append_decimal, decimal};

verus! {

/// Backend execution mode: which backends may run circuits.
#[derive(Debug, Clone, PartialEq, Eq)]
pub enum BackendMode {
    /// Only simulators (the safe default).
    SimulationOnly,
    /// Prefer simulators, fall back to available QPUs.
    QpuEnabledAuto,
    /// Only backends of the given provider.
    ForceProvider(String),
}

impl Default for BackendMode {
    fn default() -> (r: Self)
        ensures
            r == BackendMode::SimulationOnly,
    {
        BackendMode::SimulationOnly
    }
}

/// Errors of backend registration and selection.
#[derive(Debug, Clone)]
pub enum RegistryError {
    /// A backend of that name is already registered.
    AlreadyRegistered { name: String },
    /// No available simulator fits the circuit.
    NoSimulator { num_qubits: usize },
    /// Neither a simulator nor an available QPU fits the circuit.
    NoQpu { num_qubits: usize },
    /// No available backend of the forced provider fits the circuit.
    NoProviderBackend { provider: String, num_qubits: usize },
}

/// The text of a registry error.
pub open spec fn registry_error_text(e: RegistryError) -> Seq<char> {
    match e {
        RegistryError::AlreadyRegistered { name } => "Backend '"@ + name@ + "' is already registered"@,
        RegistryError::NoSimulator { num_qubits } => "No available simulator found for "@ + decimal(
            num_qubits as nat,
        ) + " qubits"@,
        RegistryError::NoQpu { num_qubits } => "No available QPU found for "@ + decimal(num_qubits as nat)
            + " qubits (mode: QpuEnabledAuto)"@,
        RegistryError::NoProviderBackend { provider, num_qubits } => "No available backend from provider '"@
            + provider@ + "' for "@ + decimal(num_qubits as nat) + " qubits"@,
    }
}

impl RegistryError {
    /// The human-readable description of the error.
    pub fn message(&self) -> (r: String)
        ensures
            r@ == registry_error_text(*self),
    {
        proof {
            reveal_strlit("Backend '");
            reveal_strlit("' is already registered");
            reveal_strlit("No available simulator found for ");
            reveal_strlit(" qubits");
            reveal_strlit("No available QPU found for ");
            reveal_strlit(" qubits (mode: QpuEnabledAuto)");
            reveal_strlit("No available backend from provider '");
            reveal_strlit("' for ");
        }
        let mut r = String::new();
        match self {
            RegistryError::AlreadyRegistered { name } => {
                r.append("Backend '");
                r.append(name.as_str());
                r.append("' is already registered");
            },
            RegistryError::NoSimulator { num_qubits } => {
                r.append("No available simulator found for ");
                append_decimal(&mut r, *num_qubits);
                r.append(" qubits");
            },
            RegistryError::NoQpu { num_qubits } => {
                r.append("No available QPU found for ");
                append_decimal(&mut r, *num_qubits);
                r.append(" qubits (mode: QpuEnabledAuto)");
            },
            RegistryError::NoProviderBackend { provider, num_qubits } => {
                r.append("No available backend from provider '");
                r.append(provider.as_str());
                r.append("' for ");
                append_decimal(&mut r, *num_qubits);
                r.append(" qubits");
            },
        }
        assert(r@ =~= registry_error_text(*self));
        r
    }
}

/// A simulator that can take a circuit on `n` qubits.
pub open spec fn eligible_simulator(caps: BackendCapabilities, n: usize) -> bool {
    caps.is_simulator && caps.available && can_run_on(caps, n)
}

/// A QPU that can take a circuit on `n` qubits.
pub open spec fn eligible_qpu(caps: BackendCapabilities, n: usize) -> bool {
    !caps.is_simulator && caps.available && can_run_on(caps, n)
}

/// A backend of `provider` that can take a circuit on `n` qubits.
pub open spec fn eligible_for_provider(caps: BackendCapabilities, provider: Seq<char>, n: usize) -> bool {
    caps.provider@ == provider && caps.available && can_run_on(caps, n)
}

/// The preference key among a provider's backends: simulators first, then
/// fewer qubits.
pub open spec fn provider_rank(caps: BackendCapabilities) -> (int, int) {
    (if caps.is_simulator { 0int } else { 1int }, caps.num_qubits as int)
}

/// `a` ranks strictly before `b` (lexicographic order).
pub open spec fn ranks_before(a: (int, int), b: (int, int)) -> bool {
    a.0 < b.0 || (a.0 == b.0 && a.1 < b.1)
}

/// The test for simulators that fit `n` qubits.
pub open spec fn simulator_test(n: usize) -> spec_fn(BackendCapabilities) -> bool {
    |c: BackendCapabilities| eligible_simulator(c, n)
}

/// The test for QPUs that fit `n` qubits.
pub open spec fn qpu_test(n: usize) -> spec_fn(BackendCapabilities) -> bool {
    |c: BackendCapabilities| eligible_qpu(c, n)
}

/// Entry `i` is eligible and no eligible entry has fewer qubits; it is the
/// first such entry.
pub open spec fn is_smallest_fit(caps: Seq<BackendCapabilities>, eligible: spec_fn(BackendCapabilities) -> bool, i: int) -> bool {
    &&& 0 <= i < caps.len()
    &&& eligible(caps[i])
    &&& forall|j: int| 0 <= j < caps.len() && eligible(#[trigger] caps[j]) ==> caps[i].num_qubits <= caps[j].num_qubits
    &&& forall|j: int| 0 <= j < i && eligible(#[trigger] caps[j]) ==> caps[i].num_qubits < caps[j].num_qubits
}

/// In simulation-only mode only simulators are chosen: the smallest fitting
/// simulator is an available simulator that can take the circuit, and no
/// fitting simulator has fewer qubits.
pub proof fn lemma_simulation_only_selects_simulators(caps: Seq<BackendCapabilities>, n: usize, i: int)
    requires
        is_smallest_fit(caps, simulator_test(n), i),
    ensures
        caps[i].is_simulator,
        caps[i].available,
        can_run_on(caps[i], n),
        forall|j: int| 0 <= j < caps.len() && eligible_simulator(#[trigger] caps[j], n) ==> caps[i].num_qubits <= caps[j].num_qubits,
{
    assert forall|j: int| 0 <= j < caps.len() && eligible_simulator(#[trigger] caps[j], n) implies caps[i].num_qubits <= caps[j].num_qubits by {
        assert(simulator_test(n)(caps[j]));
    }
}

/// When no simulator fits, QPU-enabled mode takes the smallest fitting QPU:
/// the chosen backend is an available QPU that can take the circuit, no
/// fitting QPU has fewer qubits, and every earlier fitting QPU has more (the
/// first registered wins a tie). Among simulators the same tie rule holds.
pub proof fn lemma_smallest_fit_choice(caps: Seq<BackendCapabilities>, n: usize, i: int, simulators: bool)
    requires
        simulators ==> is_smallest_fit(caps, simulator_test(n), i),
        !simulators ==> is_smallest_fit(caps, qpu_test(n), i),
    ensures
        0 <= i < caps.len(),
        caps[i].is_simulator == simulators,
        caps[i].available,
        can_run_on(caps[i], n),
        forall|j: int|
            0 <= j < caps.len() && (#[trigger] caps[j]).is_simulator == simulators && caps[j].available
                && can_run_on(caps[j], n) ==> caps[i].num_qubits <= caps[j].num_qubits,
        forall|j: int|
            0 <= j < i && (#[trigger] caps[j]).is_simulator == simulators && caps[j].available && can_run_on(
                caps[j],
                n,
            ) ==> caps[i].num_qubits < caps[j].num_qubits,
{
    let test = if simulators { simulator_test(n) } else { qpu_test(n) };
    assert(test(caps[i]));
    assert forall|j: int|
        0 <= j < caps.len() && (#[trigger] caps[j]).is_simulator == simulators && caps[j].available
            && can_run_on(caps[j], n) implies caps[i].num_qubits <= caps[j].num_qubits by {
        assert(test(caps[j]));
    }
    assert forall|j: int|
        0 <= j < i && (#[trigger] caps[j]).is_simulator == simulators && caps[j].available && can_run_on(
            caps[j],
            n,
        ) implies caps[i].num_qubits < caps[j].num_qubits by {
        assert(test(caps[j]));
    }
}

/// Entry `i` is eligible for the provider and ranks first; it is the first
/// such entry.
pub open spec fn is_best_for_provider(caps: Seq<BackendCapabilities>, provider: Seq<char>, n: usize, i: int) -> bool {
    &&& 0 <= i < caps.len()
    &&& eligible_for_provider(caps[i], provider, n)
    &&& forall|j: int| 0 <= j < caps.len() && eligible_for_provider(#[trigger] caps[j], provider, n) ==> !ranks_before(provider_rank(caps[j]), provider_rank(caps[i]))
    &&& forall|j: int| 0 <= j < i && eligible_for_provider(#[trigger] caps[j], provider, n) ==> ranks_before(provider_rank(caps[i]), provider_rank(caps[j]))
}

/// With a forced provider the chosen backend belongs to the provider, is
/// available and fits the circuit; no fitting available backend of the
/// provider is a simulator when the chosen one is a QPU, none of the same
/// kind (simulator or QPU) has fewer qubits, and an earlier one of the same
/// kind has more qubits (the first registered wins a tie).
pub proof fn lemma_provider_choice(caps: Seq<BackendCapabilities>, provider: Seq<char>, n: usize, i: int)
    requires
        is_best_for_provider(caps, provider, n, i),
    ensures
        0 <= i < caps.len(),
        caps[i].provider@ == provider,
        caps[i].available,
        can_run_on(caps[i], n),
        forall|j: int|
            0 <= j < caps.len() && (#[trigger] caps[j]).provider@ == provider && caps[j].available
                && can_run_on(caps[j], n) ==> (caps[j].is_simulator ==> caps[i].is_simulator) && (
                caps[j].is_simulator == caps[i].is_simulator ==> caps[i].num_qubits <= caps[j].num_qubits),
        forall|j: int|
            0 <= j < i && (#[trigger] caps[j]).provider@ == provider && caps[j].available && can_run_on(caps[j], n)
                && caps[j].is_simulator == caps[i].is_simulator ==> caps[i].num_qubits < caps[j].num_qubits,
{
    assert forall|j: int|
        0 <= j < caps.len() && (#[trigger] caps[j]).provider@ == provider && caps[j].available && can_run_on(
            caps[j],
            n,
        ) implies (caps[j].is_simulator ==> caps[i].is_simulator) && (caps[j].is_simulator
        == caps[i].is_simulator ==> caps[i].num_qubits <= caps[j].num_qubits) by {
        assert(eligible_for_provider(caps[j], provider, n));
    }
    assert forall|j: int|
        0 <= j < i && (#[trigger] caps[j]).provider@ == provider && caps[j].available && can_run_on(caps[j], n)
            && caps[j].is_simulator == caps[i].is_simulator implies caps[i].num_qubits < caps[j].num_qubits by {
        assert(eligible_for_provider(caps[j], provider, n));
    }
}

/// Registry of quantum backends, each registered under a distinct name
/// together with its capabilities.
pub struct BackendRegistry<B> {
    names: Vec<String>,
    backends: Vec<B>,
    capabilities: Vec<BackendCapabilities>,
    mode: BackendMode,
}

impl<B> BackendRegistry<B> {
    /// The registered names, in registration order.
    pub closed spec fn name_list(&self) -> Seq<Seq<char>> {
        self.names@.map_values(|s: String| s@)
    }

    /// The registered backends, in registration order.
    pub closed spec fn backend_list(&self) -> Seq<B> {
        self.backends@
    }

    /// The capabilities of the registered backends, in registration order.
    pub closed spec fn capability_list(&self) -> Seq<BackendCapabilities> {
        self.capabilities@
    }

    /// The current execution mode.
    pub closed spec fn current_mode(&self) -> BackendMode {
        self.mode
    }

    /// The backend registered under `name`, if any.
    pub open spec fn backend_named(&self, name: Seq<char>) -> Option<B> {
        if self.name_list().contains(name) {
            Some(self.backend_list()[self.name_list().index_of(name)])
        } else {
            None
        }
    }

    /// The three lists have one entry per backend and the names are distinct.
    pub open spec fn wf(&self) -> bool {
        &&& self.name_list().len() == self.backend_list().len()
        &&& self.capability_list().len() == self.backend_list().len()
        &&& self.name_list().no_duplicates()
    }

    /// An empty registry in simulation-only mode.
    pub fn new() -> (r: Self)
        ensures
            r.wf(),
            r.backend_list().len() == 0,
            r.current_mode() == BackendMode::SimulationOnly,
    {
        Self::with_mode(BackendMode::SimulationOnly)
    }

    /// An empty registry in the given mode.
    pub fn with_mode(mode: BackendMode) -> (r: Self)
        ensures
            r.wf(),
            r.backend_list().len() == 0,
            r.current_mode() == mode,
    {
        let r = Self { names: Vec::new(), backends: Vec::new(), capabilities: Vec::new(), mode };
        assert(r.name_list() =~= Seq::empty());
        r
    }

    fn position_of(&self, name: &String) -> (r: Option<usize>)
        requires
            self.wf(),
        ensures
            r matches Some(i) ==> i < self.backend_list().len() && self.name_list()[i as int] == name@,
            r is None ==> !self.name_list().contains(name@),
    {
        let mut i: usize = 0;
        while i < self.names.len()
            invariant
                self.wf(),
                i <= self.names.len(),
                forall|j: int| 0 <= j < i ==> #[trigger] self.name_list()[j] != name@,
            decreases self.names.len() - i,
        {
            assert(self.name_list()[i as int] == self.names@[i as int]@);
            if self.names[i] == *name {
                return Some(i);
            }
            i += 1;
        }
        None
    }

    /// Registers a backend under `name`; a name may be used once.
    pub fn register(&mut self, name: String, backend: B, capabilities: BackendCapabilities) -> (r: Result<(), RegistryError>)
        requires
            old(self).wf(),
        ensures
            final(self).wf(),
            final(self).current_mode() == old(self).current_mode(),
            old(self).name_list().contains(name@) ==> {
                &&& r matches Err(RegistryError::AlreadyRegistered { name: n }) && n@ == name@
                &&& final(self).name_list() == old(self).name_list()
                &&& final(self).backend_list() == old(self).backend_list()
                &&& final(self).capability_list() == old(self).capability_list()
            },
            !old(self).name_list().contains(name@) ==> {
                &&& r is Ok
                &&& final(self).name_list() == old(self).name_list().push(name@)
                &&& final(self).backend_list() == old(self).backend_list().push(backend)
                &&& final(self).capability_list() == old(self).capability_list().push(capabilities)
            },
    {
        if let Some(_) = self.position_of(&name) {
            return Err(RegistryError::AlreadyRegistered { name });
        }
        let ghost old_names = self.name_list();
        self.names.push(name);
        self.backends.push(backend);
        self.capabilities.push(capabilities);
        assert(self.name_list() =~= old_names.push(name@));
        assert(self.name_list().no_duplicates()) by {
            assert forall|i: int, j: int| 0 <= i < self.name_list().len() && 0 <= j < self.name_list().len() && i != j implies self.name_list()[i] != self.name_list()[j] by {
                if i == old_names.len() {
                    assert(old_names[j] == self.name_list()[j]);
                    if self.name_list()[i] == self.name_list()[j] {
                        assert(old_names.contains(name@));
                    }
                } else if j == old_names.len() {
                    assert(old_names[i] == self.name_list()[i]);
                    if self.name_list()[i] == self.name_list()[j] {
                        assert(old_names.contains(name@));
                    }
                } else {
                    assert(old_names[i] == self.name_list()[i]);
                    assert(old_names[j] == self.name_list()[j]);
                }
            }
        }
        Ok(())
    }

    /// Sets the execution mode.
    pub fn set_mode(&mut self, mode: BackendMode)
        ensures
            final(self).current_mode() == mode,
            final(self).name_list() == old(self).name_list(),
            final(self).backend_list() == old(self).backend_list(),
            final(self).capability_list() == old(self).capability_list(),
    {
        self.mode = mode;
    }

    /// The current execution mode.
    pub fn mode(&self) -> (r: &BackendMode)
        ensures
            *r == self.current_mode(),
    {
        &self.mode
    }

    /// The backend registered under `name`, if any.
    pub fn get(&self, name: &str) -> (r: Option<&B>)
        requires
            self.wf(),
        ensures
            r is None <==> self.backend_named(name@) is None,
            r matches Some(b) ==> self.backend_named(name@) == Some(*b),
    {
        let key = name.to_owned();
        match self.position_of(&key) {
            Some(i) => {
                proof {
                    lemma_index_of_unique(self.name_list(), i as int);
                }
                Some(&self.backends[i])
            },
            None => None,
        }
    }

    /// The capabilities of all registered backends, in registration order.
    pub fn list_backends(&self) -> (r: Vec<BackendCapabilities>)
        requires
            self.wf(),
        ensures
            r.len() == self.capability_list().len(),
            forall|i: int| 0 <= i < r.len() ==> same_capabilities(#[trigger] r@[i], self.capability_list()[i]),
    {
        let mut r: Vec<BackendCapabilities> = Vec::new();
        let mut i: usize = 0;
        while i < self.capabilities.len()
            invariant
                i <= self.capabilities.len(),
                r.len() == i,
                forall|j: int| 0 <= j < i ==> same_capabilities(#[trigger] r@[j], self.capabilities@[j]),
            decreases self.capabilities.len() - i,
        {
            r.push(self.capabilities[i].duplicate());
            i += 1;
        }
        r
    }

    /// The first backend whose capabilities pass the simulator (or QPU)
    /// test with the fewest qubits.
    fn find_smallest(&self, num_qubits: usize, want_simulator: bool) -> (r: Option<usize>)
        requires
            self.wf(),
        ensures
            r matches Some(i) ==> is_smallest_fit(
                self.capability_list(),
                if want_simulator { simulator_test(num_qubits) } else { qpu_test(num_qubits) },
                i as int,
            ),
            r is None ==> forall|j: int| 0 <= j < self.capability_list().len() ==> !(if want_simulator { eligible_simulator(#[trigger] self.capability_list()[j], num_qubits) } else { eligible_qpu(self.capability_list()[j], num_qubits) }),
    {
        let ghost eligible = if want_simulator { simulator_test(num_qubits) } else { qpu_test(num_qubits) };
        let mut best: Option<usize> = None;
        let mut i: usize = 0;
        while i < self.capabilities.len()
            invariant
                self.wf(),
                i <= self.capabilities.len(),
                eligible == (if want_simulator { simulator_test(num_qubits) } else { qpu_test(num_qubits) }),
                best is None ==> forall|j: int| 0 <= j < i ==> !eligible(#[trigger] self.capabilities@[j]),
                best matches Some(b) ==> {
                    &&& b < i
                    &&& eligible(self.capabilities@[b as int])
                    &&& forall|j: int| 0 <= j < i && eligible(#[trigger] self.capabilities@[j]) ==> self.capabilities@[b as int].num_qubits <= self.capabilities@[j].num_qubits
                    &&& forall|j: int| 0 <= j < b && eligible(#[trigger] self.capabilities@[j]) ==> self.capabilities@[b as int].num_qubits < self.capabilities@[j].num_qubits
                },
            decreases self.capabilities.len() - i,
        {
            let caps = &self.capabilities[i];
            let ok = caps.is_simulator == want_simulator && caps.available && caps.can_run(num_qubits);
            assert(ok == eligible(self.capabilities@[i as int]));
            if ok {
                match best {
                    None => {
                        best = Some(i);
                    },
                    Some(b) => {
                        if caps.num_qubits < self.capabilities[b].num_qubits {
                            best = Some(i);
                        }
                    },
                }
            }
            i += 1;
        }
        best
    }

    /// The first backend of `provider` that ranks best: simulators before
    /// QPUs, then fewer qubits.
    fn find_best_for_provider(&self, provider: &String, num_qubits: usize) -> (r: Option<usize>)
        requires
            self.wf(),
        ensures
            r matches Some(i) ==> is_best_for_provider(self.capability_list(), provider@, num_qubits, i as int),
            r is None ==> forall|j: int| 0 <= j < self.capability_list().len() ==> !eligible_for_provider(#[trigger] self.capability_list()[j], provider@, num_qubits),
    {
        let mut best: Option<usize> = None;
        let mut i: usize = 0;
        while i < self.capabilities.len()
            invariant
                self.wf(),
                i <= self.capabilities.len(),
                best is None ==> forall|j: int| 0 <= j < i ==> !eligible_for_provider(#[trigger] self.capabilities@[j], provider@, num_qubits),
                best matches Some(b) ==> {
                    &&& b < i
                    &&& eligible_for_provider(self.capabilities@[b as int], provider@, num_qubits)
                    &&& forall|j: int| 0 <= j < i && eligible_for_provider(#[trigger] self.capabilities@[j], provider@, num_qubits) ==> !ranks_before(provider_rank(self.capabilities@[j]), provider_rank(self.capabilities@[b as int]))
                    &&& forall|j: int| 0 <= j < b && eligible_for_provider(#[trigger] self.capabilities@[j], provider@, num_qubits) ==> ranks_before(provider_rank(self.capabilities@[b as int]), provider_rank(self.capabilities@[j]))
                },
            decreases self.capabilities.len() - i,
        {
            let caps = &self.capabilities[i];
            let ok = caps.provider == *provider && caps.available && caps.can_run(num_qubits);
            if ok {
                match best {
                    None => {
                        best = Some(i);
                    },
                    Some(b) => {
                        let other = &self.capabilities[b];
                        let rank_i: u8 = if caps.is_simulator { 0 } else { 1 };
                        let rank_b: u8 = if other.is_simulator { 0 } else { 1 };
                        if rank_i < rank_b || (rank_i == rank_b && caps.num_qubits < other.num_qubits) {
                            best = Some(i);
                        }
                    },
                }
            }
            i += 1;
        }
        best
    }

    /// Selects a backend for `circuit`: in simulation-only mode the smallest
    /// fitting simulator; in QPU-enabled mode that, or else the smallest
    /// fitting available QPU; with a forced provider, that provider's best
    /// backend (simulators first, then fewer qubits).
    pub fn select_backend_for(&self, circuit: &MetatronCircuit) -> (r: Result<&B, RegistryError>)
        requires
            self.wf(),
        ensures
            ({
                let caps = self.capability_list();
                let n = circuit.num_qubits;
                let sim = simulator_test(n);
                let qpu = qpu_test(n);
                let has_sim = exists|j: int| 0 <= j < caps.len() && eligible_simulator(#[trigger] caps[j], n);
                let has_qpu = exists|j: int| 0 <= j < caps.len() && eligible_qpu(#[trigger] caps[j], n);
                match self.current_mode() {
                    BackendMode::SimulationOnly => match r {
                        Ok(b) => exists|i: int| is_smallest_fit(caps, sim, i) && self.backend_list()[i] == *b,
                        Err(e) => !has_sim && e == RegistryError::NoSimulator { num_qubits: n },
                    },
                    BackendMode::QpuEnabledAuto => match r {
                        Ok(b) => if has_sim {
                            exists|i: int| is_smallest_fit(caps, sim, i) && self.backend_list()[i] == *b
                        } else {
                            exists|i: int| is_smallest_fit(caps, qpu, i) && self.backend_list()[i] == *b
                        },
                        Err(e) => !has_sim && !has_qpu && e == RegistryError::NoQpu { num_qubits: n },
                    },
                    BackendMode::ForceProvider(p) => match r {
                        Ok(b) => exists|i: int| is_best_for_provider(caps, p@, n, i) && self.backend_list()[i] == *b,
                        Err(e) => (forall|j: int| 0 <= j < caps.len() ==> !eligible_for_provider(#[trigger] caps[j], p@, n))
                            && (e matches RegistryError::NoProviderBackend { provider, num_qubits } && provider@ == p@ && num_qubits == n),
                    },
                }
            }),
    {
        let num_qubits = circuit.num_qubits;
        match &self.mode {
            BackendMode::SimulationOnly => {
                match self.find_smallest(num_qubits, true) {
                    Some(i) => Ok(&self.backends[i]),
                    None => Err(RegistryError::NoSimulator { num_qubits }),
                }
            },
            BackendMode::QpuEnabledAuto => {
                match self.find_smallest(num_qubits, true) {
                    Some(i) => Ok(&self.backends[i]),
                    None => match self.find_smallest(num_qubits, false) {
                        Some(i) => Ok(&self.backends[i]),
                        None => Err(RegistryError::NoQpu { num_qubits }),
                    },
                }
            },
            BackendMode::ForceProvider(provider) => {
                match self.find_best_for_provider(provider, num_qubits) {
                    Some(i) => Ok(&self.backends[i]),
                    None => Err(RegistryError::NoProviderBackend { provider: provider.clone(), num_qubits }),
                }
            },
        }
    }
}

/// In a list without duplicates, the position of an entry is its index.
proof fn lemma_index_of_unique(names: Seq<Seq<char>>, i: int)
    requires
        names.no_duplicates(),
        0 <= i < names.len(),
    ensures
        names.index_of(names[i]) == i,
{
    assert(names.contains(names[i]));
}

/// Read after write: once `backend` has been registered under a fresh
/// `name`, looking `name` up gives that backend, and every other name gives
/// what it gave before.
pub proof fn lemma_register_then_get<B>(
    before: BackendRegistry<B>,
    after: BackendRegistry<B>,
    name: Seq<char>,
    backend: B,
    other: Seq<char>,
)
    requires
        before.wf(),
        after.wf(),
        !before.name_list().contains(name),
        after.name_list() == before.name_list().push(name),
        after.backend_list() == before.backend_list().push(backend),
    ensures
        after.backend_named(name) == Some(backend),
        other != name ==> after.backend_named(other) == before.backend_named(other),
{
    let n = before.name_list().len();
    assert(after.name_list()[n as int] == name);
    lemma_index_of_unique(after.name_list(), n as int);
    if other != name {
        if before.name_list().contains(other) {
            let i = before.name_list().index_of(other);
            lemma_index_of_unique(before.name_list(), i);
            assert(after.name_list()[i] == other);
            lemma_index_of_unique(after.name_list(), i);
        }
        if after.name_list().contains(other) {
            let j = choose|j: int| 0 <= j < after.name_list().len() && after.name_list()[j] == other;
            assert(j != n);
            assert(before.name_list()[j] == other);
        }
    }
}

impl<B> Default for BackendRegistry<B> {
    fn default() -> (r: Self)
        ensures
            r.wf(),
            r.backend_list().len() == 0,
            r.current_mode() == BackendMode::SimulationOnly,
    {
        Self::new()
    }
}

} // verus!
