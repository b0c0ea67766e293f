//! Quantum backends: their capabilities, the IBM Quantum adapter (its
//! configuration, validation and the dry-run stub) and the local simulator.

use vstd::prelude::*;
use vstd::string::{StrSliceExecFns, StringExecFns};

use crate::circuit::{
    count_lookup, count_total, increment_count, insert_count, outcomes_distinct, MeasurementResult,
    MetatronCircuit,
};
use crate::text::{append_decimal, binary, binary_padded, decimal, zero_padded};

verus! {

/// Additional backend metadata: nothing, or the mode and shot limit of an
/// IBM backend.
#[derive(Debug, Clone, Copy)]
pub enum CapabilityMetadata {
    Empty,
    Ibm { mode: IbmMode, max_shots: u32 },
}

/// Capabilities and metadata of a quantum backend.
#[derive(Debug, Clone)]
pub struct BackendCapabilities {
    /// Provider name (e.g. "local", "ibm").
    pub provider: String,
    /// Backend name (e.g. "local_sim", "ibm_osaka").
    pub name: String,
    /// Number of qubits available.
    pub num_qubits: u32,
    /// Whether this is a simulator (true) or real QPU (false).
    pub is_simulator: bool,
    /// Maximum number of shots per job.
    pub max_shots: Option<u32>,
    /// Whether the backend is currently available.
    pub available: bool,
    /// Additional metadata.
    pub metadata: CapabilityMetadata,
}

/// A backend with capabilities `caps` can run a circuit on `num_qubits`
/// qubits: it is available and the qubit count, taken as a `u32`, fits.
pub open spec fn can_run_on(caps: BackendCapabilities, num_qubits: usize) -> bool {
    caps.available && (num_qubits as u32) <= caps.num_qubits
}

/// The one-line description `{name} ({provider}) - {n} qubits, {kind}`.
pub open spec fn description_text(caps: BackendCapabilities) -> Seq<char> {
    caps.name@ + " ("@ + caps.provider@ + ") - "@ + decimal(caps.num_qubits as nat) + " qubits, "@
        + if caps.is_simulator { "simulator"@ } else { "QPU"@ }
}

/// `a` and `b` hold the same capabilities.
pub open spec fn same_capabilities(a: BackendCapabilities, b: BackendCapabilities) -> bool {
    &&& a.provider@ == b.provider@
    &&& a.name@ == b.name@
    &&& a.num_qubits == b.num_qubits
    &&& a.is_simulator == b.is_simulator
    &&& a.max_shots == b.max_shots
    &&& a.available == b.available
    &&& a.metadata == b.metadata
}

impl BackendCapabilities {
    /// Capabilities of a simulator: available, up to a million shots.
    pub fn simulator(provider: &str, name: &str, num_qubits: u32) -> (r: Self)
        ensures
            r.provider@ == provider@,
            r.name@ == name@,
            r.num_qubits == num_qubits,
            r.is_simulator,
            r.max_shots == Some(1_000_000u32),
            r.available,
            r.metadata == CapabilityMetadata::Empty,
    {
        Self {
            provider: provider.to_owned(),
            name: name.to_owned(),
            num_qubits,
            is_simulator: true,
            max_shots: Some(1_000_000),
            available: true,
            metadata: CapabilityMetadata::Empty,
        }
    }

    /// Capabilities of a QPU: not available until explicitly enabled, up to
    /// a hundred thousand shots.
    pub fn qpu(provider: &str, name: &str, num_qubits: u32) -> (r: Self)
        ensures
            r.provider@ == provider@,
            r.name@ == name@,
            r.num_qubits == num_qubits,
            !r.is_simulator,
            r.max_shots == Some(100_000u32),
            !r.available,
            r.metadata == CapabilityMetadata::Empty,
    {
        Self {
            provider: provider.to_owned(),
            name: name.to_owned(),
            num_qubits,
            is_simulator: false,
            max_shots: Some(100_000),
            available: false,
            metadata: CapabilityMetadata::Empty,
        }
    }

    /// A field-by-field copy.
    pub fn duplicate(&self) -> (r: Self)
        ensures
            same_capabilities(r, *self),
    {
        Self {
            provider: self.provider.clone(),
            name: self.name.clone(),
            num_qubits: self.num_qubits,
            is_simulator: self.is_simulator,
            max_shots: self.max_shots,
            available: self.available,
            metadata: self.metadata,
        }
    }

    /// Whether a backend with these capabilities can run a circuit on
    /// `num_qubits` qubits.
    pub fn can_run(&self, num_qubits: usize) -> (r: bool)
        ensures
            r == can_run_on(*self, num_qubits),
    {
        self.available && (num_qubits as u32) <= self.num_qubits
    }

    /// A human-readable description of the backend.
    pub fn description(&self) -> (r: String)
        ensures
            r@ == description_text(*self),
    {
        proof {
            reveal_strlit(" (");
            reveal_strlit(") - ");
            reveal_strlit(" qubits, ");
            reveal_strlit("simulator");
            reveal_strlit("QPU");
        }
        let mut r = self.name.clone();
        r.append(" (");
        r.append(self.provider.as_str());
        r.append(") - ");
        append_decimal(&mut r, self.num_qubits as usize);
        r.append(" qubits, ");
        if self.is_simulator {
            r.append("simulator");
        } else {
            r.append("QPU");
        }
        assert(r@ =~= description_text(*self));
        r
    }
}

/// IBM Quantum backend execution mode.
#[derive(Debug, Clone, Copy, PartialEq, Eq, Structural)]
pub enum IbmMode {
    /// No execution possible (the safe default).
    Disabled,
    /// Circuits are validated but not sent; stubbed results are returned.
    DryRun,
    /// Circuits run on IBM hardware.
    Enabled,
}

impl Default for IbmMode {
    fn default() -> (r: Self)
        ensures
            r == IbmMode::Disabled,
    {
        IbmMode::Disabled
    }
}

/// Configuration of the IBM Quantum backend.
#[derive(Debug, Clone)]
pub struct IbmConfig {
    /// IBM Quantum API token.
    pub token: Option<String>,
    /// Backend name (e.g. "ibm_kyoto").
    pub backend_name: String,
    /// Execution mode.
    pub mode: IbmMode,
    /// Maximum number of shots per job.
    pub max_shots: u32,
}

/// The default backend name.
pub fn default_backend_name() -> (r: String)
    ensures
        r@ == "ibm_kyoto"@,
{
    "ibm_kyoto".to_owned()
}

/// The default shot limit.
pub fn default_max_shots() -> (r: u32)
    ensures
        r == 8192,
{
    8192
}

impl Default for IbmConfig {
    fn default() -> (r: Self)
        ensures
            r.token is None,
            r.backend_name@ == "ibm_kyoto"@,
            r.mode == IbmMode::Disabled,
            r.max_shots == 8192,
    {
        Self {
            token: None,
            backend_name: default_backend_name(),
            mode: IbmMode::Disabled,
            max_shots: default_max_shots(),
        }
    }
}

/// Errors of the IBM Quantum backend.
#[derive(Debug, Clone)]
pub enum IbmError {
    /// Dry-run mode without a backend name.
    BackendNameRequiredForDryRun,
    /// Enabled mode without a token.
    TokenRequiredForEnabled,
    /// Enabled mode without a backend name.
    BackendNameRequiredForEnabled,
    /// Enabled mode loaded from the environment without a token.
    TokenRequiredFromEnvironment,
    /// More shots requested than the backend accepts.
    ShotsExceedMaximum { requested: u32, maximum: u32, backend_name: String },
    /// The backend is disabled.
    Disabled { backend_name: String },
    /// Execution on IBM hardware is not available in this build.
    RealExecutionUnavailable,
}

/// The text of an IBM backend error.
pub open spec fn ibm_error_text(e: IbmError) -> Seq<char> {
    match e {
        IbmError::BackendNameRequiredForDryRun => "backend_name must be set for dry-run mode"@,
        IbmError::TokenRequiredForEnabled => "token is required for enabled mode"@,
        IbmError::BackendNameRequiredForEnabled => "backend_name must be set for enabled mode"@,
        IbmError::TokenRequiredFromEnvironment => "IBM_QUANTUM_TOKEN is required when mode is 'enabled'"@,
        IbmError::ShotsExceedMaximum { requested, maximum, backend_name } => "Requested "@ + decimal(
            requested as nat,
        ) + " shots exceeds maximum "@ + decimal(maximum as nat) + " for backend '"@ + backend_name@
            + "'"@,
        IbmError::Disabled { backend_name } => "IBM backend '"@ + backend_name@
            + "' is disabled. Set IBM_BACKEND_MODE=dry-run or enabled"@,
        IbmError::RealExecutionUnavailable => "Real IBM execution not yet implemented - use Python sidecar or REST API"@,
    }
}

impl IbmError {
    /// The human-readable description of the error.
    pub fn message(&self) -> (r: String)
        ensures
            r@ == ibm_error_text(*self),
    {
        proof {
            reveal_strlit("backend_name must be set for dry-run mode");
            reveal_strlit("token is required for enabled mode");
            reveal_strlit("backend_name must be set for enabled mode");
            reveal_strlit("IBM_QUANTUM_TOKEN is required when mode is 'enabled'");
            reveal_strlit("Requested ");
            reveal_strlit(" shots exceeds maximum ");
            reveal_strlit(" for backend '");
            reveal_strlit("'");
            reveal_strlit("IBM backend '");
            reveal_strlit("' is disabled. Set IBM_BACKEND_MODE=dry-run or enabled");
            reveal_strlit("Real IBM execution not yet implemented - use Python sidecar or REST API");
        }
        match self {
            IbmError::BackendNameRequiredForDryRun => "backend_name must be set for dry-run mode".to_owned(),
            IbmError::TokenRequiredForEnabled => "token is required for enabled mode".to_owned(),
            IbmError::BackendNameRequiredForEnabled => "backend_name must be set for enabled mode".to_owned(),
            IbmError::TokenRequiredFromEnvironment => "IBM_QUANTUM_TOKEN is required when mode is 'enabled'".to_owned(),
            IbmError::ShotsExceedMaximum { requested, maximum, backend_name } => {
                let mut r = String::new();
                r.append("Requested ");
                append_decimal(&mut r, *requested as usize);
                r.append(" shots exceeds maximum ");
                append_decimal(&mut r, *maximum as usize);
                r.append(" for backend '");
                r.append(backend_name.as_str());
                r.append("'");
                assert(r@ =~= ibm_error_text(*self));
                r
            },
            IbmError::Disabled { backend_name } => {
                let mut r = String::new();
                r.append("IBM backend '");
                r.append(backend_name.as_str());
                r.append("' is disabled. Set IBM_BACKEND_MODE=dry-run or enabled");
                assert(r@ =~= ibm_error_text(*self));
                r
            },
            IbmError::RealExecutionUnavailable => "Real IBM execution not yet implemented - use Python sidecar or REST API".to_owned(),
        }
    }
}

/// The outcome of validating a configuration: dry-run mode needs a backend
/// name, enabled mode a token and then a backend name.
pub open spec fn validation_result(config: IbmConfig) -> Result<(), IbmError> {
    match config.mode {
        IbmMode::Disabled => Ok(()),
        IbmMode::DryRun => if config.backend_name@.len() == 0 {
            Err(IbmError::BackendNameRequiredForDryRun)
        } else {
            Ok(())
        },
        IbmMode::Enabled => if config.token is None {
            Err(IbmError::TokenRequiredForEnabled)
        } else if config.backend_name@.len() == 0 {
            Err(IbmError::BackendNameRequiredForEnabled)
        } else {
            Ok(())
        },
    }
}

impl IbmConfig {
    /// Validates the configuration.
    pub fn validate(&self) -> (r: Result<(), IbmError>)
        ensures
            r == validation_result(*self),
    {
        match self.mode {
            IbmMode::Disabled => Ok(()),
            IbmMode::DryRun => {
                if self.backend_name.as_str().is_empty() {
                    return Err(IbmError::BackendNameRequiredForDryRun);
                }
                Ok(())
            },
            IbmMode::Enabled => {
                if self.token.is_none() {
                    return Err(IbmError::TokenRequiredForEnabled);
                }
                if self.backend_name.as_str().is_empty() {
                    return Err(IbmError::BackendNameRequiredForEnabled);
                }
                Ok(())
            },
        }
    }

    /// Accepts a configuration whose fields the caller has read from the
    /// `IBM_*` environment variables: enabled mode must come with a token.
    pub fn from_env(config: IbmConfig) -> (r: Result<IbmConfig, IbmError>)
        ensures
            config.mode == IbmMode::Enabled && config.token is None ==> r matches Err(
                IbmError::TokenRequiredFromEnvironment,
            ),
            !(config.mode == IbmMode::Enabled && config.token is None) ==> r == Ok::<IbmConfig, IbmError>(config),
    {
        if config.mode == IbmMode::Enabled && config.token.is_none() {
            return Err(IbmError::TokenRequiredFromEnvironment);
        }
        Ok(config)
    }
}

/// `s` begins with `prefix`.
pub open spec fn has_prefix(s: Seq<char>, prefix: Seq<char>) -> bool {
    prefix.len() <= s.len() && s.take(prefix.len() as int) == prefix
}

/// The part of an `IBM_` environment variable name (after `IBM_`) that
/// names a configuration field, before lowercasing: `QUANTUM_TOKEN` names
/// `TOKEN` (a leading `QUANTUM_` is dropped), `BACKEND_MODE` names `MODE`,
/// and every other name (`BACKEND_NAME`, `MAX_SHOTS`, ...) names itself.
pub open spec fn ibm_env_stem(key: Seq<char>) -> Seq<char> {
    if has_prefix(key, "QUANTUM_"@) {
        key.skip(8)
    } else if key == "BACKEND_MODE"@ {
        "MODE"@
    } else {
        key
    }
}

/// What `str::to_lowercase` returns for the characters `s`.
pub uninterp spec fn lowercase_text(s: Seq<char>) -> Seq<char>;

/// `s` holds ASCII characters only.
pub open spec fn is_ascii_text(s: Seq<char>) -> bool {
    forall|i: int| 0 <= i < s.len() ==> (#[trigger] s[i] as u32) < 128
}

/// `s` with the ASCII capitals `A`..`Z` replaced by `a`..`z`.
pub open spec fn ascii_lowercase(s: Seq<char>) -> Seq<char> {
    s.map_values(|c: char| if 'A' <= c && c <= 'Z' { ((c as u32) + 32) as char } else { c })
}

/// Calls `str::to_lowercase`. Its result is named `lowercase_text`; as std
/// documents, on ASCII text it maps exactly `A`..`Z` to `a`..`z` and keeps
/// every other character. Nothing is claimed of other text.
#[verifier::external_body]
fn to_lowercase(s: &str) -> (r: String)
    ensures
        r@ == lowercase_text(s@),
        is_ascii_text(s@) ==> r@ == ascii_lowercase(s@),
{
    s.to_lowercase()
}

/// Whether `s` begins with `prefix`.
fn starts_with_text(s: &str, prefix: &str) -> (r: bool)
    ensures
        r == has_prefix(s@, prefix@),
{
    let n = prefix.unicode_len();
    if n > s.unicode_len() {
        return false;
    }
    let mut i: usize = 0;
    while i < n
        invariant
            n == prefix@.len(),
            n <= s@.len(),
            i <= n,
            forall|j: int| 0 <= j < i ==> s@[j] == prefix@[j],
        decreases n - i,
    {
        if s.get_char(i) != prefix.get_char(i) {
            assert(s@.take(n as int)[i as int] != prefix@[i as int]);
            return false;
        }
        i += 1;
    }
    assert(s@.take(n as int) =~= prefix@);
    true
}

/// The configuration field named by an `IBM_` environment variable, given
/// the part of its name after `IBM_`: `QUANTUM_TOKEN` names `token`,
/// `BACKEND_NAME` names `backend_name`, `BACKEND_MODE` names `mode` and
/// `MAX_SHOTS` names `max_shots`; the stem is lowercased.
pub fn ibm_env_field(key: &str) -> (r: String)
    ensures
        r@ == lowercase_text(ibm_env_stem(key@)),
        is_ascii_text(ibm_env_stem(key@)) ==> r@ == ascii_lowercase(ibm_env_stem(key@)),
{
    proof {
        reveal_strlit("QUANTUM_");
        reveal_strlit("BACKEND_MODE");
        reveal_strlit("MODE");
    }
    let len = key.unicode_len();
    let stem = if starts_with_text(key, "QUANTUM_") {
        key.substring_char(8, len)
    } else if len == 12 && starts_with_text(key, "BACKEND_MODE") {
        assert(key@ =~= "BACKEND_MODE"@);
        "MODE"
    } else {
        proof {
            if key@ == "BACKEND_MODE"@ {
                assert(key@.take(12) =~= key@);
            }
        }
        key
    };
    assert(stem@ =~= ibm_env_stem(key@));
    to_lowercase(stem)
}

/// `2^e`.
pub open spec fn two_pow(e: nat) -> nat
    decreases e,
{
    if e == 0 {
        1
    } else {
        2 * two_pow((e - 1) as nat)
    }
}

/// The number of outcomes the dry-run stub reports for a circuit on
/// `num_qubits` qubits: `min(2^min(num_qubits, 10), 100)`.
pub open spec fn dry_run_outcome_count(num_qubits: nat) -> nat {
    let all = two_pow(if num_qubits < 10 { num_qubits } else { 10 });
    if all < 100 { all } else { 100 }
}

/// The bitstring of outcome `i` of a circuit on `num_qubits` qubits.
pub open spec fn outcome_key(i: nat, num_qubits: nat) -> Seq<char> {
    zero_padded(binary(i), num_qubits)
}

/// The dry-run key of outcome `i` is its binary rendering left-padded with
/// zeros to `num_qubits` characters: it ends with the binary digits of `i`,
/// every character before them is '0', and its length is `num_qubits`
/// whenever the rendering is not longer, in particular for every outcome
/// below `2^num_qubits` on at least one qubit.
pub proof fn lemma_outcome_key(i: nat, num_qubits: nat)
    ensures
        ({
            let key = outcome_key(i, num_qubits);
            let b = binary(i);
            &&& key.len() == if b.len() <= num_qubits { num_qubits } else { b.len() }
            &&& key.subrange(key.len() - b.len(), key.len() as int) == b
            &&& forall|k: int| 0 <= k < key.len() - b.len() ==> #[trigger] key[k] == '0'
            &&& num_qubits >= 1 && i < two_pow(num_qubits) ==> key.len() == num_qubits
        }),
{
    let key = outcome_key(i, num_qubits);
    let b = binary(i);
    assert(key.subrange(key.len() - b.len(), key.len() as int) =~= b);
    if num_qubits >= 1 && i < two_pow(num_qubits) {
        lemma_binary_len_below(i, num_qubits);
    }
}

/// The dry run reports `2^num_qubits` outcomes for up to six qubits and 100
/// from seven qubits on.
pub proof fn lemma_dry_run_outcome_count(num_qubits: nat)
    ensures
        num_qubits <= 6 ==> dry_run_outcome_count(num_qubits) == two_pow(num_qubits),
        num_qubits >= 7 ==> dry_run_outcome_count(num_qubits) == 100,
{
    reveal_with_fuel(two_pow, 11);
    if num_qubits <= 6 {
        assert(two_pow(num_qubits) <= 64);
    }
}

/// `key` is the bitstring of one of the first `m` outcomes.
pub open spec fn is_outcome_key_below(key: Seq<char>, m: nat, num_qubits: nat) -> bool {
    exists|j: nat| j < m && key == #[trigger] outcome_key(j, num_qubits)
}

/// The dry-run counts: each of the first `m` outcomes (as zero-padded
/// bitstrings) gets `shots / m`, and nothing else is recorded.
pub open spec fn is_dry_run_counts(counts: Seq<(String, u64)>, num_qubits: nat, shots: u32) -> bool {
    let m = dry_run_outcome_count(num_qubits);
    &&& outcomes_distinct(counts)
    &&& forall|i: nat| i < m ==> #[trigger] count_lookup(counts, outcome_key(i, num_qubits)) == Some((shots as nat / m) as u64)
    &&& forall|k: int| 0 <= k < counts.len() ==> #[trigger] counts[k].1 == (shots as nat / m) as u64
    &&& forall|k: int| 0 <= k < counts.len() ==> is_outcome_key_below(#[trigger] counts[k].0@, m, num_qubits)
}

/// The IBM Quantum backend adapter.
pub struct IbmQuantumBackend {
    config: IbmConfig,
}

/// The outcome of running `shots` shots of a circuit on `num_qubits` qubits
/// under `config`: too many shots and the disabled and enabled modes are
/// errors, dry-run mode gives the stubbed result.
pub open spec fn run_accepted(config: IbmConfig, shots: u32) -> bool {
    shots <= config.max_shots && config.mode == IbmMode::DryRun
}

/// Safety of the modes: outside dry-run mode no run is ever accepted, so
/// the default (disabled) mode and enabled mode execute nothing.
pub proof fn lemma_only_dry_run_executes(config: IbmConfig, shots: u32)
    requires
        config.mode != IbmMode::DryRun,
    ensures
        !run_accepted(config, shots),
{
}

impl IbmQuantumBackend {
    /// The configuration the backend was made with.
    pub closed spec fn configuration(&self) -> IbmConfig {
        self.config
    }

    /// A backend with the given configuration, if it validates.
    pub fn new(config: IbmConfig) -> (r: Result<Self, IbmError>)
        ensures
            validation_result(config) is Ok ==> (r matches Ok(b) && b.configuration() == config),
            validation_result(config) matches Err(e) ==> (r matches Err(e2) && e2 == e),
    {
        match config.validate() {
            Ok(()) => Ok(Self { config }),
            Err(e) => Err(e),
        }
    }

    /// A backend from a configuration the caller has read from the `IBM_*`
    /// environment variables: enabled mode must come with a token, and the
    /// configuration must validate.
    pub fn from_env(config: IbmConfig) -> (r: Result<Self, IbmError>)
        ensures
            config.mode == IbmMode::Enabled && config.token is None ==> r matches Err(
                IbmError::TokenRequiredFromEnvironment,
            ),
            !(config.mode == IbmMode::Enabled && config.token is None) ==> {
                &&& validation_result(config) is Ok ==> (r matches Ok(b) && b.configuration() == config)
                &&& validation_result(config) matches Err(e) ==> (r matches Err(e2) && e2 == e)
            },
    {
        match IbmConfig::from_env(config) {
            Ok(c) => Self::new(c),
            Err(e) => Err(e),
        }
    }

    /// The current execution mode.
    pub fn mode(&self) -> (r: &IbmMode)
        ensures
            *r == self.configuration().mode,
    {
        &self.config.mode
    }

    /// Capabilities: an IBM QPU of 127 qubits, available in dry-run mode and
    /// in enabled mode with a token.
    pub fn info(&self) -> (r: BackendCapabilities)
        ensures
            r.provider@ == "ibm"@,
            r.name@ == self.configuration().backend_name@,
            r.num_qubits == 127,
            !r.is_simulator,
            r.max_shots == Some(self.configuration().max_shots),
            r.available == match self.configuration().mode {
                IbmMode::Disabled => false,
                IbmMode::DryRun => true,
                IbmMode::Enabled => self.configuration().token is Some,
            },
            r.metadata == (CapabilityMetadata::Ibm {
                mode: self.configuration().mode,
                max_shots: self.configuration().max_shots,
            }),
    {
        let available = match self.config.mode {
            IbmMode::Disabled => false,
            IbmMode::DryRun => true,
            IbmMode::Enabled => self.config.token.is_some(),
        };
        BackendCapabilities {
            provider: "ibm".to_owned(),
            name: self.config.backend_name.clone(),
            num_qubits: 127,
            is_simulator: false,
            max_shots: Some(self.config.max_shots),
            available,
            metadata: CapabilityMetadata::Ibm { mode: self.config.mode, max_shots: self.config.max_shots },
        }
    }

    /// The stubbed result of dry-run mode: the shots spread evenly over the
    /// first outcomes.
    fn execute_dry_run(&self, circuit: &MetatronCircuit, shots: u32) -> (r: MeasurementResult)
        ensures
            is_dry_run_counts(r.counts@, circuit.num_qubits as nat, shots),
            r.shots == shots,
            r.execution_time_ms == Some(0u64),
            r.backend_name@ == self.configuration().backend_name@ + "_dry_run"@,
    {
        let exponent = if circuit.num_qubits < 10 { circuit.num_qubits } else { 10 };
        let mut all_outcomes: usize = 1;
        let mut e: usize = 0;
        while e < exponent
            invariant
                exponent <= 10,
                e <= exponent,
                all_outcomes == two_pow(e as nat),
                all_outcomes <= 1024,
            decreases exponent - e,
        {
            proof {
                lemma_two_pow_bound(e as nat);
            }
            all_outcomes = all_outcomes * 2;
            e += 1;
        }
        let outcomes = if all_outcomes < 100 { all_outcomes } else { 100 };
        proof {
            lemma_two_pow_positive(exponent as nat);
        }
        let per_outcome = (shots / (outcomes as u32)) as u64;
        let ghost m = dry_run_outcome_count(circuit.num_qubits as nat);
        assert(outcomes == m);
        let mut counts: Vec<(String, u64)> = Vec::new();
        let mut i: usize = 0;
        while i < outcomes
            invariant
                outcomes == m,
                m >= 1,
                i <= outcomes,
                per_outcome == (shots as nat / m) as u64,
                outcomes_distinct(counts@),
                forall|j: nat| j < i ==> #[trigger] count_lookup(counts@, outcome_key(j, circuit.num_qubits as nat)) == Some(per_outcome),
                forall|k: int| 0 <= k < counts@.len() ==> #[trigger] counts@[k].1 == per_outcome,
                forall|k: int| 0 <= k < counts@.len() ==> is_outcome_key_below(#[trigger] counts@[k].0@, i as nat, circuit.num_qubits as nat),
            decreases outcomes - i,
        {
            let bitstring = binary_padded(i, circuit.num_qubits);
            let ghost before = counts@;
            insert_count(&mut counts, bitstring, per_outcome);
            proof {
                assert forall|j: nat| j < i + 1 implies #[trigger] count_lookup(counts@, outcome_key(j, circuit.num_qubits as nat)) == Some(per_outcome) by {
                    if outcome_key(j, circuit.num_qubits as nat) != outcome_key(i as nat, circuit.num_qubits as nat) {
                        assert(count_lookup(before, outcome_key(j, circuit.num_qubits as nat)) == Some(per_outcome));
                    }
                }
                assert forall|k: int| 0 <= k < counts@.len() implies counts@[k].1 == per_outcome
                    && is_outcome_key_below(#[trigger] counts@[k].0@, (i + 1) as nat, circuit.num_qubits as nat) by {
                    if counts@[k].0@ == outcome_key(i as nat, circuit.num_qubits as nat) {
                        crate::circuit::lemma_lookup_found(counts@, k);
                        assert(counts@[k].0@ == outcome_key(i as nat, circuit.num_qubits as nat));
                    } else {
                        let t = choose|t: int| 0 <= t < before.len() && before[t] == counts@[k];
                        assert(before[t].1 == per_outcome);
                        assert(is_outcome_key_below(before[t].0@, i as nat, circuit.num_qubits as nat));
                        let j = choose|j: nat| j < i && before[t].0@ == outcome_key(j, circuit.num_qubits as nat);
                        assert(counts@[k].0@ == outcome_key(j, circuit.num_qubits as nat));
                    }
                }
            }
            i += 1;
        }
        proof {
            reveal_strlit("_dry_run");
        }
        let mut name = self.config.backend_name.clone();
        name.append("_dry_run");
        let mut result = MeasurementResult::new(counts, shots, name);
        result.execution_time_ms = Some(0);
        result
    }

    /// Runs a circuit: too many shots, or the disabled mode, are refused;
    /// dry-run mode returns the stubbed result; execution on hardware is not
    /// available.
    pub fn run_circuit(&self, circuit: &MetatronCircuit, shots: u32) -> (r: Result<MeasurementResult, IbmError>)
        ensures
            shots > self.configuration().max_shots ==> (r matches Err(IbmError::ShotsExceedMaximum { requested, maximum, backend_name })
                && requested == shots && maximum == self.configuration().max_shots && backend_name@ == self.configuration().backend_name@),
            shots <= self.configuration().max_shots && self.configuration().mode == IbmMode::Disabled ==> (r matches Err(IbmError::Disabled { backend_name })
                && backend_name@ == self.configuration().backend_name@),
            shots <= self.configuration().max_shots && self.configuration().mode == IbmMode::Enabled ==> r matches Err(IbmError::RealExecutionUnavailable),
            r is Ok <==> run_accepted(self.configuration(), shots),
            r matches Ok(res) ==> {
                &&& is_dry_run_counts(res.counts@, circuit.num_qubits as nat, shots)
                &&& res.shots == shots
                &&& res.execution_time_ms == Some(0u64)
                &&& res.backend_name@ == self.configuration().backend_name@ + "_dry_run"@
            },
    {
        if shots > self.config.max_shots {
            return Err(IbmError::ShotsExceedMaximum {
                requested: shots,
                maximum: self.config.max_shots,
                backend_name: self.config.backend_name.clone(),
            });
        }
        match self.config.mode {
            IbmMode::Disabled => Err(IbmError::Disabled { backend_name: self.config.backend_name.clone() }),
            IbmMode::DryRun => Ok(self.execute_dry_run(circuit, shots)),
            IbmMode::Enabled => Err(IbmError::RealExecutionUnavailable),
        }
    }
}

proof fn lemma_two_pow_bound(e: nat)
    requires
        e < 10,
    ensures
        two_pow(e) <= 512,
    decreases e,
{
    reveal_with_fuel(two_pow, 11);
    if e > 0 {
        lemma_two_pow_bound((e - 1) as nat);
    }
}

proof fn lemma_two_pow_positive(e: nat)
    ensures
        two_pow(e) >= 1,
    decreases e,
{
    if e > 0 {
        lemma_two_pow_positive((e - 1) as nat);
    }
}

/// The local state-vector simulator backend.
pub struct LocalSimulatorBackend {
    num_qubits: u32,
    name: String,
}

/// The bitstring under which the local simulator records outcome `i`:
/// binary, zero-padded to at least `max(num_qubits, 4)` characters.
pub open spec fn local_outcome_key(i: nat, num_qubits: nat) -> Seq<char> {
    zero_padded(binary(i), if num_qubits < 4 { 4 } else { num_qubits })
}

proof fn lemma_binary_len_below(n: nat, w: nat)
    requires
        w >= 1,
        n < two_pow(w),
    ensures
        binary(n).len() <= w,
    decreases n,
{
    if n >= 2 {
        assert(w >= 2) by {
            if w == 1 {
                assert(two_pow(0) == 1);
            }
        }
        assert(two_pow(w) == 2 * two_pow((w - 1) as nat));
        lemma_binary_len_below(n / 2, (w - 1) as nat);
    }
}

/// The key of outcome `i` is its binary rendering left-padded with zeros to
/// `w = max(num_qubits, 4)` characters: it ends with the binary digits of
/// `i`, every character before them is '0', and its length is `w` whenever
/// the rendering is not longer, in particular for every outcome below `2^w`.
pub proof fn lemma_local_outcome_key(i: nat, num_qubits: nat)
    ensures
        ({
            let w: nat = if num_qubits < 4 { 4 } else { num_qubits };
            let key = local_outcome_key(i, num_qubits);
            let b = binary(i);
            &&& key.len() == if b.len() <= w { w } else { b.len() }
            &&& key.subrange(key.len() - b.len(), key.len() as int) == b
            &&& forall|k: int| 0 <= k < key.len() - b.len() ==> #[trigger] key[k] == '0'
            &&& i < two_pow(w) ==> key.len() == w
        }),
{
    let w: nat = if num_qubits < 4 { 4 } else { num_qubits };
    let key = local_outcome_key(i, num_qubits);
    let b = binary(i);
    assert(key.subrange(key.len() - b.len(), key.len() as int) =~= b);
    if i < two_pow(w) {
        lemma_binary_len_below(i, w);
    }
}

/// How many of the `outcomes` are recorded under bitstring `key`.
pub open spec fn tally(outcomes: Seq<usize>, num_qubits: nat, key: Seq<char>) -> nat
    decreases outcomes.len(),
{
    if outcomes.len() == 0 {
        0
    } else {
        tally(outcomes.drop_last(), num_qubits, key) + if local_outcome_key(outcomes.last() as nat, num_qubits) == key {
            1nat
        } else {
            0nat
        }
    }
}

proof fn lemma_tally_bound(outcomes: Seq<usize>, num_qubits: nat, key: Seq<char>)
    ensures
        tally(outcomes, num_qubits, key) <= outcomes.len(),
    decreases outcomes.len(),
{
    if outcomes.len() > 0 {
        lemma_tally_bound(outcomes.drop_last(), num_qubits, key);
    }
}

impl LocalSimulatorBackend {
    /// Number of qubits simulated.
    pub closed spec fn qubit_count(&self) -> u32 {
        self.num_qubits
    }

    /// Backend name.
    pub closed spec fn backend_name(&self) -> Seq<char> {
        self.name@
    }

    /// A simulator of the 13-dimensional Metatron space.
    pub fn new() -> (r: Self)
        ensures
            r.qubit_count() == 13,
            r.backend_name() == "local_sim"@,
    {
        Self::with_qubits(13)
    }

    /// A simulator of the given qubit count.
    pub fn with_qubits(num_qubits: u32) -> (r: Self)
        ensures
            r.qubit_count() == num_qubits,
            r.backend_name() == "local_sim"@,
    {
        Self { num_qubits, name: "local_sim".to_owned() }
    }

    /// Capabilities: an available local simulator.
    pub fn info(&self) -> (r: BackendCapabilities)
        ensures
            r.provider@ == "local"@,
            r.name@ == self.backend_name(),
            r.num_qubits == self.qubit_count(),
            r.is_simulator,
            r.max_shots == Some(1_000_000u32),
            r.available,
            r.metadata == CapabilityMetadata::Empty,
    {
        BackendCapabilities::simulator("local", self.name.as_str(), self.num_qubits)
    }

    /// Tallies sampled outcome indices into bitstring counts.
    pub fn tally_outcomes(&self, outcomes: &[usize], num_qubits: usize) -> (counts: Vec<(String, u64)>)
        ensures
            outcomes_distinct(counts@),
            count_total(counts@) == outcomes.len(),
            forall|key: Seq<char>| #[trigger] count_lookup(counts@, key) == if tally(outcomes@, num_qubits as nat, key) > 0 {
                Some(tally(outcomes@, num_qubits as nat, key) as u64)
            } else {
                None
            },
            forall|i: int| 0 <= i < outcomes.len() ==> #[trigger] count_lookup(counts@, local_outcome_key(outcomes@[i] as nat, num_qubits as nat)) is Some,
            forall|k: int| 0 <= k < counts@.len() ==> #[trigger] counts@[k].1 == tally(outcomes@, num_qubits as nat, counts@[k].0@),
    {
        let width = if num_qubits < 4 { 4 } else { num_qubits };
        let mut counts: Vec<(String, u64)> = Vec::new();
        let mut t: usize = 0;
        while t < outcomes.len()
            invariant
                t <= outcomes.len(),
                width == if num_qubits < 4 { 4 } else { num_qubits },
                outcomes_distinct(counts@),
                forall|i: int| 0 <= i < t ==> #[trigger] count_lookup(counts@, local_outcome_key(outcomes@[i] as nat, num_qubits as nat)) is Some,
                forall|key: Seq<char>| #[trigger] count_lookup(counts@, key) == if tally(outcomes@.take(t as int), num_qubits as nat, key) > 0 {
                    Some(tally(outcomes@.take(t as int), num_qubits as nat, key) as u64)
                } else {
                    None
                },
                forall|k: int| 0 <= k < counts@.len() ==> #[trigger] counts@[k].1 <= t,
                count_total(counts@) == t,
            decreases outcomes.len() - t,
        {
            let key = binary_padded(outcomes[t], width);
            let ghost before = counts@;
            let ghost prefix = outcomes@.take(t as int);
            let ghost next = outcomes@.take(t + 1);
            assert(next.drop_last() =~= prefix);
            assert(next.last() == outcomes@[t as int]);
            proof {
                lemma_tally_bound(prefix, num_qubits as nat, key@);
            }
            increment_count(&mut counts, key);
            proof {
                assert forall|k: Seq<char>| #[trigger] count_lookup(counts@, k) == if tally(next, num_qubits as nat, k) > 0 {
                    Some(tally(next, num_qubits as nat, k) as u64)
                } else {
                    None
                } by {
                    if k != key@ {
                        assert(count_lookup(before, k) == count_lookup(counts@, k));
                    }
                }
                assert forall|k: int| 0 <= k < counts@.len() implies #[trigger] counts@[k].1 <= t + 1 by {
                    if counts@[k].0@ == key@ {
                        crate::circuit::lemma_lookup_found(counts@, k);
                    } else {
                        let j = choose|j: int| 0 <= j < before.len() && before[j] == counts@[k];
                        assert(before[j].1 <= t);
                    }
                }
                assert forall|i: int| 0 <= i < t + 1 implies #[trigger] count_lookup(counts@, local_outcome_key(outcomes@[i] as nat, num_qubits as nat)) is Some by {
                    let ki = local_outcome_key(outcomes@[i] as nat, num_qubits as nat);
                    if ki != key@ {
                        assert(count_lookup(before, ki) is Some);
                    }
                }
            }
            t += 1;
        }
        proof {
            assert(outcomes@.take(t as int) =~= outcomes@);
            assert forall|k: int| 0 <= k < counts@.len() implies #[trigger] counts@[k].1 == tally(outcomes@, num_qubits as nat, counts@[k].0@) by {
                crate::circuit::lemma_lookup_found(counts@, k);
                lemma_tally_bound(outcomes@, num_qubits as nat, counts@[k].0@);
            }
        }
        counts
    }

    /// The result of a run of `shots` shots whose sampled outcome indices are
    /// `outcomes`, measured to take `elapsed_ms` milliseconds.
    pub fn measurement_result(
        &self,
        outcomes: &[usize],
        shots: u32,
        num_qubits: usize,
        elapsed_ms: u64,
    ) -> (r: MeasurementResult)
        ensures
            outcomes_distinct(r.counts@),
            count_total(r.counts@) == outcomes.len(),
            forall|key: Seq<char>| #[trigger] count_lookup(r.counts@, key) == if tally(outcomes@, num_qubits as nat, key) > 0 {
                Some(tally(outcomes@, num_qubits as nat, key) as u64)
            } else {
                None
            },
            forall|i: int| 0 <= i < outcomes.len() ==> #[trigger] count_lookup(r.counts@, local_outcome_key(outcomes@[i] as nat, num_qubits as nat)) is Some,
            forall|k: int| 0 <= k < r.counts@.len() ==> #[trigger] r.counts@[k].1 == tally(outcomes@, num_qubits as nat, r.counts@[k].0@),
            r.shots == shots,
            r.execution_time_ms == Some(elapsed_ms),
            r.backend_name@ == self.backend_name(),
    {
        let counts = self.tally_outcomes(outcomes, num_qubits);
        let mut result = MeasurementResult::new(counts, shots, self.name.clone());
        result.execution_time_ms = Some(elapsed_ms);
        result
    }
}

impl Default for LocalSimulatorBackend {
    fn default() -> (r: Self)
        ensures
            r.qubit_count() == 13,
            r.backend_name() == "local_sim"@,
    {
        Self::new()
    }
}

} // verus!
