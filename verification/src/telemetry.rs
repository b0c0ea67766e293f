//! State kept by the telemetry service: its configuration, the status of the
//! backends it reports, and the bounded job list and metric history with
//! their update and query rules. (Timestamps are milliseconds since the Unix
//! epoch; job identifiers are 128-bit values; the real-valued metrics are
//! carried as opaque payloads.)

use vstd::prelude::*;

verus! {

/// Server configuration.
#[derive(Debug, Clone)]
pub struct ServerConfig {
    /// Host to bind to.
    pub host: String,
    /// Port to bind to.
    pub port: u16,
}

/// Application configuration.
#[derive(Debug, Clone)]
pub struct Config {
    /// HTTP server configuration.
    pub server: ServerConfig,
    /// Static files directory.
    pub static_dir: String,
}

impl Default for Config {
    fn default() -> (r: Self)
        ensures
            r.server.host@ == "127.0.0.1"@,
            r.server.port == 8080,
            r.static_dir@ == "metatron_telemetry/static"@,
    {
        Self {
            server: ServerConfig { host: "127.0.0.1".to_owned(), port: 8080 },
            static_dir: "metatron_telemetry/static".to_owned(),
        }
    }
}

/// Query of `GET /jobs`: at most `limit` of the most recent jobs.
#[derive(Debug, Clone)]
pub struct JobsQuery {
    pub limit: Option<usize>,
}

/// Query of `GET /history`: at most `limit` of the most recent points.
#[derive(Debug, Clone)]
pub struct HistoryQuery {
    pub limit: Option<usize>,
}

/// Body of `POST /control/start_calibration`.
#[derive(Debug, Clone)]
pub struct StartCalibrationRequest {
    pub algorithm: Option<String>,
    pub mode: Option<String>,
}

/// Backend health indicators.
#[derive(Debug, Clone)]
pub struct BackendHealth {
    /// Calibrator status.
    pub scs_ready: bool,
    /// Kernel status.
    pub dionice_ready: bool,
    /// Core status.
    pub qdash_ready: bool,
}

/// Quantum backend information.
#[derive(Debug, Clone)]
pub struct BackendInfo {
    /// Backend provider (local, ibm, ...).
    pub provider: String,
    /// Backend name (local_sim, ibm_kyoto, ...).
    pub name: String,
    /// Number of qubits.
    pub num_qubits: u32,
    /// Simulator (true) or QPU (false).
    pub is_simulator: bool,
    /// Backend mode (for QPUs: disabled, dry-run, enabled).
    pub mode: Option<String>,
}

/// Job status.
#[derive(Debug, Clone, Copy, PartialEq, Eq, Structural)]
pub enum JobStatus {
    Pending,
    Running,
    Completed,
    Failed,
}

/// A calibration or benchmark job with metrics of type `M`.
#[derive(Debug, Clone)]
pub struct Job<M> {
    /// Unique job identifier.
    pub id: u128,
    /// Job type (calibration, benchmark, ...).
    pub job_type: String,
    /// Current status.
    pub status: JobStatus,
    /// Start time (milliseconds since the epoch).
    pub started_at: i64,
    /// Completion time, once done.
    pub completed_at: Option<i64>,
    /// Short metrics summary.
    pub metrics: M,
}

/// Most recent jobs kept.
pub const MAX_JOBS: usize = 100;

/// Most recent history points kept.
pub const MAX_HISTORY: usize = 1000;

/// The last `min(n, s.len())` elements of `s`.
pub open spec fn last_n<T>(s: Seq<T>, n: nat) -> Seq<T> {
    if n >= s.len() {
        s
    } else {
        s.subrange(s.len() - n, s.len() as int)
    }
}

/// The last `n` elements of `s` are a suffix of it: `min(n, s.len())`
/// elements, in the order of `s`, the last of them the last element of `s`
/// whenever any is kept.
pub proof fn lemma_last_n_suffix<T>(s: Seq<T>, n: nat)
    ensures
        ({
            let m = if n < s.len() { n } else { s.len() };
            &&& last_n(s, n).len() == m
            &&& forall|k: int| 0 <= k < m ==> #[trigger] last_n(s, n)[k] == s[s.len() - m + k]
            &&& n > 0 && s.len() > 0 ==> last_n(s, n).last() == s.last()
        }),
{
}

/// Read after write: a job added under an identifier that no kept job has
/// becomes the newest entry and the only one with that identifier, so a
/// lookup of the identifier finds it.
pub proof fn lemma_added_job_found<M>(jobs: Seq<Job<M>>, job: Job<M>)
    requires
        forall|i: int| 0 <= i < jobs.len() ==> #[trigger] jobs[i].id != job.id,
    ensures
        ({
            let after = last_n(jobs.push(job), MAX_JOBS as nat);
            &&& after.len() > 0
            &&& after.last() == job
            &&& forall|k: int| 0 <= k < after.len() - 1 ==> #[trigger] after[k].id != job.id
        }),
{
    let all = jobs.push(job);
    let after = last_n(all, MAX_JOBS as nat);
    assert forall|k: int| 0 <= k < after.len() - 1 implies #[trigger] after[k].id != job.id by {
        if MAX_JOBS < all.len() {
            assert(after[k] == all[all.len() - MAX_JOBS + k]);
            assert(all[all.len() - MAX_JOBS + k] == jobs[all.len() - MAX_JOBS + k]);
        } else {
            assert(after[k] == jobs[k]);
        }
    }
}

/// What updating job `id` does to the job list: the first job with that id
/// gets the new status, the new metrics when given, and the completion time
/// `now` when the status is final; other jobs are unchanged.
pub open spec fn updated_jobs<M>(
    jobs: Seq<Job<M>>,
    id: u128,
    status: JobStatus,
    metrics: Option<M>,
    now: i64,
) -> Seq<Job<M>> {
    if exists|i: int| 0 <= i < jobs.len() && jobs[i].id == id {
        let i = choose|i: int| 0 <= i < jobs.len() && jobs[i].id == id && forall|j: int| 0 <= j < i ==> jobs[j].id != id;
        let old_job = jobs[i];
        jobs.update(
            i,
            Job {
                status,
                metrics: match metrics {
                    Some(m) => m,
                    None => old_job.metrics,
                },
                completed_at: if status == JobStatus::Completed || status == JobStatus::Failed {
                    Some(now)
                } else {
                    old_job.completed_at
                },
                ..old_job
            },
        )
    } else {
        jobs
    }
}

/// Updating job `id` changes only the first job with that identifier, at
/// position `i`: it takes the new status, the given metrics whatever the
/// status, and the completion time `now` exactly when the status is
/// Completed or Failed; its identifier, type and start time stay, and every
/// other job is kept as it was.
pub proof fn lemma_update_job_effect<M>(
    jobs: Seq<Job<M>>,
    id: u128,
    status: JobStatus,
    metrics: Option<M>,
    now: i64,
    i: int,
)
    requires
        0 <= i < jobs.len(),
        jobs[i].id == id,
        forall|j: int| 0 <= j < i ==> #[trigger] jobs[j].id != id,
    ensures
        ({
            let after = updated_jobs(jobs, id, status, metrics, now);
            &&& after.len() == jobs.len()
            &&& after[i].id == id
            &&& after[i].job_type == jobs[i].job_type
            &&& after[i].started_at == jobs[i].started_at
            &&& after[i].status == status
            &&& (metrics matches Some(m) ==> after[i].metrics == m)
            &&& (metrics is None ==> after[i].metrics == jobs[i].metrics)
            &&& (status == JobStatus::Completed || status == JobStatus::Failed ==> after[i].completed_at
                == Some(now))
            &&& (!(status == JobStatus::Completed || status == JobStatus::Failed)
                ==> after[i].completed_at == jobs[i].completed_at)
            &&& forall|j: int| 0 <= j < jobs.len() && j != i ==> #[trigger] after[j] == jobs[j]
        }),
{
    assert(exists|k: int| 0 <= k < jobs.len() && jobs[k].id == id);
    let first = choose|k: int| 0 <= k < jobs.len() && jobs[k].id == id && forall|j: int| 0 <= j < k ==> jobs[j].id != id;
    assert(0 <= i < jobs.len() && jobs[i].id == id && forall|j: int| 0 <= j < i ==> jobs[j].id != id);
    assert(first == i) by {
        if first < i {
            assert(jobs[first].id != id);
        } else if first > i {
            assert(jobs[i].id != id);
        }
    }
}

/// Updating an identifier that no job has leaves the job list unchanged.
pub proof fn lemma_update_unknown_job<M>(
    jobs: Seq<Job<M>>,
    id: u128,
    status: JobStatus,
    metrics: Option<M>,
    now: i64,
)
    requires
        forall|j: int| 0 <= j < jobs.len() ==> #[trigger] jobs[j].id != id,
    ensures
        updated_jobs(jobs, id, status, metrics, now) == jobs,
{
}

/// The bounded job list and metric history of the telemetry service, with
/// job metrics of type `M` and history points of type `H`.
pub struct TelemetryLog<M, H> {
    jobs: Vec<Job<M>>,
    history: Vec<H>,
}

fn keep_last<T>(v: &mut Vec<T>, cap: usize)
    ensures
        final(v)@ == last_n(old(v)@, cap as nat),
{
    let len = v.len();
    if len > cap {
        let tail = v.split_off(len - cap);
        *v = tail;
    }
}

impl<M, H> TelemetryLog<M, H> {
    /// The recent jobs, oldest first.
    pub closed spec fn job_list(&self) -> Seq<Job<M>> {
        self.jobs@
    }

    /// The recent history points, oldest first.
    pub closed spec fn history_list(&self) -> Seq<H> {
        self.history@
    }

    /// An empty log.
    pub fn new() -> (r: Self)
        ensures
            r.job_list().len() == 0,
            r.history_list().len() == 0,
    {
        Self { jobs: Vec::new(), history: Vec::new() }
    }

    /// Adds a job, keeping the 100 most recent.
    pub fn add_job(&mut self, job: Job<M>)
        ensures
            final(self).job_list() == last_n(old(self).job_list().push(job), MAX_JOBS as nat),
            final(self).history_list() == old(self).history_list(),
    {
        self.jobs.push(job);
        keep_last(&mut self.jobs, MAX_JOBS);
    }

    /// Records a history point, keeping the 1000 most recent.
    pub fn add_history_point(&mut self, point: H)
        ensures
            final(self).history_list() == last_n(old(self).history_list().push(point), MAX_HISTORY as nat),
            final(self).job_list() == old(self).job_list(),
    {
        self.history.push(point);
        keep_last(&mut self.history, MAX_HISTORY);
    }

    /// Updates the first job with identifier `id` (if any): its status, its
    /// metrics when new ones are given, and its completion time `now` when
    /// the new status is Completed or Failed.
    pub fn update_job(&mut self, id: u128, status: JobStatus, metrics: Option<M>, now: i64)
        ensures
            final(self).job_list() == updated_jobs(old(self).job_list(), id, status, metrics, now),
            final(self).history_list() == old(self).history_list(),
    {
        let ghost jobs = self.jobs@;
        let mut i: usize = 0;
        while i < self.jobs.len()
            invariant
                self.jobs@ == jobs,
                jobs == old(self).jobs@,
                self.history@ == old(self).history@,
                i <= jobs.len(),
                forall|j: int| 0 <= j < i ==> #[trigger] jobs[j].id != id,
            decreases self.jobs.len() - i,
        {
            if self.jobs[i].id == id {
                assert(jobs[i as int].id == id);
                assert(forall|j: int| 0 <= j < i ==> jobs[j].id != id);
                let ghost first = choose|k: int| 0 <= k < jobs.len() && jobs[k].id == id && forall|j: int| 0 <= j < k ==> jobs[j].id != id;
                assert(first == i) by {
                    if first < i {
                        assert(jobs[first].id != id);
                    } else if first > i {
                        assert(jobs[i as int].id != id);
                    }
                }
                let mut job = self.jobs.remove(i);
                job.status = status;
                match metrics {
                    Some(m) => {
                        job.metrics = m;
                    },
                    None => {},
                }
                if status == JobStatus::Completed || status == JobStatus::Failed {
                    job.completed_at = Some(now);
                }
                self.jobs.insert(i, job);
                assert(self.jobs@ =~= updated_jobs(jobs, id, status, metrics, now));
                return;
            }
            i += 1;
        }
    }
}

impl<M: Clone, H: Clone> TelemetryLog<M, H> {
    /// The last `min(n, len)` elements of `v`, cloned.
    fn clone_tail<T: Clone>(v: &Vec<T>, n: usize) -> (r: Vec<T>)
        ensures
            r.len() == last_n(v@, n as nat).len(),
            forall|i: int| 0 <= i < r.len() ==> cloned(last_n(v@, n as nat)[i], #[trigger] r@[i]),
    {
        let start = if n >= v.len() { 0 } else { v.len() - n };
        let mut r: Vec<T> = Vec::new();
        let mut i = start;
        while i < v.len()
            invariant
                start <= i <= v.len(),
                start == if n >= v.len() { 0 } else { v.len() - n },
                r.len() == i - start,
                forall|k: int| 0 <= k < r.len() ==> cloned(v@[start + k], #[trigger] r@[k]),
            decreases v.len() - i,
        {
            r.push(v[i].clone());
            i += 1;
        }
        r
    }

    /// The jobs, all of them or at most the `limit` most recent.
    pub fn jobs(&self, limit: Option<usize>) -> (r: Vec<Job<M>>)
        ensures
            ({
                let kept = match limit {
                    Some(l) => last_n(self.job_list(), l as nat),
                    None => self.job_list(),
                };
                &&& r.len() == kept.len()
                &&& forall|i: int| 0 <= i < r.len() ==> cloned(kept[i], #[trigger] r@[i])
            }),
    {
        match limit {
            Some(l) => Self::clone_tail(&self.jobs, l),
            None => {
                let r = Self::clone_tail(&self.jobs, self.jobs.len());
                r
            },
        }
    }

    /// The job with identifier `id`, if any (the first one).
    pub fn job(&self, id: u128) -> (r: Option<Job<M>>)
        ensures
            r is None <==> forall|i: int| 0 <= i < self.job_list().len() ==> #[trigger] self.job_list()[i].id != id,
            r matches Some(j) ==> exists|i: int| 0 <= i < self.job_list().len() && self.job_list()[i].id == id
                && (forall|k: int| 0 <= k < i ==> #[trigger] self.job_list()[k].id != id) && cloned(self.job_list()[i], j),
    {
        let mut i: usize = 0;
        while i < self.jobs.len()
            invariant
                i <= self.jobs.len(),
                forall|k: int| 0 <= k < i ==> #[trigger] self.jobs@[k].id != id,
            decreases self.jobs.len() - i,
        {
            if self.jobs[i].id == id {
                return Some(self.jobs[i].clone());
            }
            i += 1;
        }
        None
    }

    /// The history: at most `limit` (1000 when not given) of the most
    /// recent points.
    pub fn history(&self, limit: Option<usize>) -> (r: Vec<H>)
        ensures
            ({
                let kept = last_n(self.history_list(), match limit { Some(l) => l as nat, None => 1000 });
                &&& r.len() == kept.len()
                &&& forall|i: int| 0 <= i < r.len() ==> cloned(kept[i], #[trigger] r@[i])
            }),
    {
        let n = match limit {
            Some(l) => l,
            None => MAX_HISTORY,
        };
        Self::clone_tail(&self.history, n)
    }
}

} // verus!
