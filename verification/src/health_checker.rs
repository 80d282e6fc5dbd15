//! Active health checking: backends are probed in turn, and a run of like results decides.

use vstd::prelude::*;
use crate::backend::Backend;
use crate::table::{Table, TableKey};
use crate::time::SECOND;

verus! {

/// How backends are probed; times are in nanoseconds.
#[derive(Debug, Clone, Copy, PartialEq, Eq, Structural)]
pub struct HealthCheckConfig {
    /// From one probe to the next
    pub interval: u64,
    /// How long a probe may take
    pub timeout: u64,
    /// Failures in a row that make a backend unhealthy
    pub unhealthy_threshold: u32,
    /// Successes in a row that make a backend healthy
    pub healthy_threshold: u32,
}

impl Default for HealthCheckConfig {
    /// A probe every five seconds that may take two; three failures or two successes decide.
    fn default() -> (r: Self)
        ensures
            r == (HealthCheckConfig {
                interval: (5 * SECOND) as u64,
                timeout: (2 * SECOND) as u64,
                unhealthy_threshold: 3,
                healthy_threshold: 2,
            }),
    {
        HealthCheckConfig {
            interval: 5 * SECOND,
            timeout: 2 * SECOND,
            unhealthy_threshold: 3,
            healthy_threshold: 2,
        }
    }
}

/// Whether a backend is healthy.
#[derive(Debug, Clone, Copy, PartialEq, Eq, Structural)]
pub enum HealthStatus {
    Healthy,
    Unhealthy,
}

/// What probes have shown of a backend.
#[derive(Debug, Clone, Copy, PartialEq, Eq, Structural)]
pub struct BackendHealthState {
    pub status: HealthStatus,
    pub consecutive_successes: u32,
    pub consecutive_failures: u32,
    pub last_check: Option<u64>,
    pub last_latency_ms: Option<u64>,
}

impl BackendHealthState {
    /// A backend before its first probe.
    pub open spec fn unprobed() -> BackendHealthState {
        BackendHealthState {
            status: HealthStatus::Healthy,
            consecutive_successes: 0,
            consecutive_failures: 0,
            last_check: None,
            last_latency_ms: None,
        }
    }

    /// A backend after a probe succeeded.
    pub open spec fn succeeded(
        self,
        latency_ms: u64,
        config: HealthCheckConfig,
        now: u64,
    ) -> BackendHealthState {
        BackendHealthState {
            status: if self.consecutive_successes + 1 >= config.healthy_threshold {
                HealthStatus::Healthy
            } else {
                self.status
            },
            consecutive_successes: (self.consecutive_successes + 1) as u32,
            consecutive_failures: 0,
            last_check: Some(now),
            last_latency_ms: Some(latency_ms),
        }
    }

    /// A backend after a probe failed.
    pub open spec fn failed(self, config: HealthCheckConfig, now: u64) -> BackendHealthState {
        BackendHealthState {
            status: if self.consecutive_failures + 1 >= config.unhealthy_threshold {
                HealthStatus::Unhealthy
            } else {
                self.status
            },
            consecutive_successes: 0,
            consecutive_failures: (self.consecutive_failures + 1) as u32,
            last_check: Some(now),
            ..self
        }
    }

    /// A backend before its first probe, which counts as healthy.
    pub fn new() -> (r: Self)
        ensures
            r == Self::unprobed(),
    {
        BackendHealthState {
            status: HealthStatus::Healthy,
            consecutive_successes: 0,
            consecutive_failures: 0,
            last_check: None,
            last_latency_ms: None,
        }
    }

    /// Records that a probe succeeded.
    pub fn record_success(&mut self, latency_ms: u64, config: &HealthCheckConfig, now: u64)
        requires
            old(self).consecutive_successes < u32::MAX,
        ensures
            *final(self) == old(self).succeeded(latency_ms, *config, now),
    {
        self.consecutive_successes = self.consecutive_successes + 1;
        self.consecutive_failures = 0;
        self.last_latency_ms = Some(latency_ms);
        self.last_check = Some(now);
        if self.consecutive_successes >= config.healthy_threshold {
            self.status = HealthStatus::Healthy;
        }
    }

    /// Records that a probe failed.
    pub fn record_failure(&mut self, config: &HealthCheckConfig, now: u64)
        requires
            old(self).consecutive_failures < u32::MAX,
        ensures
            *final(self) == old(self).failed(*config, now),
    {
        self.consecutive_failures = self.consecutive_failures + 1;
        self.consecutive_successes = 0;
        self.last_check = Some(now);
        if self.consecutive_failures >= config.unhealthy_threshold {
            self.status = HealthStatus::Unhealthy;
        }
    }
}

/// How a probe ended.
#[derive(Debug, Clone, Copy, PartialEq, Eq, Structural)]
pub enum ProbeResult {
    /// Connected after so many milliseconds
    Connected(u64),
    /// The connection was refused
    Refused,
    /// No connection in time
    TimedOut,
}

/// A backend after a probe.
pub open spec fn probed(
    state: BackendHealthState,
    result: ProbeResult,
    config: HealthCheckConfig,
    now: u64,
) -> BackendHealthState {
    match result {
        ProbeResult::Connected(latency_ms) => state.succeeded(latency_ms, config, now),
        ProbeResult::Refused | ProbeResult::TimedOut => state.failed(config, now),
    }
}

/// The text of a status, as metrics label it.
pub open spec fn status_text(status: HealthStatus) -> Seq<char> {
    match status {
        HealthStatus::Healthy => "healthy"@,
        HealthStatus::Unhealthy => "unhealthy"@,
    }
}

/// The text of a status, as metrics label it.
fn status_to_str(status: HealthStatus) -> (r: &'static str)
    ensures
        r@ == status_text(status),
{
    match status {
        HealthStatus::Healthy => "healthy",
        HealthStatus::Unhealthy => "unhealthy",
    }
}

/// What metrics show of a probe.
pub struct ProbeMetrics {
    /// The label of the result
    pub result: &'static str,
    /// One for a healthy backend, else zero
    pub health: i64,
    pub consecutive_failures: i64,
    /// The labels of the old and the new status, where it changed
    pub transition: Option<(&'static str, &'static str)>,
}

/// The label of a probe's result.
pub open spec fn result_text(result: ProbeResult) -> Seq<char> {
    match result {
        ProbeResult::Connected(_) => "success"@,
        ProbeResult::Refused => "failure"@,
        ProbeResult::TimedOut => "timeout"@,
    }
}

/// Whether metrics show a probe that led from one state to another.
pub open spec fn shows(
    metrics: ProbeMetrics,
    result: ProbeResult,
    before: BackendHealthState,
    after: BackendHealthState,
) -> bool {
    &&& metrics.result@ == result_text(result)
    &&& metrics.health == if after.status == HealthStatus::Healthy {
        1int
    } else {
        0int
    }
    &&& metrics.consecutive_failures == after.consecutive_failures
    &&& metrics.transition is Some <==> before.status != after.status
    &&& match metrics.transition {
        Some(labels) => labels.0@ == status_text(before.status) && labels.1@ == status_text(
            after.status,
        ),
        None => true,
    }
}

impl TableKey for Backend {
    type Id = Backend;

    type Probe = Backend;

    open spec fn id(&self) -> Backend {
        *self
    }

    open spec fn probe_id(probe: &Backend) -> Backend {
        *probe
    }

    fn is(&self, probe: &Backend) -> (r: bool) {
        *self == *probe
    }

    fn from_probe(probe: &Backend) -> (r: Self) {
        *probe
    }
}

/// A list of backends with more of them behind it; one that is there already is not taken twice.
pub open spec fn with_backends(known: Seq<Backend>, more: Seq<Backend>) -> Seq<Backend>
    decreases more.len(),
{
    if more.len() == 0 {
        known
    } else {
        let before = with_backends(known, more.drop_last());
        if before.contains(more.last()) {
            before
        } else {
            before.push(more.last())
        }
    }
}

/// What probes have shown of all backends.
pub struct HealthChecker {
    config: HealthCheckConfig,
    states: Table<Backend, BackendHealthState>,
}

impl HealthChecker {
    /// How backends are probed.
    pub closed spec fn config(&self) -> HealthCheckConfig {
        self.config
    }

    /// The states, by backend.
    pub closed spec fn states(&self) -> Map<Backend, BackendHealthState> {
        self.states.map()
    }

    /// The backends that are probed, in the order in which they came.
    pub closed spec fn backends(&self) -> Seq<Backend> {
        self.states.keys()
    }

    /// The backends that are probed are those with a state, each once.
    pub open spec fn backends_match(&self) -> bool {
        &&& self.backends().no_duplicates()
        &&& forall|b: Backend| #[trigger]
            self.backends().contains(b) <==> self.states().contains_key(b)
    }

    /// No backend has two states.
    pub closed spec fn wf(&self) -> bool {
        self.states.wf()
    }

    /// What is known of a backend.
    pub open spec fn of(&self, backend: Backend) -> BackendHealthState {
        if self.states().contains_key(backend) {
            self.states()[backend]
        } else {
            BackendHealthState::unprobed()
        }
    }

    /// No backend is probed yet.
    pub fn new(config: HealthCheckConfig) -> (r: Self)
        ensures
            r.wf(),
            r.config() == config,
            r.states() == Map::<Backend, BackendHealthState>::empty(),
            r.backends() == Seq::<Backend>::empty(),
            r.backends_match(),
    {
        HealthChecker { config, states: Table::new() }
    }

    /// Whether a backend is healthy; one that was never probed is.
    pub fn is_healthy(&self, backend: &Backend) -> (r: bool)
        requires
            self.wf(),
        ensures
            r == (self.of(*backend).status == HealthStatus::Healthy),
    {
        match self.states.get(backend) {
            Some(state) => state.status == HealthStatus::Healthy,
            None => true,
        }
    }

    /// What is known of a backend.
    pub fn state_of(&self, backend: &Backend) -> (r: BackendHealthState)
        requires
            self.wf(),
        ensures
            r == self.of(*backend),
    {
        match self.states.get(backend) {
            Some(state) => *state,
            None => BackendHealthState::new(),
        }
    }

    /// The status of every backend that is probed.
    pub fn get_all_statuses(&self) -> (r: Vec<(Backend, HealthStatus)>)
        requires
            self.wf(),
        ensures
            self.backends_match(),
            r@.len() == self.backends().len(),
            forall|i: int|
                0 <= i < r@.len() ==> (#[trigger] r@[i]) == (
                    self.backends()[i],
                    self.of(self.backends()[i]).status,
                ),
    {
        let mut out: Vec<(Backend, HealthStatus)> = Vec::new();
        let mut i: usize = 0;
        while i < self.states.len()
            invariant
                self.wf(),
                i <= self.states.keys().len(),
                out@.len() == i,
                forall|j: int|
                    0 <= j < i ==> (#[trigger] out@[j]) == (
                        self.backends()[j],
                        self.of(self.backends()[j]).status,
                    ),
            decreases self.states.keys().len() - i,
        {
            let backend: Backend = *self.states.key_at(i);
            assert(self.states.keys()[i as int] == backend);
            assert(self.states.keys().contains(backend));
            assert(self.states.keys().index_of(backend) == i) by {
                assert(self.states.keys().no_duplicates());
            }
            out.push((backend, self.states.at(i).status));
            i += 1;
        }
        out
    }

    /// Starts to probe backends; those that are probed already keep what is known of them.
    pub fn start_checking(&mut self, backends: &Vec<Backend>)
        requires
            old(self).wf(),
        ensures
            final(self).wf(),
            final(self).backends_match(),
            final(self).config() == old(self).config(),
            final(self).backends() == with_backends(old(self).backends(), backends@),
            forall|b: Backend| #[trigger]
                final(self).states().contains_key(b) <==> old(self).states().contains_key(b)
                    || backends@.contains(b),
            forall|b: Backend| #[trigger] final(self).of(b) == old(self).of(b),
    {
        let mut i: usize = 0;
        while i < backends.len()
            invariant
                i <= backends.len(),
                self.wf(),
                self.config() == old(self).config(),
                self.backends() == with_backends(old(self).backends(), backends@.take(i as int)),
                forall|b: Backend| #[trigger]
                    self.states().contains_key(b) <==> old(self).states().contains_key(b)
                        || backends@.take(i as int).contains(b),
                forall|b: Backend| #[trigger] self.of(b) == old(self).of(b),
            decreases backends.len() - i,
        {
            let ghost before = *self;
            let b: Backend = backends[i];
            if !self.states.contains_key(&b) {
                self.states.insert(&b, BackendHealthState::new());
            }
            proof {
                let old_part = backends@.take(i as int);
                let new_part = backends@.take(i as int + 1);
                assert(new_part =~= old_part.push(b));
                assert(new_part.drop_last() =~= old_part);
                assert(before.states().contains_key(b) <==> before.backends().contains(b));
                assert forall|x: Backend| #[trigger]
                    new_part.contains(x) <==> old_part.contains(x) || x == b by {
                    if old_part.contains(x) {
                        let k = old_part.index_of(x);
                        assert(new_part[k] == x);
                    }
                    assert(new_part[i as int] == b);
                    if new_part.contains(x) && x != b {
                        let k = new_part.index_of(x);
                        assert(old_part[k] == x);
                    }
                }
                assert forall|x: Backend| #[trigger] self.of(x) == old(self).of(x) by {
                    assert(before.of(x) == old(self).of(x));
                }
                assert forall|x: Backend| #[trigger]
                    self.states().contains_key(x) <==> old(self).states().contains_key(x)
                        || new_part.contains(x) by {
                    assert(before.states().contains_key(x) <==> old(self).states().contains_key(x)
                        || old_part.contains(x));
                }
            }
            i += 1;
        }
        assert(backends@.take(i as int) =~= backends@);
    }

    /// Records the result of a probe; what metrics show of it.
    pub fn check_backend(&mut self, backend: Backend, result: ProbeResult, now: u64) -> (r:
        ProbeMetrics)
        requires
            old(self).wf(),
            old(self).of(backend).consecutive_successes < u32::MAX,
            old(self).of(backend).consecutive_failures < u32::MAX,
        ensures
            final(self).wf(),
            final(self).backends_match(),
            final(self).backends() == with_backends(old(self).backends(), seq![backend]),
            final(self).config() == old(self).config(),
            final(self).states() == old(self).states().insert(
                backend,
                probed(old(self).of(backend), result, old(self).config(), now),
            ),
            shows(r, result, old(self).of(backend), final(self).of(backend)),
    {
        let before = self.state_of(&backend);
        let mut state = before;
        let label: &'static str = match result {
            ProbeResult::Connected(latency_ms) => {
                state.record_success(latency_ms, &self.config, now);
                "success"
            },
            ProbeResult::Refused => {
                state.record_failure(&self.config, now);
                "failure"
            },
            ProbeResult::TimedOut => {
                state.record_failure(&self.config, now);
                "timeout"
            },
        };
        self.states.insert(&backend, state);
        proof {
            let one = seq![backend];
            assert(one.drop_last() =~= Seq::<Backend>::empty());
            assert(with_backends(old(self).backends(), one.drop_last()) == old(self).backends());
        }
        ProbeMetrics {
            result: label,
            health: if state.status == HealthStatus::Healthy {
                1
            } else {
                0
            },
            consecutive_failures: state.consecutive_failures as i64,
            transition: if before.status != state.status {
                Some((status_to_str(before.status), status_to_str(state.status)))
            } else {
                None
            },
        }
    }
}

/// A backend after probes with the given results, at the given instants.
pub open spec fn after_probes(
    state: BackendHealthState,
    probes: Seq<(ProbeResult, u64)>,
    config: HealthCheckConfig,
) -> BackendHealthState
    decreases probes.len(),
{
    if probes.len() == 0 {
        state
    } else {
        probed(
            after_probes(state, probes.drop_last(), config),
            probes.last().0,
            config,
            probes.last().1,
        )
    }
}

/// A new backend turns unhealthy exactly when so many probes in a row have failed as the threshold
/// asks for.
pub proof fn lemma_turns_unhealthy_at_threshold(
    probes: Seq<(ProbeResult, u64)>,
    config: HealthCheckConfig,
)
    requires
        probes.len() <= u32::MAX,
        forall|i: int| 0 <= i < probes.len() ==> !((#[trigger] probes[i]).0 is Connected),
    ensures
        ({
            let s = after_probes(BackendHealthState::unprobed(), probes, config);
            &&& s.consecutive_failures == probes.len()
            &&& s.status == HealthStatus::Unhealthy <==> probes.len() > 0 && probes.len()
                >= config.unhealthy_threshold
        }),
    decreases probes.len(),
{
    if probes.len() > 0 {
        assert(!(probes[probes.len() - 1].0 is Connected));
        assert forall|i: int| 0 <= i < probes.drop_last().len() implies !((
        #[trigger] probes.drop_last()[i]).0 is Connected) by {
            assert(probes[i] == probes.drop_last()[i]);
        }
        lemma_turns_unhealthy_at_threshold(probes.drop_last(), config);
    }
}

/// An unhealthy backend is healthy again exactly when so many probes in a row have succeeded as
/// the threshold asks for.
pub proof fn lemma_recovers_at_threshold(
    state: BackendHealthState,
    probes: Seq<(ProbeResult, u64)>,
    config: HealthCheckConfig,
)
    requires
        state.status == HealthStatus::Unhealthy,
        state.consecutive_successes == 0,
        probes.len() <= u32::MAX,
        forall|i: int| 0 <= i < probes.len() ==> (#[trigger] probes[i]).0 is Connected,
    ensures
        ({
            let s = after_probes(state, probes, config);
            &&& s.consecutive_successes == probes.len()
            &&& s.status == HealthStatus::Healthy <==> probes.len() > 0 && probes.len()
                >= config.healthy_threshold
        }),
    decreases probes.len(),
{
    if probes.len() > 0 {
        assert(probes[probes.len() - 1].0 is Connected);
        assert forall|i: int| 0 <= i < probes.drop_last().len() implies (
        #[trigger] probes.drop_last()[i]).0 is Connected by {
            assert(probes[i] == probes.drop_last()[i]);
        }
        lemma_recovers_at_threshold(state, probes.drop_last(), config);
    }
}

/// A probe that succeeds forgets the failures before it, and one that fails the successes.
pub proof fn lemma_runs_are_broken(
    state: BackendHealthState,
    result: ProbeResult,
    config: HealthCheckConfig,
    now: u64,
)
    ensures
        result is Connected ==> probed(state, result, config, now).consecutive_failures == 0,
        !(result is Connected) ==> probed(state, result, config, now).consecutive_successes == 0,
{
}

/// What one probe changes, whatever came before it. One that connects adds to the successes in a
/// row, and the backend is healthy from then on exactly if it was so or the successes reach their
/// threshold. One that does not adds to the failures in a row, and the backend is unhealthy exactly
/// if it was so or the failures reach theirs; its last latency stays known.
pub proof fn lemma_probe_counts(
    state: BackendHealthState,
    result: ProbeResult,
    config: HealthCheckConfig,
    now: u64,
)
    requires
        state.consecutive_successes < u32::MAX,
        state.consecutive_failures < u32::MAX,
    ensures
        ({
            let after = probed(state, result, config, now);
            let was_healthy = state.status == HealthStatus::Healthy;
            let is_healthy = after.status == HealthStatus::Healthy;
            &&& after.last_check == Some(now)
            &&& match result {
                ProbeResult::Connected(ms) => {
                    &&& after.consecutive_successes == state.consecutive_successes + 1
                    &&& after.consecutive_failures == 0
                    &&& after.last_latency_ms == Some(ms)
                    &&& is_healthy <==> was_healthy || after.consecutive_successes
                        >= config.healthy_threshold
                },
                ProbeResult::Refused | ProbeResult::TimedOut => {
                    &&& after.consecutive_failures == state.consecutive_failures + 1
                    &&& after.consecutive_successes == 0
                    &&& after.last_latency_ms == state.last_latency_ms
                    &&& !is_healthy <==> !was_healthy || after.consecutive_failures
                        >= config.unhealthy_threshold
                },
            }
        }),
{
}

/// A backend of which no probe has come back counts as healthy, with no probe behind it.
pub proof fn lemma_unprobed_is_healthy(checker: HealthChecker, backend: Backend)
    requires
        !checker.states().contains_key(backend),
    ensures
        ({
            let s = checker.of(backend);
            &&& s.status == HealthStatus::Healthy
            &&& s.consecutive_successes == 0
            &&& s.consecutive_failures == 0
            &&& s.last_check is None
            &&& s.last_latency_ms is None
        }),
{
}

/// Every backend that is asked for is probed, once, behind those that were probed before; none is
/// dropped or moved.
pub proof fn lemma_backends_are_probed_once(known: Seq<Backend>, more: Seq<Backend>, b: Backend)
    ensures
        known.is_prefix_of(with_backends(known, more)),
        with_backends(known, more).contains(b) <==> known.contains(b) || more.contains(b),
        known.no_duplicates() ==> with_backends(known, more).no_duplicates(),
        with_backends(known, more).len() <= known.len() + more.len(),
    decreases more.len(),
{
    let all = with_backends(known, more);
    if more.len() == 0 {
        assert(known.subrange(0, known.len() as int) =~= known);
        assert(known.is_prefix_of(known));
    } else {
        let rest = more.drop_last();
        let before = with_backends(known, rest);
        lemma_backends_are_probed_once(known, rest, b);
        lemma_backends_are_probed_once(known, rest, more.last());
        assert(more =~= rest.push(more.last()));
        assert(more[more.len() - 1] == more.last());
        if rest.contains(b) {
            let i = rest.index_of(b);
            assert(more[i] == b);
        }
        if more.contains(b) && b != more.last() {
            let i = more.index_of(b);
            assert(rest[i] == b);
        }
        if !before.contains(more.last()) {
            assert(all == before.push(more.last()));
            assert(all[all.len() - 1] == more.last());
            if before.contains(b) {
                let i = before.index_of(b);
                assert(all[i] == b);
            }
            if all.contains(b) && b != more.last() {
                let i = all.index_of(b);
                assert(before[i] == b);
            }
            assert(known.is_prefix_of(all)) by {
                assert(before.subrange(0, known.len() as int) =~= known);
                assert(all.subrange(0, known.len() as int) =~= known);
            }
        }
    }
}

/// What metrics show of a probe tells its result, the new status, the failures in a row, and the
/// change of status exactly if there was one.
pub proof fn lemma_metrics_show_probe(
    metrics: ProbeMetrics,
    result: ProbeResult,
    before: BackendHealthState,
    after: BackendHealthState,
)
    requires
        shows(metrics, result, before, after),
    ensures
        metrics.result@ == match result {
            ProbeResult::Connected(_) => "success"@,
            ProbeResult::Refused => "failure"@,
            ProbeResult::TimedOut => "timeout"@,
        },
        metrics.health == 1 <==> after.status == HealthStatus::Healthy,
        metrics.health == 0 <==> after.status == HealthStatus::Unhealthy,
        metrics.consecutive_failures == after.consecutive_failures,
        metrics.transition is None <==> before.status == after.status,
        metrics.transition matches Some(labels) ==> {
            &&& labels.0@ == if before.status == HealthStatus::Healthy {
                "healthy"@
            } else {
                "unhealthy"@
            }
            &&& labels.1@ == if after.status == HealthStatus::Healthy {
                "healthy"@
            } else {
                "unhealthy"@
            }
        },
{
}

} // verus!
