use crate::clock::{elapsed, elapsed_since};
use crate::keyed::Keyed;
use std::collections::HashMap;
use vstd::prelude::*;

verus! {

broadcast use vstd::std_specs::hash::group_hash_axioms;

/// Parts in which a success rate is counted: a rate of this many is all of
/// the requests.
pub const RATE_SCALE: u64 = 1_000_000;

/// What the collector keeps for one backend, as contracts speak of it.
pub struct MetricsState {
    pub total_requests: u64,
    pub successful_requests: u64,
    pub failed_requests: u64,
    /// Sum of the response times, in nanoseconds.
    pub total_response_time: u128,
    pub min_response_time: Option<u64>,
    pub max_response_time: Option<u64>,
    /// How many responses carried each status code.
    pub status_codes: Map<u16, u64>,
}

/// What the collector keeps for one backend.
#[derive(Debug)]
pub struct RequestMetrics {
    pub total_requests: u64,
    pub successful_requests: u64,
    pub failed_requests: u64,
    /// Sum of the response times, in nanoseconds.
    pub total_response_time: u128,
    pub min_response_time: Option<u64>,
    pub max_response_time: Option<u64>,
    /// How many responses carried each status code.
    pub status_codes: HashMap<u16, u64>,
}

/// A backend's metrics with the figures derived from them, as contracts
/// speak of it.
pub struct SummaryState {
    pub uptime: u64,
    pub total_requests: u64,
    pub successful_requests: u64,
    pub failed_requests: u64,
    pub success_rate: u64,
    pub avg_response_time: u64,
    pub min_response_time: Option<u64>,
    pub max_response_time: Option<u64>,
    pub status_code_distribution: Map<u16, u64>,
}

/// A backend's metrics with the figures derived from them.
#[derive(Debug)]
pub struct MetricsSummary {
    /// Nanoseconds since the collector was made.
    pub uptime: u64,
    pub total_requests: u64,
    pub successful_requests: u64,
    pub failed_requests: u64,
    /// Successful requests per `RATE_SCALE` requests, rounded down; zero
    /// where there was no request.
    pub success_rate: u64,
    /// Mean response time in nanoseconds, rounded down; zero where there was
    /// no request.
    pub avg_response_time: u64,
    pub min_response_time: Option<u64>,
    pub max_response_time: Option<u64>,
    pub status_code_distribution: HashMap<u16, u64>,
}

impl View for RequestMetrics {
    type V = MetricsState;

    open spec fn view(&self) -> MetricsState {
        MetricsState {
            total_requests: self.total_requests,
            successful_requests: self.successful_requests,
            failed_requests: self.failed_requests,
            total_response_time: self.total_response_time,
            min_response_time: self.min_response_time,
            max_response_time: self.max_response_time,
            status_codes: self.status_codes@,
        }
    }
}

impl View for MetricsSummary {
    type V = SummaryState;

    open spec fn view(&self) -> SummaryState {
        SummaryState {
            uptime: self.uptime,
            total_requests: self.total_requests,
            successful_requests: self.successful_requests,
            failed_requests: self.failed_requests,
            success_rate: self.success_rate,
            avg_response_time: self.avg_response_time,
            min_response_time: self.min_response_time,
            max_response_time: self.max_response_time,
            status_code_distribution: self.status_code_distribution@,
        }
    }
}

impl MetricsState {
    /// The counters agree with one another: every request was a success or a
    /// failure, took a time that a `u64` holds, and carried one status code.
    /// The shortest and the longest time are there exactly when there was a
    /// request, the shortest is no longer than the longest, and the sum of
    /// the times lies between as many shortest and as many longest times as
    /// there were requests.
    pub open spec fn wf(self) -> bool {
        &&& self.successful_requests + self.failed_requests == self.total_requests
        &&& self.total_response_time <= self.total_requests * u64::MAX
        &&& forall|code: u16| #[trigger]
            self.status_codes.contains_key(code) ==> self.status_codes[code] <= self.total_requests
        &&& self.total_requests == 0 <==> self.min_response_time is None
        &&& self.min_response_time is None <==> self.max_response_time is None
        &&& self.total_requests > 0 ==> {
            let shortest = self.min_response_time->0;
            let longest = self.max_response_time->0;
            &&& shortest <= longest
            &&& shortest * self.total_requests <= self.total_response_time
            &&& self.total_response_time <= longest * self.total_requests
        }
    }

    /// How many responses carried `status`.
    pub open spec fn count(self, status: u16) -> u64 {
        if self.status_codes.contains_key(status) {
            self.status_codes[status]
        } else {
            0
        }
    }
}

/// The metrics of a backend of which nothing was recorded.
pub open spec fn no_metrics() -> MetricsState {
    MetricsState {
        total_requests: 0,
        successful_requests: 0,
        failed_requests: 0,
        total_response_time: 0,
        min_response_time: None,
        max_response_time: None,
        status_codes: Map::empty(),
    }
}

/// The smaller of a running minimum and a new value.
pub open spec fn least(so_far: Option<u64>, value: u64) -> Option<u64> {
    match so_far {
        Some(m) if m <= value => Some(m),
        _ => Some(value),
    }
}

/// The larger of a running maximum and a new value.
pub open spec fn greatest(so_far: Option<u64>, value: u64) -> Option<u64> {
    match so_far {
        Some(m) if m >= value => Some(m),
        _ => Some(value),
    }
}

/// The metrics after one more outcome: a response with `status` that took
/// `duration` nanoseconds and counts as a failure if `is_error`.
pub open spec fn after_record(m: MetricsState, duration: u64, status: u16, is_error: bool)
    -> MetricsState {
    MetricsState {
        total_requests: (m.total_requests + 1) as u64,
        successful_requests: if is_error {
            m.successful_requests
        } else {
            (m.successful_requests + 1) as u64
        },
        failed_requests: if is_error {
            (m.failed_requests + 1) as u64
        } else {
            m.failed_requests
        },
        total_response_time: (m.total_response_time + duration) as u128,
        min_response_time: least(m.min_response_time, duration),
        max_response_time: greatest(m.max_response_time, duration),
        status_codes: m.status_codes.insert(status, (m.count(status) + 1) as u64),
    }
}

/// Successful requests per `RATE_SCALE` requests, rounded down.
pub open spec fn success_rate_of(m: MetricsState) -> int {
    if m.total_requests == 0 {
        0
    } else {
        (m.successful_requests as int * RATE_SCALE as int) / (m.total_requests as int)
    }
}

/// Mean response time in nanoseconds, rounded down.
pub open spec fn avg_response_time_of(m: MetricsState) -> int {
    if m.total_requests == 0 {
        0
    } else {
        (m.total_response_time as int) / (m.total_requests as int)
    }
}

/// The summary of `m` at a moment when the collector is `uptime` old.
pub open spec fn summary_of(m: MetricsState, uptime: u64) -> SummaryState {
    SummaryState {
        uptime,
        total_requests: m.total_requests,
        successful_requests: m.successful_requests,
        failed_requests: m.failed_requests,
        success_rate: success_rate_of(m) as u64,
        avg_response_time: avg_response_time_of(m) as u64,
        min_response_time: m.min_response_time,
        max_response_time: m.max_response_time,
        status_code_distribution: m.status_codes,
    }
}

/// Both derived figures fit their fields: the rate is at most `RATE_SCALE`
/// and the mean is at most the longest time a `u64` holds.
pub proof fn lemma_summary_bounds(m: MetricsState)
    requires
        m.wf(),
    ensures
        0 <= success_rate_of(m) <= RATE_SCALE,
        0 <= avg_response_time_of(m) <= u64::MAX,
{
    if m.total_requests > 0 {
        let t = m.total_requests as int;
        let s = m.successful_requests as int;
        let sum = m.total_response_time as int;
        assert(0 <= (s * 1_000_000) / t <= 1_000_000) by (nonlinear_arith)
            requires
                0 <= s <= t,
                t > 0,
        ;
        assert(0 <= sum / t <= 0xffff_ffff_ffff_ffff) by (nonlinear_arith)
            requires
                0 <= sum <= t * 0xffff_ffff_ffff_ffff,
                t > 0,
        ;
    }
}

/// Where there was a request, the mean response time lies between the
/// shortest and the longest.
pub proof fn lemma_mean_between(m: MetricsState)
    requires
        m.wf(),
        m.total_requests > 0,
    ensures
        m.min_response_time is Some,
        m.max_response_time is Some,
        m.min_response_time->0 <= avg_response_time_of(m) <= m.max_response_time->0,
{
    let t = m.total_requests as int;
    let sum = m.total_response_time as int;
    let lo = m.min_response_time->0 as int;
    let hi = m.max_response_time->0 as int;
    assert(lo <= sum / t <= hi) by (nonlinear_arith)
        requires
            lo * t <= sum <= hi * t,
            t > 0,
    ;
}

impl RequestMetrics {
    /// The metrics of a backend of which nothing was recorded.
    pub fn new() -> (m: Self)
        ensures
            m@ == no_metrics(),
            m@.wf(),
    {
        RequestMetrics {
            total_requests: 0,
            successful_requests: 0,
            failed_requests: 0,
            total_response_time: 0,
            min_response_time: None,
            max_response_time: None,
            status_codes: HashMap::new(),
        }
    }

    /// Adds one outcome to the counters, the running times and the count of
    /// its status code.
    pub fn record(&mut self, duration: u64, status: u16, is_error: bool)
        requires
            old(self)@.wf(),
            old(self)@.total_requests < u64::MAX,
        ensures
            final(self)@ == after_record(old(self)@, duration, status, is_error),
            final(self)@.wf(),
    {
        proof {
            let before = old(self)@;
            let t = before.total_requests as int;
            let sum = before.total_response_time as int;
            let d = duration as int;
            if let Some(shortest) = before.min_response_time {
                let longest = before.max_response_time->0;
                let lo = if shortest <= duration {
                    shortest as int
                } else {
                    d
                };
                let hi = if longest >= duration {
                    longest as int
                } else {
                    d
                };
                assert(lo * (t + 1) <= sum + d) by (nonlinear_arith)
                    requires
                        0 <= lo <= shortest,
                        lo <= d,
                        shortest * t <= sum,
                        t >= 0,
                ;
                assert(sum + d <= hi * (t + 1)) by (nonlinear_arith)
                    requires
                        longest <= hi,
                        d <= hi,
                        sum <= longest * t,
                        t >= 0,
                ;
            }
        }
        self.total_requests = self.total_requests + 1;
        if is_error {
            self.failed_requests = self.failed_requests + 1;
        } else {
            self.successful_requests = self.successful_requests + 1;
        }
        self.total_response_time = self.total_response_time + duration as u128;
        self.min_response_time = match self.min_response_time {
            Some(m) if m <= duration => Some(m),
            _ => Some(duration),
        };
        self.max_response_time = match self.max_response_time {
            Some(m) if m >= duration => Some(m),
            _ => Some(duration),
        };
        let seen: u64 = match self.status_codes.get(&status) {
            Some(count) => *count,
            None => 0,
        };
        self.status_codes.insert(status, seen + 1);
    }

    /// The metrics with their derived figures, for a collector that is
    /// `uptime` nanoseconds old.
    pub fn summarize(&self, uptime: u64) -> (s: MetricsSummary)
        requires
            self@.wf(),
        ensures
            s@ == summary_of(self@, uptime),
    {
        proof {
            lemma_summary_bounds(self@);
        }
        let success_rate: u64 = if self.total_requests > 0 {
            (self.successful_requests as u128 * RATE_SCALE as u128 / self.total_requests as u128) as u64
        } else {
            0
        };
        let avg_response_time: u64 = if self.total_requests > 0 {
            (self.total_response_time / self.total_requests as u128) as u64
        } else {
            0
        };
        MetricsSummary {
            uptime,
            total_requests: self.total_requests,
            successful_requests: self.successful_requests,
            failed_requests: self.failed_requests,
            success_rate,
            avg_response_time,
            min_response_time: self.min_response_time,
            max_response_time: self.max_response_time,
            status_code_distribution: self.status_codes.clone(),
        }
    }
}

/// Per-backend metrics, created when a backend's first outcome is recorded.
pub struct MetricsCollector {
    metrics: Keyed<RequestMetrics>,
    start_time: u64,
}

impl MetricsCollector {
    /// The instant at which the collector was made.
    pub closed spec fn start_time(&self) -> u64 {
        self.start_time
    }

    /// The backends that have metrics, in the order of their first outcome.
    pub closed spec fn backends(&self) -> Seq<Seq<char>> {
        self.metrics.keys()
    }

    /// The metrics of each backend that has some.
    pub closed spec fn metrics(&self) -> Map<Seq<char>, MetricsState> {
        self.metrics.mapped(|m: RequestMetrics| m@)
    }

    /// Every backend has one set of metrics, whose counters agree.
    pub closed spec fn wf(&self) -> bool {
        &&& self.metrics.wf()
        &&& forall|i: int| 0 <= i < self.metrics.values().len() ==> (#[trigger] self.metrics.values()[i])@.wf()
    }

    /// Whether `backend` has metrics.
    pub open spec fn tracks(&self, backend: Seq<char>) -> bool {
        self.backends().contains(backend)
    }

    /// The metrics that an outcome for `backend` is added to.
    pub open spec fn metrics_or_new(&self, backend: Seq<char>) -> MetricsState {
        if self.tracks(backend) {
            self.metrics()[backend]
        } else {
            no_metrics()
        }
    }

    /// The backends after an outcome for `backend` was recorded.
    pub open spec fn backends_with(&self, backend: Seq<char>) -> Seq<Seq<char>> {
        if self.tracks(backend) {
            self.backends()
        } else {
            self.backends().push(backend)
        }
    }

    /// How the collector stands after the outcome of a request to `backend`
    /// that began at `start` and ended at `now` was recorded, given how it
    /// stood `before`: the backend's metrics have taken the outcome in, a
    /// backend that had no metrics is now the last of the backends, and
    /// nothing else differs.
    pub open spec fn recorded_after(
        &self,
        before: &MetricsCollector,
        backend: Seq<char>,
        start: u64,
        status: u16,
        is_error: bool,
        now: u64,
    ) -> bool {
        &&& self.wf()
        &&& self.start_time() == before.start_time()
        &&& self.metrics() == before.metrics().insert(
            backend,
            after_record(before.metrics_or_new(backend), elapsed(now, start) as u64, status, is_error),
        )
        &&& self.backends() == before.backends_with(backend)
        &&& self.tracks(backend)
    }

    /// The metrics that are kept agree with themselves.
    pub proof fn lemma_metrics_wf(&self, backend: Seq<char>)
        requires
            self.wf(),
        ensures
            self.tracks(backend) <==> self.metrics().contains_key(backend),
            self.metrics_or_new(backend).wf(),
            self.backends().no_duplicates(),
    {
        if self.tracks(backend) {
            let i = self.metrics.keys().index_of(backend);
            assert(0 <= i < self.metrics.keys().len() && self.metrics.keys()[i] == backend);
            self.metrics.lemma_index_of(i);
            assert(self.metrics.values()[i]@.wf());
        }
    }

    /// A collector made at `now`, with nothing recorded.
    pub fn new(now: u64) -> (collector: Self)
        ensures
            collector.wf(),
            collector.start_time() == now,
            collector.backends() == Seq::<Seq<char>>::empty(),
            collector.metrics() == Map::<Seq<char>, MetricsState>::empty(),
    {
        let collector = MetricsCollector { metrics: Keyed::new(), start_time: now };
        assert(collector.metrics() =~= Map::<Seq<char>, MetricsState>::empty()) by {
            assert forall|k: Seq<char>| !collector.metrics.contains(k) by {}
        }
        collector
    }

    /// Records the outcome of a request to `backend` that began at `start`
    /// and ended at `now`.
    pub fn record_request(&mut self, backend: &str, start: u64, status: u16, is_error: bool, now: u64)
        requires
            old(self).wf(),
            old(self).metrics_or_new(backend@).total_requests < u64::MAX,
        ensures
            final(self).recorded_after(old(self), backend@, start, status, is_error, now),
    {
        let duration = elapsed_since(now, start);
        let ghost before = self.metrics;
        let ghost seen = |m: RequestMetrics| m@;
        match self.metrics.find(backend) {
            Some(i) => {
                proof {
                    before.lemma_index_of(i as int);
                }
                let kept = self.metrics.value_at_mut(i);
                kept.record(duration, status, is_error);
                proof {
                    before.lemma_mapped_update(&self.metrics, i as int, seen);
                }
            },
            None => {
                let mut fresh = RequestMetrics::new();
                fresh.record(duration, status, is_error);
                self.metrics.push(backend.to_owned(), fresh);
                proof {
                    before.lemma_mapped_push(&self.metrics, backend@, seen);
                    assert(self.metrics.keys().last() == backend@);
                }
            },
        }
    }

    /// How many outcomes were recorded for `backend`.
    pub fn total_requests_of(&self, backend: &str) -> (count: u64)
        requires
            self.wf(),
        ensures
            count == self.metrics_or_new(backend@).total_requests,
    {
        match self.metrics.find(backend) {
            Some(i) => {
                proof {
                    self.metrics.lemma_index_of(i as int);
                }
                self.metrics.value_at(i).total_requests
            },
            None => 0,
        }
    }

    /// A summary of every backend's metrics at `now`, in the order of their
    /// first outcome.
    pub fn get_metrics(&self, now: u64) -> (all: Vec<(String, MetricsSummary)>)
        requires
            self.wf(),
        ensures
            all@.len() == self.backends().len(),
            forall|i: int|
                0 <= i < all@.len() ==> (#[trigger] all@[i]).0@ == self.backends()[i] && all@[i].1@
                    == summary_of(
                    self.metrics()[self.backends()[i]],
                    elapsed(now, self.start_time()) as u64,
                ),
    {
        let uptime = elapsed_since(now, self.start_time);
        let mut all: Vec<(String, MetricsSummary)> = Vec::new();
        let n = self.metrics.len();
        let mut i: usize = 0;
        while i < n
            invariant
                self.wf(),
                n == self.backends().len(),
                i <= n,
                uptime == elapsed(now, self.start_time()),
                all@.len() == i,
                forall|j: int|
                    0 <= j < i ==> (#[trigger] all@[j]).0@ == self.backends()[j] && all@[j].1@
                        == summary_of(self.metrics()[self.backends()[j]], uptime),
            decreases n - i,
        {
            proof {
                self.metrics.lemma_index_of(i as int);
            }
            let name = self.metrics.key_at(i).clone();
            let shown = self.metrics.value_at(i).summarize(uptime);
            all.push((name, shown));
            i += 1;
        }
        all
    }
}

impl Default for RequestMetrics {
    fn default() -> (m: Self)
        ensures
            m@ == no_metrics(),
    {
        RequestMetrics::new()
    }
}

/// An outcome as it is recorded: when the request began, the status, whether
/// it counts as an error, and when it ended.
pub type Outcome = (u64, u16, bool, u64);

/// How many of the outcomes count as errors.
pub open spec fn errors_among(outcomes: Seq<Outcome>) -> nat
    decreases outcomes.len(),
{
    if outcomes.len() == 0 {
        0
    } else if outcomes.last().2 {
        errors_among(outcomes.drop_last()) + 1
    } else {
        errors_among(outcomes.drop_last())
    }
}

/// How many of the outcomes carry the status.
pub open spec fn carrying(outcomes: Seq<Outcome>, status: u16) -> nat
    decreases outcomes.len(),
{
    if outcomes.len() == 0 {
        0
    } else if outcomes.last().1 == status {
        carrying(outcomes.drop_last(), status) + 1
    } else {
        carrying(outcomes.drop_last(), status)
    }
}

/// The states of a collector through outcomes for one backend, one after
/// another: each state follows the one before it by one outcome.
pub open spec fn recorded_in_turn(
    states: Seq<MetricsCollector>,
    backend: Seq<char>,
    outcomes: Seq<Outcome>,
) -> bool {
    &&& states.len() == outcomes.len() + 1
    &&& forall|i: int|
        #![trigger outcomes[i]]
        0 <= i < outcomes.len() ==> states[i + 1].recorded_after(
            &states[i],
            backend,
            outcomes[i].0,
            outcomes[i].1,
            outcomes[i].2,
            outcomes[i].3,
        )
}

/// The counters of a backend that had no metrics after the first `done` of
/// its outcomes.
pub proof fn lemma_recorded_so_far(
    states: Seq<MetricsCollector>,
    backend: Seq<char>,
    outcomes: Seq<Outcome>,
    done: int,
)
    requires
        recorded_in_turn(states, backend, outcomes),
        0 <= done <= outcomes.len() <= u64::MAX,
        states[0].wf(),
        !states[0].tracks(backend),
    ensures
        states[done].wf(),
        errors_among(outcomes.take(done)) <= done,
        forall|status: u16| #[trigger] carrying(outcomes.take(done), status) <= done,
        states[done].metrics_or_new(backend).total_requests == done,
        states[done].metrics_or_new(backend).failed_requests == errors_among(outcomes.take(done)),
        states[done].metrics_or_new(backend).successful_requests == done - errors_among(
            outcomes.take(done),
        ),
        forall|status: u16|
            #[trigger] states[done].metrics_or_new(backend).count(status) == carrying(
                outcomes.take(done),
                status,
            ),
        done >= 1 ==> states[done].tracks(backend) && states[done].backends()
            == states[0].backends().push(backend),
        forall|other: Seq<char>|
            other != backend && states[0].tracks(other) ==> #[trigger] states[done].metrics()[other]
                == states[0].metrics()[other],
    decreases done,
{
    if done == 0 {
        assert(outcomes.take(0) =~= Seq::<Outcome>::empty());
        assert forall|status: u16| #[trigger]
            states[0].metrics_or_new(backend).count(status) == carrying(outcomes.take(0), status) by {}
    } else {
        lemma_recorded_so_far(states, backend, outcomes, done - 1);
        let before = states[done - 1];
        let o = outcomes[done - 1];
        assert(states[done - 1 + 1].recorded_after(&before, backend, o.0, o.1, o.2, o.3));
        assert(outcomes.take(done).drop_last() =~= outcomes.take(done - 1));
        assert(outcomes.take(done).last() == o);
        states[done].lemma_metrics_wf(backend);
        before.lemma_metrics_wf(backend);
        let m = before.metrics_or_new(backend);
        assert forall|status: u16| #[trigger] carrying(outcomes.take(done), status) <= done by {
            assert(carrying(outcomes.take(done - 1), status) <= done - 1);
        }
        assert forall|status: u16| #[trigger]
            states[done].metrics_or_new(backend).count(status) == carrying(
                outcomes.take(done),
                status,
            ) by {
            assert(m.count(status) == carrying(outcomes.take(done - 1), status));
        }
        assert forall|other: Seq<char>| other != backend && states[0].tracks(other) implies #[trigger]
            states[done].metrics()[other] == states[0].metrics()[other] by {
            before.lemma_metrics_wf(other);
        }
    }
}

/// However many outcomes are recorded for a backend that had no metrics,
/// one set of metrics is made for it, and it takes them all in: as many
/// requests as outcomes, as many failures as outcomes that count as errors,
/// the rest successes, and under every status as many as carried it. The
/// backends seen before keep their places and their metrics.
pub proof fn law_outcomes_share_one_set(
    states: Seq<MetricsCollector>,
    backend: Seq<char>,
    outcomes: Seq<Outcome>,
)
    requires
        recorded_in_turn(states, backend, outcomes),
        1 <= outcomes.len() <= u64::MAX,
        states[0].wf(),
        !states[0].tracks(backend),
    ensures
        states.last().backends() == states[0].backends().push(backend),
        states.last().backends().no_duplicates(),
        states.last().metrics()[backend].total_requests == outcomes.len(),
        states.last().metrics()[backend].failed_requests == errors_among(outcomes),
        states.last().metrics()[backend].successful_requests == outcomes.len() - errors_among(
            outcomes,
        ),
        forall|status: u16|
            #[trigger] states.last().metrics()[backend].count(status) == carrying(outcomes, status),
        forall|other: Seq<char>|
            other != backend && states[0].tracks(other) ==> #[trigger] states.last().metrics()[other]
                == states[0].metrics()[other],
{
    lemma_recorded_so_far(states, backend, outcomes, outcomes.len() as int);
    assert(outcomes.take(outcomes.len() as int) =~= outcomes);
    states.last().lemma_metrics_wf(backend);
}

} // verus!
