use crate::clock::{elapsed, elapsed_since};
use crate::keyed::Keyed;
use vstd::prelude::*;

verus! {

/// The three states of a backend's circuit.
#[derive(Clone, Copy, Debug, PartialEq, Eq, Structural)]
pub enum CircuitState {
    /// Requests pass and failures are counted.
    Closed,
    /// Requests are turned away until the reset timeout has passed.
    Open,
    /// Requests pass on trial; the next success closes the circuit.
    HalfOpen,
}

/// When a circuit opens and how long it stays open.
#[derive(Clone, Copy, Debug)]
pub struct CircuitBreakerConfig {
    /// Consecutive failures at which a circuit opens.
    pub failure_threshold: u32,
    /// Nanoseconds after the last failure during which an open circuit turns
    /// requests away.
    pub reset_timeout: u64,
    /// Accepted, and not enforced: a half-open circuit has no expiry of its own.
    pub half_open_timeout: u64,
}

/// What the breaker keeps for one backend.
#[derive(Clone, Copy, Debug)]
pub struct CircuitRecord {
    /// Failures since the circuit last closed from a trial.
    pub failures: u32,
    /// Instant of the last recorded failure, or of the record's creation.
    pub last_failure: u64,
    pub state: CircuitState,
    pub total_requests: u64,
    pub successful_requests: u64,
    pub failed_requests: u64,
}

/// A backend's circuit as reported to an observer.
#[derive(Clone, Copy, Debug)]
pub struct CircuitBreakerMetrics {
    pub state: CircuitState,
    pub total_requests: u64,
    pub successful_requests: u64,
    pub failed_requests: u64,
    pub current_failures: u32,
}

/// The record of a backend that is seen for the first time at `now`.
pub open spec fn new_record(now: u64) -> CircuitRecord {
    CircuitRecord {
        failures: 0,
        last_failure: now,
        state: CircuitState::Closed,
        total_requests: 0,
        successful_requests: 0,
        failed_requests: 0,
    }
}

/// An open circuit whose reset timeout has passed at `now`.
pub open spec fn reset_due(r: CircuitRecord, config: CircuitBreakerConfig, now: u64) -> bool {
    r.state == CircuitState::Open && elapsed(now, r.last_failure) > config.reset_timeout
}

/// Whether a request at `now` passes the circuit.
pub open spec fn admits(r: CircuitRecord, config: CircuitBreakerConfig, now: u64) -> bool {
    r.state != CircuitState::Open || reset_due(r, config, now)
}

/// The record after a request at `now` asked for admission.
pub open spec fn after_admit(r: CircuitRecord, config: CircuitBreakerConfig, now: u64)
    -> CircuitRecord {
    CircuitRecord {
        total_requests: (r.total_requests + 1) as u64,
        state: if reset_due(r, config, now) {
            CircuitState::HalfOpen
        } else {
            r.state
        },
        ..r
    }
}

/// The record after a success was recorded.
pub open spec fn after_success(r: CircuitRecord) -> CircuitRecord {
    if r.state == CircuitState::HalfOpen {
        CircuitRecord {
            successful_requests: (r.successful_requests + 1) as u64,
            state: CircuitState::Closed,
            failures: 0,
            ..r
        }
    } else {
        CircuitRecord { successful_requests: (r.successful_requests + 1) as u64, ..r }
    }
}

/// The record after a failure at `now` was recorded.
pub open spec fn after_failure(r: CircuitRecord, config: CircuitBreakerConfig, now: u64)
    -> CircuitRecord {
    CircuitRecord {
        failed_requests: (r.failed_requests + 1) as u64,
        failures: (r.failures + 1) as u32,
        last_failure: now,
        state: if r.failures + 1 >= config.failure_threshold {
            CircuitState::Open
        } else {
            r.state
        },
        ..r
    }
}

/// What an observer is shown of a record.
pub open spec fn metrics_of(r: CircuitRecord) -> CircuitBreakerMetrics {
    CircuitBreakerMetrics {
        state: r.state,
        total_requests: r.total_requests,
        successful_requests: r.successful_requests,
        failed_requests: r.failed_requests,
        current_failures: r.failures,
    }
}

impl CircuitRecord {
    /// A record for a backend first seen at `now`.
    pub fn new(now: u64) -> (r: CircuitRecord)
        ensures
            r == new_record(now),
    {
        CircuitRecord {
            failures: 0,
            last_failure: now,
            state: CircuitState::Closed,
            total_requests: 0,
            successful_requests: 0,
            failed_requests: 0,
        }
    }

    /// Counts a request at `now` and says whether it passes. An open circuit
    /// whose reset timeout has passed becomes half-open and lets it pass.
    pub fn on_request(&mut self, config: &CircuitBreakerConfig, now: u64) -> (allowed: bool)
        requires
            old(self).total_requests < u64::MAX,
        ensures
            allowed == admits(*old(self), *config, now),
            *final(self) == after_admit(*old(self), *config, now),
    {
        self.total_requests = self.total_requests + 1;
        match self.state {
            CircuitState::Closed => true,
            CircuitState::Open => {
                if elapsed_since(now, self.last_failure) > config.reset_timeout {
                    self.state = CircuitState::HalfOpen;
                    true
                } else {
                    false
                }
            },
            CircuitState::HalfOpen => true,
        }
    }

    /// Counts a success; a half-open circuit closes and forgets its failures.
    pub fn on_success(&mut self)
        requires
            old(self).successful_requests < u64::MAX,
        ensures
            *final(self) == after_success(*old(self)),
    {
        self.successful_requests = self.successful_requests + 1;
        if self.state == CircuitState::HalfOpen {
            self.state = CircuitState::Closed;
            self.failures = 0;
        }
    }

    /// Counts a failure at `now`; the circuit opens once the consecutive
    /// failures reach the threshold.
    pub fn on_failure(&mut self, config: &CircuitBreakerConfig, now: u64)
        requires
            old(self).failed_requests < u64::MAX,
            old(self).failures < u32::MAX,
        ensures
            *final(self) == after_failure(*old(self), *config, now),
    {
        self.failed_requests = self.failed_requests + 1;
        self.failures = self.failures + 1;
        self.last_failure = now;
        if self.failures >= config.failure_threshold {
            self.state = CircuitState::Open;
        }
    }

    /// The record as an observer is shown it.
    pub fn snapshot(&self) -> (m: CircuitBreakerMetrics)
        ensures
            m == metrics_of(*self),
    {
        CircuitBreakerMetrics {
            state: self.state,
            total_requests: self.total_requests,
            successful_requests: self.successful_requests,
            failed_requests: self.failed_requests,
            current_failures: self.failures,
        }
    }
}

/// Per-backend circuits, created when a backend is first asked about.
pub struct CircuitBreaker {
    config: CircuitBreakerConfig,
    metrics: Keyed<CircuitRecord>,
}

impl CircuitBreaker {
    /// The thresholds that the breaker was made with.
    pub closed spec fn config(&self) -> CircuitBreakerConfig {
        self.config
    }

    /// The backends that have a record, in the order of their first request.
    pub closed spec fn backends(&self) -> Seq<Seq<char>> {
        self.metrics.keys()
    }

    /// Every backend has one record.
    pub closed spec fn wf(&self) -> bool {
        self.metrics.wf()
    }

    /// Whether `backend` has a record.
    pub open spec fn tracks(&self, backend: Seq<char>) -> bool {
        self.backends().contains(backend)
    }

    /// The record of each backend that has one.
    pub closed spec fn records(&self) -> Map<Seq<char>, CircuitRecord> {
        self.metrics.mapped(|r: CircuitRecord| r)
    }

    /// The record that a request for `backend` at `now` starts from.
    pub open spec fn record_or_new(&self, backend: Seq<char>, now: u64) -> CircuitRecord {
        if self.tracks(backend) {
            self.records()[backend]
        } else {
            new_record(now)
        }
    }

    /// The backends after `backend` was asked about.
    pub open spec fn backends_with(&self, backend: Seq<char>) -> Seq<Seq<char>> {
        if self.tracks(backend) {
            self.backends()
        } else {
            self.backends().push(backend)
        }
    }

    /// How the breaker stands after a request for `backend` at `now` asked
    /// for admission, given how it stood `before`: the backend's record has
    /// counted the request, a backend that had no record is now the last of
    /// the backends, and nothing else differs.
    pub open spec fn asked_after(&self, before: &CircuitBreaker, backend: Seq<char>, now: u64)
        -> bool {
        &&& self.wf()
        &&& self.config() == before.config()
        &&& self.records() == before.records().insert(
            backend,
            after_admit(before.record_or_new(backend, now), before.config(), now),
        )
        &&& self.backends() == before.backends_with(backend)
        &&& self.tracks(backend)
    }

    /// How the breaker stands after a success for `backend` was recorded at
    /// `now`, given how it stood `before`: the backend's record has counted
    /// the success, a backend that had no record is now the last of the
    /// backends, and nothing else differs.
    pub open spec fn succeeded_after(&self, before: &CircuitBreaker, backend: Seq<char>, now: u64)
        -> bool {
        &&& self.wf()
        &&& self.config() == before.config()
        &&& self.records() == before.records().insert(
            backend,
            after_success(before.record_or_new(backend, now)),
        )
        &&& self.backends() == before.backends_with(backend)
        &&& self.tracks(backend)
    }

    /// How the breaker stands after a failure for `backend` was recorded at
    /// `now`, given how it stood `before`: the backend's record has counted
    /// the failure, a backend that had no record is now the last of the
    /// backends, and nothing else differs.
    pub open spec fn failed_after(&self, before: &CircuitBreaker, backend: Seq<char>, now: u64)
        -> bool {
        &&& self.wf()
        &&& self.config() == before.config()
        &&& self.records() == before.records().insert(
            backend,
            after_failure(before.record_or_new(backend, now), before.config(), now),
        )
        &&& self.backends() == before.backends_with(backend)
        &&& self.tracks(backend)
    }

    /// The backends that have a record are those that `records` maps, and
    /// none of them is listed twice.
    pub proof fn lemma_records_domain(&self)
        requires
            self.wf(),
        ensures
            forall|b: Seq<char>| self.tracks(b) <==> #[trigger] self.records().contains_key(b),
            self.backends().no_duplicates(),
    {
    }

    /// A breaker that has seen no backend.
    pub fn new(config: CircuitBreakerConfig) -> (cb: Self)
        ensures
            cb.wf(),
            cb.config() == config,
            cb.backends() == Seq::<Seq<char>>::empty(),
            cb.records() == Map::<Seq<char>, CircuitRecord>::empty(),
    {
        let cb = CircuitBreaker { config, metrics: Keyed::new() };
        assert(cb.records() =~= Map::<Seq<char>, CircuitRecord>::empty()) by {
            assert forall|k: Seq<char>| !cb.metrics.contains(k) by {}
        }
        cb
    }

    /// Counts a request for `backend` at `now` and says whether it may go
    /// on. A backend seen for the first time gets a fresh record first.
    pub fn pre_request(&mut self, backend: &str, now: u64) -> (allowed: bool)
        requires
            old(self).wf(),
            old(self).record_or_new(backend@, now).total_requests < u64::MAX,
        ensures
            allowed == admits(old(self).record_or_new(backend@, now), old(self).config(), now),
            final(self).asked_after(old(self), backend@, now),
    {
        let ghost before = self.metrics;
        let ghost id = |r: CircuitRecord| r;
        match self.metrics.find(backend) {
            Some(i) => {
                proof {
                    before.lemma_index_of(i as int);
                }
                let config = self.config;
                let record = self.metrics.value_at_mut(i);
                let allowed = record.on_request(&config, now);
                proof {
                    before.lemma_mapped_update(&self.metrics, i as int, id);
                }
                allowed
            },
            None => {
                let mut record = CircuitRecord::new(now);
                let allowed = record.on_request(&self.config, now);
                self.metrics.push(backend.to_owned(), record);
                proof {
                    before.lemma_mapped_push(&self.metrics, backend@, id);
                    assert(self.metrics.keys().last() == backend@);
                }
                allowed
            },
        }
    }

    /// Counts a success for `backend` at `now`. A backend seen for the first
    /// time gets a fresh record first.
    pub fn record_success(&mut self, backend: &str, now: u64)
        requires
            old(self).wf(),
            old(self).record_or_new(backend@, now).successful_requests < u64::MAX,
        ensures
            final(self).succeeded_after(old(self), backend@, now),
    {
        let ghost before = self.metrics;
        let ghost id = |r: CircuitRecord| r;
        match self.metrics.find(backend) {
            Some(i) => {
                proof {
                    before.lemma_index_of(i as int);
                }
                let record = self.metrics.value_at_mut(i);
                record.on_success();
                proof {
                    before.lemma_mapped_update(&self.metrics, i as int, id);
                }
            },
            None => {
                let mut record = CircuitRecord::new(now);
                record.on_success();
                self.metrics.push(backend.to_owned(), record);
                proof {
                    before.lemma_mapped_push(&self.metrics, backend@, id);
                    assert(self.metrics.keys().last() == backend@);
                }
            },
        }
    }

    /// Counts a failure for `backend` at `now`; the circuit opens once the
    /// consecutive failures reach the threshold. A backend seen for the first
    /// time gets a fresh record first.
    pub fn record_failure(&mut self, backend: &str, now: u64)
        requires
            old(self).wf(),
            old(self).record_or_new(backend@, now).failed_requests < u64::MAX,
            old(self).record_or_new(backend@, now).failures < u32::MAX,
        ensures
            final(self).failed_after(old(self), backend@, now),
    {
        let ghost before = self.metrics;
        let ghost id = |r: CircuitRecord| r;
        match self.metrics.find(backend) {
            Some(i) => {
                proof {
                    before.lemma_index_of(i as int);
                }
                let config = self.config;
                let record = self.metrics.value_at_mut(i);
                record.on_failure(&config, now);
                proof {
                    before.lemma_mapped_update(&self.metrics, i as int, id);
                }
            },
            None => {
                let mut record = CircuitRecord::new(now);
                record.on_failure(&self.config, now);
                self.metrics.push(backend.to_owned(), record);
                proof {
                    before.lemma_mapped_push(&self.metrics, backend@, id);
                    assert(self.metrics.keys().last() == backend@);
                }
            },
        }
    }

    /// What is kept for `backend`, if it has a record.
    pub fn get_backend_metrics(&self, backend: &str) -> (m: Option<CircuitBreakerMetrics>)
        requires
            self.wf(),
        ensures
            m == if self.tracks(backend@) {
                Some(metrics_of(self.records()[backend@]))
            } else {
                None
            },
    {
        match self.metrics.find(backend) {
            Some(i) => {
                proof {
                    self.metrics.lemma_index_of(i as int);
                }
                Some(self.metrics.value_at(i).snapshot())
            },
            None => None,
        }
    }

    /// A copy of every backend's record, in the order of their first request.
    pub fn get_metrics(&self) -> (all: Vec<(String, CircuitBreakerMetrics)>)
        requires
            self.wf(),
        ensures
            all@.len() == self.backends().len(),
            forall|i: int|
                0 <= i < all@.len() ==> (#[trigger] all@[i]).0@ == self.backends()[i] && all@[i].1
                    == metrics_of(self.records()[self.backends()[i]]),
    {
        let mut all: Vec<(String, CircuitBreakerMetrics)> = Vec::new();
        let n = self.metrics.len();
        let mut i: usize = 0;
        while i < n
            invariant
                self.wf(),
                n == self.backends().len(),
                i <= n,
                all@.len() == i,
                forall|j: int|
                    0 <= j < i ==> (#[trigger] all@[j]).0@ == self.backends()[j] && all@[j].1
                        == metrics_of(self.records()[self.backends()[j]]),
            decreases n - i,
        {
            proof {
                self.metrics.lemma_index_of(i as int);
            }
            let name = self.metrics.key_at(i).clone();
            let shown = self.metrics.value_at(i).snapshot();
            all.push((name, shown));
            i += 1;
        }
        all
    }
}

/// The record after failures at each of `times`, in turn.
pub open spec fn after_failures(r: CircuitRecord, config: CircuitBreakerConfig, times: Seq<u64>)
    -> CircuitRecord
    decreases times.len(),
{
    if times.len() == 0 {
        r
    } else {
        after_failure(after_failures(r, config, times.drop_last(), ), config, times.last())
    }
}

/// A run of failures adds to the count of consecutive failures, stamps the
/// record with the last one, and leaves the circuit open if the count has
/// reached the threshold.
pub proof fn lemma_after_failures(r: CircuitRecord, config: CircuitBreakerConfig, times: Seq<u64>)
    requires
        times.len() > 0,
        r.failures + times.len() <= u32::MAX,
    ensures
        after_failures(r, config, times).failures == r.failures + times.len(),
        after_failures(r, config, times).last_failure == times.last(),
        r.failures + times.len() >= config.failure_threshold ==> after_failures(
            r,
            config,
            times,
        ).state == CircuitState::Open,
    decreases times.len(),
{
    if times.len() > 1 {
        lemma_after_failures(r, config, times.drop_last());
    } else {
        assert(times.drop_last().len() == 0);
        assert(after_failures(r, config, times.drop_last()) == r);
    }
}

/// As many failures in a row as the threshold asks for open the circuit,
/// whatever state it was in. While the reset timeout has not passed since
/// the last of them, a request is turned away and changes nothing but the
/// request count, so the next one meets the same circuit. The first request
/// after the timeout passes, on trial; one success then closes the circuit,
/// sets the consecutive failures to zero, and requests pass again, while a
/// failure on trial opens the circuit once more.
pub proof fn law_trip_and_recover(
    r: CircuitRecord,
    config: CircuitBreakerConfig,
    times: Seq<u64>,
    early: u64,
    late: u64,
    again: u64,
)
    requires
        config.failure_threshold >= 1,
        times.len() == config.failure_threshold,
        r.failures + times.len() <= u32::MAX,
        elapsed(early, times.last()) <= config.reset_timeout,
        elapsed(late, times.last()) > config.reset_timeout,
    ensures
        ({
            let tripped = after_failures(r, config, times);
            let waiting = after_admit(tripped, config, early);
            let trial = after_admit(waiting, config, late);
            let healed = after_success(trial);
            &&& tripped.state == CircuitState::Open
            &&& !admits(tripped, config, early)
            &&& waiting == CircuitRecord { total_requests: waiting.total_requests, ..tripped }
            &&& admits(waiting, config, late)
            &&& trial.state == CircuitState::HalfOpen
            &&& healed.state == CircuitState::Closed
            &&& healed.failures == 0
            &&& admits(healed, config, again)
            &&& after_failure(trial, config, again).state == CircuitState::Open
        }),
{
    lemma_after_failures(r, config, times);
}

/// While the reset timeout has not passed since the last failure, an open
/// circuit turns a request away and stays as it is but for the request
/// count, so that the same holds of the next request.
pub proof fn law_open_refuses(r: CircuitRecord, config: CircuitBreakerConfig, now: u64)
    requires
        r.state == CircuitState::Open,
        elapsed(now, r.last_failure) <= config.reset_timeout,
    ensures
        !admits(r, config, now),
        after_admit(r, config, now) == (CircuitRecord {
            total_requests: after_admit(r, config, now).total_requests,
            ..r
        }),
        r.total_requests < u64::MAX ==> after_admit(r, config, now).total_requests
            == r.total_requests + 1,
{
}

/// Once the reset timeout has passed since the last failure, an open
/// circuit lets a request pass and becomes half-open; the count of
/// consecutive failures stays.
pub proof fn law_reset_admits(r: CircuitRecord, config: CircuitBreakerConfig, now: u64)
    requires
        r.state == CircuitState::Open,
        elapsed(now, r.last_failure) > config.reset_timeout,
    ensures
        admits(r, config, now),
        after_admit(r, config, now).state == CircuitState::HalfOpen,
        after_admit(r, config, now).failures == r.failures,
        after_admit(r, config, now).last_failure == r.last_failure,
        r.total_requests < u64::MAX ==> after_admit(r, config, now).total_requests
            == r.total_requests + 1,
{
}

/// The failure that brings the consecutive failures of a closed circuit to
/// the threshold opens it, is counted, and is stamped with its instant.
pub proof fn law_threshold_opens(r: CircuitRecord, config: CircuitBreakerConfig, now: u64)
    requires
        config.failure_threshold >= 1,
        r.state == CircuitState::Closed,
        r.failures == config.failure_threshold - 1,
        r.failed_requests < u64::MAX,
    ensures
        after_failure(r, config, now).state == CircuitState::Open,
        after_failure(r, config, now).failures == config.failure_threshold,
        after_failure(r, config, now).failed_requests == r.failed_requests + 1,
        after_failure(r, config, now).last_failure == now,
{
}

/// A success on trial closes the circuit, sets the consecutive failures to
/// zero and is counted; the next request passes.
pub proof fn law_trial_success_closes(r: CircuitRecord, config: CircuitBreakerConfig, next: u64)
    requires
        r.state == CircuitState::HalfOpen,
        r.successful_requests < u64::MAX,
    ensures
        after_success(r).state == CircuitState::Closed,
        after_success(r).failures == 0,
        after_success(r).successful_requests == r.successful_requests + 1,
        admits(after_success(r), config, next),
{
}

/// The states of a breaker through requests for one backend at `times`,
/// one after another: each state follows the one before it by one request.
pub open spec fn asked_in_turn(states: Seq<CircuitBreaker>, backend: Seq<char>, times: Seq<u64>)
    -> bool {
    &&& states.len() == times.len() + 1
    &&& forall|i: int|
        #![trigger times[i]]
        0 <= i < times.len() ==> states[i + 1].asked_after(&states[i], backend, times[i])
}

/// However many requests come for a backend that had no record, one record
/// is made for it, and it counts them all: every one of them passes, the
/// circuit stays closed, and the backends seen before keep their places.
pub proof fn law_requests_share_one_record(
    states: Seq<CircuitBreaker>,
    backend: Seq<char>,
    times: Seq<u64>,
)
    requires
        asked_in_turn(states, backend, times),
        times.len() >= 1,
        times.len() <= u64::MAX,
        states[0].wf(),
        !states[0].tracks(backend),
    ensures
        states.last().backends() == states[0].backends().push(backend),
        states.last().backends().no_duplicates(),
        states.last().records()[backend] == (CircuitRecord {
            total_requests: times.len() as u64,
            ..new_record(times[0])
        }),
        forall|i: int|
            #![trigger times[i]]
            0 <= i < times.len() ==> admits(
                states[i].record_or_new(backend, times[i]),
                states[0].config(),
                times[i],
            ),
        forall|other: Seq<char>|
            other != backend && states[0].tracks(other) ==> #[trigger] states.last().records()[other]
                == states[0].records()[other],
    decreases times.len(),
{
    let n = times.len() as int;
    let last = states[n];
    let at = times[n - 1];
    assert(states[n - 1 + 1].asked_after(&states[n - 1], backend, at));
    last.lemma_records_domain();
    if n == 1 {
        states[0].lemma_records_domain();
    } else {
        let fewer = states.drop_last();
        let earlier = times.drop_last();
        assert forall|i: int| #![trigger earlier[i]] 0 <= i < earlier.len() implies fewer[i
            + 1].asked_after(&fewer[i], backend, earlier[i]) by {
            let t = times[i];
            assert(states[i + 1].asked_after(&states[i], backend, t));
        }
        law_requests_share_one_record(fewer, backend, earlier);
        assert(fewer.last() == states[n - 1]);
        let before = times[n - 2];
        assert(states[n - 2 + 1].asked_after(&states[n - 2], backend, before));
        states[n - 1].lemma_records_domain();
        assert(states[n - 1].backends().last() == backend);
        assert(states[n - 1].tracks(backend));
        assert forall|i: int| #![trigger times[i]] 0 <= i < times.len() implies admits(
            states[i].record_or_new(backend, times[i]),
            states[0].config(),
            times[i],
        ) by {
            if i < n - 1 {
                assert(fewer[i] == states[i] && earlier[i] == times[i]);
            }
        }
    }
}

/// The states of a breaker through failures of one backend at `times`, one
/// after another: each state follows the one before it by one failure.
pub open spec fn failed_in_turn(states: Seq<CircuitBreaker>, backend: Seq<char>, times: Seq<u64>)
    -> bool {
    &&& states.len() == times.len() + 1
    &&& forall|i: int|
        #![trigger times[i]]
        0 <= i < times.len() ==> states[i + 1].failed_after(&states[i], backend, times[i])
}

/// As many failures in a row as the threshold asks for open the circuit of
/// any backend, also of one that had no record before the first of them;
/// and while the reset timeout has not passed since the last of them, a
/// request for the backend is turned away.
pub proof fn law_failures_open_the_circuit(
    states: Seq<CircuitBreaker>,
    backend: Seq<char>,
    times: Seq<u64>,
    early: u64,
)
    requires
        failed_in_turn(states, backend, times),
        times.len() >= 1,
        states[0].wf(),
        states[0].record_or_new(backend, times[0]).failures + times.len() <= u32::MAX,
        elapsed(early, times.last()) <= states[0].config().reset_timeout,
    ensures
        states.last().config() == states[0].config(),
        states.last().tracks(backend),
        states.last().records()[backend] == after_failures(
            states[0].record_or_new(backend, times[0]),
            states[0].config(),
            times,
        ),
        times.len() >= states[0].config().failure_threshold ==> {
            &&& states.last().records()[backend].state == CircuitState::Open
            &&& !admits(
                states.last().record_or_new(backend, early),
                states.last().config(),
                early,
            )
        },
    decreases times.len(),
{
    let n = times.len() as int;
    let start = states[0].record_or_new(backend, times[0]);
    let config = states[0].config();
    let at = times[n - 1];
    assert(states[n - 1 + 1].failed_after(&states[n - 1], backend, at));
    states[n].lemma_records_domain();
    lemma_after_failures(start, config, times);
    if n == 1 {
        assert(times.drop_last().len() == 0);
        assert(after_failures(start, config, times.drop_last()) == start);
    } else {
        let fewer = states.drop_last();
        let earlier = times.drop_last();
        assert forall|i: int| #![trigger earlier[i]] 0 <= i < earlier.len() implies fewer[i
            + 1].failed_after(&fewer[i], backend, earlier[i]) by {
            let t = times[i];
            assert(states[i + 1].failed_after(&states[i], backend, t));
        }
        assert(earlier[0] == times[0]);
        law_failures_open_the_circuit(fewer, backend, earlier, earlier.last());
        assert(fewer.last() == states[n - 1]);
    }
}

} // verus!
