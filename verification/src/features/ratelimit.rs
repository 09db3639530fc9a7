use crate::clock::{elapsed, elapsed_since, NANOS_PER_SECOND};
use crate::keyed::Keyed;
use vstd::prelude::*;

verus! {

/// How many requests a client may make in how long a window.
#[derive(Clone, Copy, Debug)]
pub struct RateLimitConfig {
    /// The most requests that one client may have inside its window.
    pub requests_per_second: u32,
    /// Accepted, and not enforced.
    pub burst_size: u32,
    /// Length of the rolling window, in seconds.
    pub window_seconds: u64,
}

/// What the limiter keeps for one client, as contracts speak of it.
pub struct WindowState {
    /// Instants of the admitted requests that were inside the window at the
    /// last check, oldest first.
    pub stamps: Seq<u64>,
    pub total_requests: u64,
    pub blocked_requests: u64,
}

/// What the limiter keeps for one client.
#[derive(Debug)]
pub struct RequestWindow {
    timestamps: Vec<u64>,
    total_requests: u64,
    blocked_requests: u64,
}

/// A client's window as reported to an observer.
#[derive(Clone, Copy, Debug)]
pub struct RateLimitAnalytics {
    pub total_requests: u64,
    pub blocked_requests: u64,
    pub current_window_requests: u64,
}

/// Length of the window in nanoseconds.
pub open spec fn window_nanos(config: RateLimitConfig) -> int {
    config.window_seconds * NANOS_PER_SECOND
}

/// Whether a request admitted at `stamp` still counts at `now`: it is no
/// older than the window is long.
pub open spec fn in_window(config: RateLimitConfig, now: u64, stamp: u64) -> bool {
    elapsed(now, stamp) <= window_nanos(config)
}

/// The stamps that still count at `now`: those older than the window are
/// left out.
pub open spec fn kept(stamps: Seq<u64>, config: RateLimitConfig, now: u64) -> Seq<u64> {
    stamps.filter(|stamp: u64| in_window(config, now, stamp))
}

/// The window of a client that has made no request.
pub open spec fn empty_window() -> WindowState {
    WindowState { stamps: Seq::empty(), total_requests: 0, blocked_requests: 0 }
}

/// Whether a request at `now` is admitted.
pub open spec fn admits(w: WindowState, config: RateLimitConfig, now: u64) -> bool {
    kept(w.stamps, config, now).len() < config.requests_per_second
}

/// The window after a request at `now` was checked.
pub open spec fn after_check(w: WindowState, config: RateLimitConfig, now: u64) -> WindowState {
    if admits(w, config, now) {
        WindowState {
            stamps: kept(w.stamps, config, now).push(now),
            total_requests: (w.total_requests + 1) as u64,
            blocked_requests: w.blocked_requests,
        }
    } else {
        WindowState {
            stamps: kept(w.stamps, config, now),
            total_requests: w.total_requests,
            blocked_requests: (w.blocked_requests + 1) as u64,
        }
    }
}

/// Whether the counter that a request at `now` adds to can take one more:
/// the admitted requests if it is admitted, the blocked ones if not.
pub open spec fn has_room(w: WindowState, config: RateLimitConfig, now: u64) -> bool {
    if admits(w, config, now) {
        w.total_requests < u64::MAX
    } else {
        w.blocked_requests < u64::MAX
    }
}

/// Whether the window holds no more stamps than the cap allows.
pub open spec fn within_cap(w: WindowState, config: RateLimitConfig) -> bool {
    w.stamps.len() <= config.requests_per_second
}

/// What an observer is shown of a window.
pub open spec fn analytics_of(w: WindowState) -> RateLimitAnalytics {
    RateLimitAnalytics {
        total_requests: w.total_requests,
        blocked_requests: w.blocked_requests,
        current_window_requests: w.stamps.len() as u64,
    }
}

impl View for RequestWindow {
    type V = WindowState;

    closed spec fn view(&self) -> WindowState {
        WindowState {
            stamps: self.timestamps@,
            total_requests: self.total_requests,
            blocked_requests: self.blocked_requests,
        }
    }
}

/// Whether a request admitted at `stamp` still counts at `now`.
pub fn stamp_in_window(config: &RateLimitConfig, now: u64, stamp: u64) -> (fresh: bool)
    ensures
        fresh == in_window(*config, now, stamp),
{
    let window: u128 = config.window_seconds as u128 * NANOS_PER_SECOND as u128;
    (elapsed_since(now, stamp) as u128) <= window
}

impl RequestWindow {
    /// The window of a client that has made no request.
    pub fn new() -> (w: Self)
        ensures
            w@ == empty_window(),
    {
        RequestWindow { timestamps: Vec::new(), total_requests: 0, blocked_requests: 0 }
    }

    /// Drops the stamps that have left the window at `now`.
    fn prune(&mut self, config: &RateLimitConfig, now: u64)
        ensures
            final(self)@ == (WindowState { stamps: kept(old(self)@.stamps, *config, now), ..old(self)@ }),
    {
        let ghost all = self.timestamps@;
        let ghost fresh = |stamp: u64| in_window(*config, now, stamp);
        let mut left: Vec<u64> = Vec::new();
        let n = self.timestamps.len();
        let mut i: usize = 0;
        proof {
            assert(all.take(0) =~= Seq::<u64>::empty());
            Seq::<u64>::empty().lemma_filter_len(fresh);
        }
        while i < n
            invariant
                self.timestamps@ == all,
                n == all.len(),
                i <= n,
                fresh == |stamp: u64| in_window(*config, now, stamp),
                left@ == all.take(i as int).filter(fresh),
            decreases n - i,
        {
            let stamp = self.timestamps[i];
            proof {
                assert(all.take(i + 1) =~= all.take(i as int).push(stamp));
                all.take(i as int).lemma_filter_push(stamp, fresh);
            }
            if stamp_in_window(config, now, stamp) {
                left.push(stamp);
            }
            i += 1;
        }
        proof {
            assert(all.take(n as int) =~= all);
        }
        self.timestamps = left;
    }

    /// Whether a request at `now` would be admitted, and whether the counter
    /// that it would add to can take one more. Nothing is changed.
    pub fn preview(&self, config: &RateLimitConfig, now: u64) -> (seen: (bool, bool))
        ensures
            seen.0 == admits(self@, *config, now),
            seen.1 == has_room(self@, *config, now),
    {
        let ghost all = self.timestamps@;
        let ghost fresh = |stamp: u64| in_window(*config, now, stamp);
        let n = self.timestamps.len();
        let mut count: usize = 0;
        let mut i: usize = 0;
        proof {
            assert(all.take(0) =~= Seq::<u64>::empty());
            Seq::<u64>::empty().lemma_filter_len(fresh);
        }
        while i < n
            invariant
                self.timestamps@ == all,
                n == all.len(),
                i <= n,
                fresh == |stamp: u64| in_window(*config, now, stamp),
                count == all.take(i as int).filter(fresh).len(),
                count <= i,
            decreases n - i,
        {
            let stamp = self.timestamps[i];
            proof {
                assert(all.take(i + 1) =~= all.take(i as int).push(stamp));
                all.take(i as int).lemma_filter_push(stamp, fresh);
            }
            if stamp_in_window(config, now, stamp) {
                count += 1;
            }
            i += 1;
        }
        proof {
            assert(all.take(n as int) =~= all);
        }
        let admitted = count < config.requests_per_second as usize;
        let room = if admitted {
            self.total_requests < u64::MAX
        } else {
            self.blocked_requests < u64::MAX
        };
        (admitted, room)
    }

    /// Checks a request at `now` against the cap and counts it.
    pub fn check(&mut self, config: &RateLimitConfig, now: u64) -> (allowed: bool)
        requires
            has_room(old(self)@, *config, now),
        ensures
            allowed == admits(old(self)@, *config, now),
            final(self)@ == after_check(old(self)@, *config, now),
            within_cap(old(self)@, *config) ==> within_cap(final(self)@, *config),
    {
        proof {
            old(self)@.stamps.lemma_filter_len(|stamp: u64| in_window(*config, now, stamp));
        }
        self.prune(config, now);
        if self.timestamps.len() >= config.requests_per_second as usize {
            self.blocked_requests = self.blocked_requests + 1;
            false
        } else {
            self.timestamps.push(now);
            self.total_requests = self.total_requests + 1;
            true
        }
    }

    /// The window as an observer is shown it.
    pub fn snapshot(&self) -> (a: RateLimitAnalytics)
        ensures
            a == analytics_of(self@),
    {
        RateLimitAnalytics {
            total_requests: self.total_requests,
            blocked_requests: self.blocked_requests,
            current_window_requests: self.timestamps.len() as u64,
        }
    }
}

/// Per-client sliding windows, created when a client is first seen.
pub struct RateLimiter {
    config: RateLimitConfig,
    windows: Keyed<RequestWindow>,
}

impl RateLimiter {
    /// The limits that the limiter was made with.
    pub closed spec fn config(&self) -> RateLimitConfig {
        self.config
    }

    /// The clients that have a window, in the order of their first request.
    pub closed spec fn clients(&self) -> Seq<Seq<char>> {
        self.windows.keys()
    }

    /// Every client has one window, and no window holds more stamps than the
    /// cap allows.
    pub closed spec fn wf(&self) -> bool {
        &&& self.windows.wf()
        &&& forall|i: int|
            0 <= i < self.windows.values().len() ==> within_cap(
                (#[trigger] self.windows.values()[i])@,
                self.config,
            )
    }

    /// Whether `client` has a window.
    pub open spec fn tracks(&self, client: Seq<char>) -> bool {
        self.clients().contains(client)
    }

    /// The window of each client that has one.
    pub closed spec fn windows(&self) -> Map<Seq<char>, WindowState> {
        self.windows.mapped(|w: RequestWindow| w@)
    }

    /// The window that a request of `client` starts from.
    pub open spec fn window_or_new(&self, client: Seq<char>) -> WindowState {
        if self.tracks(client) {
            self.windows()[client]
        } else {
            empty_window()
        }
    }

    /// The clients after `client` made a request.
    pub open spec fn clients_with(&self, client: Seq<char>) -> Seq<Seq<char>> {
        if self.tracks(client) {
            self.clients()
        } else {
            self.clients().push(client)
        }
    }

    /// How the limiter stands after a request of `client` at `now` was
    /// checked, given how it stood `before`: the client's window has taken
    /// the request in, a client that was not yet seen is now the last of
    /// the clients, and nothing else differs.
    pub open spec fn checked_after(&self, before: &RateLimiter, client: Seq<char>, now: u64)
        -> bool {
        &&& self.wf()
        &&& self.config() == before.config()
        &&& self.windows() == before.windows().insert(
            client,
            after_check(before.window_or_new(client), before.config(), now),
        )
        &&& self.clients() == before.clients_with(client)
        &&& self.tracks(client)
    }

    /// The clients that have a window are those that `windows` maps, none of
    /// them is listed twice, and none has more stamps than the cap allows.
    pub proof fn lemma_windows_domain(&self)
        requires
            self.wf(),
        ensures
            forall|c: Seq<char>| self.tracks(c) <==> #[trigger] self.windows().contains_key(c),
            self.clients().no_duplicates(),
            forall|c: Seq<char>|
                self.tracks(c) ==> within_cap(#[trigger] self.windows()[c], self.config()),
    {
        assert forall|c: Seq<char>| self.tracks(c) implies within_cap(
            #[trigger] self.windows()[c],
            self.config(),
        ) by {
            let i = self.windows.keys().index_of(c);
            assert(0 <= i < self.windows.keys().len() && self.windows.keys()[i] == c);
            self.windows.lemma_index_of(i);
        }
    }

    /// A limiter that has seen no client.
    pub fn new(config: RateLimitConfig) -> (limiter: Self)
        ensures
            limiter.wf(),
            limiter.config() == config,
            limiter.clients() == Seq::<Seq<char>>::empty(),
            limiter.windows() == Map::<Seq<char>, WindowState>::empty(),
    {
        let limiter = RateLimiter { config, windows: Keyed::new() };
        assert(limiter.windows() =~= Map::<Seq<char>, WindowState>::empty()) by {
            assert forall|k: Seq<char>| !limiter.windows.contains(k) by {}
        }
        limiter
    }

    /// Checks a request of client `ip` at `now`: the stamps that have left the
    /// window are dropped, and the request is admitted and stamped if fewer
    /// stamps than the cap remain, else counted as blocked. A client seen for
    /// the first time gets an empty window first.
    pub fn check_rate_limit(&mut self, ip: &str, now: u64) -> (allowed: bool)
        requires
            old(self).wf(),
            has_room(old(self).window_or_new(ip@), old(self).config(), now),
        ensures
            allowed == admits(old(self).window_or_new(ip@), old(self).config(), now),
            final(self).checked_after(old(self), ip@, now),
    {
        let ghost before = self.windows;
        let ghost seen = |w: RequestWindow| w@;
        match self.windows.find(ip) {
            Some(i) => {
                proof {
                    before.lemma_index_of(i as int);
                }
                let config = self.config;
                let window = self.windows.value_at_mut(i);
                let allowed = window.check(&config, now);
                proof {
                    before.lemma_mapped_update(&self.windows, i as int, seen);
                }
                allowed
            },
            None => {
                let mut window = RequestWindow::new();
                let allowed = window.check(&self.config, now);
                self.windows.push(ip.to_owned(), window);
                proof {
                    before.lemma_mapped_push(&self.windows, ip@, seen);
                    assert(self.windows.keys().last() == ip@);
                }
                allowed
            },
        }
    }

    /// Whether a request of client `ip` at `now` would be admitted, and
    /// whether the counter that it would add to can take one more. Nothing
    /// is changed.
    pub fn preview(&self, ip: &str, now: u64) -> (seen: (bool, bool))
        requires
            self.wf(),
        ensures
            seen.0 == admits(self.window_or_new(ip@), self.config(), now),
            seen.1 == has_room(self.window_or_new(ip@), self.config(), now),
    {
        match self.windows.find(ip) {
            Some(i) => {
                proof {
                    self.windows.lemma_index_of(i as int);
                }
                self.windows.value_at(i).preview(&self.config, now)
            },
            None => RequestWindow::new().preview(&self.config, now),
        }
    }

    /// What is kept for client `ip`, if it has a window.
    pub fn get_client_analytics(&self, ip: &str) -> (a: Option<RateLimitAnalytics>)
        requires
            self.wf(),
        ensures
            a == if self.tracks(ip@) {
                Some(analytics_of(self.windows()[ip@]))
            } else {
                None
            },
    {
        match self.windows.find(ip) {
            Some(i) => {
                proof {
                    self.windows.lemma_index_of(i as int);
                }
                Some(self.windows.value_at(i).snapshot())
            },
            None => None,
        }
    }

    /// A copy of every client's counters, in the order of their first request.
    pub fn get_analytics(&self) -> (all: Vec<(String, RateLimitAnalytics)>)
        requires
            self.wf(),
        ensures
            all@.len() == self.clients().len(),
            forall|i: int|
                0 <= i < all@.len() ==> (#[trigger] all@[i]).0@ == self.clients()[i] && all@[i].1
                    == analytics_of(self.windows()[self.clients()[i]]),
    {
        let mut all: Vec<(String, RateLimitAnalytics)> = Vec::new();
        let n = self.windows.len();
        let mut i: usize = 0;
        while i < n
            invariant
                self.wf(),
                n == self.clients().len(),
                i <= n,
                all@.len() == i,
                forall|j: int|
                    0 <= j < i ==> (#[trigger] all@[j]).0@ == self.clients()[j] && all@[j].1
                        == analytics_of(self.windows()[self.clients()[j]]),
            decreases n - i,
        {
            proof {
                self.windows.lemma_index_of(i as int);
            }
            let name = self.windows.key_at(i).clone();
            let shown = self.windows.value_at(i).snapshot();
            all.push((name, shown));
            i += 1;
        }
        all
    }
}

/// The window after requests at each of `times`, in turn.
pub open spec fn after_checks(w: WindowState, config: RateLimitConfig, times: Seq<u64>)
    -> WindowState
    decreases times.len(),
{
    if times.len() == 0 {
        w
    } else {
        after_check(after_checks(w, config, times.drop_last()), config, times.last())
    }
}

/// Stamps that are all inside the window are all kept.
pub proof fn lemma_kept_all(stamps: Seq<u64>, config: RateLimitConfig, now: u64)
    requires
        forall|i: int| 0 <= i < stamps.len() ==> in_window(config, now, #[trigger] stamps[i]),
    ensures
        kept(stamps, config, now) == stamps,
    decreases stamps.len(),
{
    let fresh = |stamp: u64| in_window(config, now, stamp);
    if stamps.len() == 0 {
        stamps.lemma_filter_len(fresh);
        assert(kept(stamps, config, now) =~= stamps);
    } else {
        let front = stamps.drop_last();
        assert forall|i: int| 0 <= i < front.len() implies in_window(
            config,
            now,
            #[trigger] front[i],
        ) by {
            assert(front[i] == stamps[i]);
        }
        lemma_kept_all(front, config, now);
        front.lemma_filter_push(stamps.last(), fresh);
        assert(front.push(stamps.last()) =~= stamps);
    }
}

/// A stamp that has left the window makes the kept stamps fewer.
pub proof fn lemma_kept_fewer(stamps: Seq<u64>, config: RateLimitConfig, now: u64, gone: int)
    requires
        0 <= gone < stamps.len(),
        !in_window(config, now, stamps[gone]),
    ensures
        kept(stamps, config, now).len() < stamps.len(),
    decreases stamps.len(),
{
    let fresh = |stamp: u64| in_window(config, now, stamp);
    let front = stamps.drop_last();
    front.lemma_filter_push(stamps.last(), fresh);
    assert(front.push(stamps.last()) =~= stamps);
    if gone == stamps.len() - 1 {
        front.lemma_filter_len(fresh);
    } else {
        assert(front[gone] == stamps[gone]);
        lemma_kept_fewer(front, config, now, gone);
    }
}

/// Requests of a new client that come no more than the cap allows, each
/// while all the earlier ones are inside its window, are all admitted, and
/// their instants are the window's stamps.
pub proof fn lemma_fill(config: RateLimitConfig, times: Seq<u64>)
    requires
        times.len() <= config.requests_per_second,
        forall|i: int, j: int|
            0 <= i < j < times.len() ==> in_window(config, #[trigger] times[j], #[trigger] times[i]),
    ensures
        after_checks(empty_window(), config, times).stamps == times,
        after_checks(empty_window(), config, times).blocked_requests == 0,
        after_checks(empty_window(), config, times).total_requests == times.len(),
        forall|n: int|
            0 <= n < times.len() ==> admits(
                #[trigger] after_checks(empty_window(), config, times.take(n)),
                config,
                times[n],
            ),
    decreases times.len(),
{
    if times.len() == 0 {
        assert(after_checks(empty_window(), config, times).stamps =~= times);
    } else {
        let front = times.drop_last();
        let now = times.last();
        assert forall|i: int, j: int| 0 <= i < j < front.len() implies in_window(
            config,
            #[trigger] front[j],
            #[trigger] front[i],
        ) by {
            assert(front[i] == times[i] && front[j] == times[j]);
        }
        lemma_fill(config, front);
        let w = after_checks(empty_window(), config, front);
        assert forall|i: int| 0 <= i < front.len() implies in_window(
            config,
            now,
            #[trigger] front[i],
        ) by {
            assert(front[i] == times[i]);
            assert(now == times[times.len() - 1]);
        }
        lemma_kept_all(front, config, now);
        assert(front.push(now) =~= times);
        assert forall|n: int| 0 <= n < times.len() implies admits(
            #[trigger] after_checks(empty_window(), config, times.take(n)),
            config,
            times[n],
        ) by {
            if n < front.len() {
                assert(times.take(n) =~= front.take(n));
                assert(times[n] == front[n]);
            } else {
                assert(times.take(n) =~= front);
            }
        }
    }
}

/// With a cap of K requests per window, K requests of a new client that fall
/// inside one window are admitted and the next one inside it is denied; once
/// the first admitted request has left the window, a request is admitted
/// again.
pub proof fn law_window_cap(config: RateLimitConfig, times: Seq<u64>, extra: u64, later: u64)
    requires
        times.len() == config.requests_per_second,
        config.requests_per_second >= 1,
        forall|i: int, j: int|
            0 <= i < j < times.len() ==> in_window(config, #[trigger] times[j], #[trigger] times[i]),
        forall|i: int| 0 <= i < times.len() ==> in_window(config, extra, #[trigger] times[i]),
        !in_window(config, later, times[0]),
    ensures
        forall|n: int|
            0 <= n < times.len() ==> admits(
                #[trigger] after_checks(empty_window(), config, times.take(n)),
                config,
                times[n],
            ),
        !admits(after_checks(empty_window(), config, times), config, extra),
        admits(
            after_check(after_checks(empty_window(), config, times), config, extra),
            config,
            later,
        ),
{
    lemma_fill(config, times);
    lemma_kept_all(times, config, extra);
    lemma_kept_fewer(times, config, later, 0);
}

/// With as many stamps as the cap allows, all inside the window, a request
/// is denied: it is counted as blocked and takes no place in the window.
pub proof fn law_full_window_denies(w: WindowState, config: RateLimitConfig, now: u64)
    requires
        w.stamps.len() >= config.requests_per_second,
        forall|i: int| 0 <= i < w.stamps.len() ==> in_window(config, now, #[trigger] w.stamps[i]),
        w.blocked_requests < u64::MAX,
    ensures
        !admits(w, config, now),
        after_check(w, config, now) == (WindowState {
            blocked_requests: (w.blocked_requests + 1) as u64,
            ..w
        }),
{
    lemma_kept_all(w.stamps, config, now);
}

/// Once a stamp of a window that holds no more than the cap has grown older
/// than the window is long, a request is admitted: the stamps that still
/// count stay, the request's instant comes behind them, and the request is
/// counted as admitted.
pub proof fn law_aged_window_admits(w: WindowState, config: RateLimitConfig, now: u64, aged: int)
    requires
        within_cap(w, config),
        0 <= aged < w.stamps.len(),
        !in_window(config, now, w.stamps[aged]),
        w.total_requests < u64::MAX,
    ensures
        admits(w, config, now),
        after_check(w, config, now) == (WindowState {
            stamps: kept(w.stamps, config, now).push(now),
            total_requests: (w.total_requests + 1) as u64,
            blocked_requests: w.blocked_requests,
        }),
        forall|i: int|
            0 <= i < kept(w.stamps, config, now).len() ==> in_window(
                config,
                now,
                #[trigger] kept(w.stamps, config, now)[i],
            ),
{
    lemma_kept_fewer(w.stamps, config, now, aged);
    let fresh = |stamp: u64| in_window(config, now, stamp);
    assert forall|i: int| 0 <= i < kept(w.stamps, config, now).len() implies in_window(
        config,
        now,
        #[trigger] kept(w.stamps, config, now)[i],
    ) by {
        w.stamps.lemma_filter_pred(fresh, i);
    }
}

/// The smaller of two numbers.
pub open spec fn least(a: int, b: int) -> int {
    if a <= b {
        a
    } else {
        b
    }
}

/// The states of a limiter through requests of one client at `times`, one
/// after another: each state follows the one before it by one request.
pub open spec fn checked_in_turn(states: Seq<RateLimiter>, client: Seq<char>, times: Seq<u64>)
    -> bool {
    &&& states.len() == times.len() + 1
    &&& forall|i: int|
        #![trigger times[i]]
        0 <= i < times.len() ==> states[i + 1].checked_after(&states[i], client, times[i])
}

/// The window of a new client after the first `done` of its requests, all
/// of which fall inside one window.
pub proof fn lemma_checked_so_far(
    states: Seq<RateLimiter>,
    client: Seq<char>,
    times: Seq<u64>,
    done: int,
)
    requires
        checked_in_turn(states, client, times),
        0 <= done <= times.len() <= u64::MAX,
        states[0].wf(),
        !states[0].tracks(client),
        forall|i: int, j: int|
            0 <= i < j < times.len() ==> in_window(
                states[0].config(),
                #[trigger] times[j],
                #[trigger] times[i],
            ),
    ensures
        states[done].wf(),
        states[done].config() == states[0].config(),
        states[done].window_or_new(client) == (WindowState {
            stamps: times.take(least(done, states[0].config().requests_per_second as int)),
            total_requests: least(done, states[0].config().requests_per_second as int) as u64,
            blocked_requests: (done - least(done, states[0].config().requests_per_second as int)) as u64,
        }),
        done >= 1 ==> states[done].tracks(client) && states[done].clients()
            == states[0].clients().push(client),
        forall|other: Seq<char>|
            other != client && states[0].tracks(other) ==> #[trigger] states[done].windows()[other]
                == states[0].windows()[other],
    decreases done,
{
    let config = states[0].config();
    let cap = config.requests_per_second as int;
    if done == 0 {
        assert(times.take(0) =~= Seq::<u64>::empty());
    } else {
        lemma_checked_so_far(states, client, times, done - 1);
        let before = states[done - 1];
        let now = times[done - 1];
        assert(states[done - 1 + 1].checked_after(&before, client, now));
        let w = before.window_or_new(client);
        let held = least(done - 1, cap);
        assert forall|i: int| 0 <= i < w.stamps.len() implies in_window(
            config,
            now,
            #[trigger] w.stamps[i],
        ) by {
            assert(w.stamps[i] == times[i]);
        }
        lemma_kept_all(w.stamps, config, now);
        states[done].lemma_windows_domain();
        before.lemma_windows_domain();
        if held < cap {
            assert(times.take(held).push(now) =~= times.take(done));
        }
    }
}

/// However many requests a new client makes inside one window, one window
/// is made for it, and every request is counted there once: as many as the
/// cap allows are admitted, the first ones, and the rest are blocked. The
/// clients seen before keep their places and their windows.
pub proof fn law_checks_share_one_window(
    states: Seq<RateLimiter>,
    client: Seq<char>,
    times: Seq<u64>,
)
    requires
        checked_in_turn(states, client, times),
        1 <= times.len() <= u64::MAX,
        states[0].wf(),
        !states[0].tracks(client),
        forall|i: int, j: int|
            0 <= i < j < times.len() ==> in_window(
                states[0].config(),
                #[trigger] times[j],
                #[trigger] times[i],
            ),
    ensures
        states.last().clients() == states[0].clients().push(client),
        states.last().clients().no_duplicates(),
        states.last().windows()[client] == (WindowState {
            stamps: times.take(least(times.len() as int, states[0].config().requests_per_second as int)),
            total_requests: least(
                times.len() as int,
                states[0].config().requests_per_second as int,
            ) as u64,
            blocked_requests: (times.len() - least(
                times.len() as int,
                states[0].config().requests_per_second as int,
            )) as u64,
        }),
        forall|i: int|
            #![trigger times[i]]
            0 <= i < times.len() ==> (admits(
                states[i].window_or_new(client),
                states[0].config(),
                times[i],
            ) <==> i < states[0].config().requests_per_second),
        forall|other: Seq<char>|
            other != client && states[0].tracks(other) ==> #[trigger] states.last().windows()[other]
                == states[0].windows()[other],
{
    let config = states[0].config();
    lemma_checked_so_far(states, client, times, times.len() as int);
    states.last().lemma_windows_domain();
    assert forall|i: int| #![trigger times[i]] 0 <= i < times.len() implies (admits(
        states[i].window_or_new(client),
        config,
        times[i],
    ) <==> i < config.requests_per_second) by {
        lemma_checked_so_far(states, client, times, i);
        let w = states[i].window_or_new(client);
        assert forall|k: int| 0 <= k < w.stamps.len() implies in_window(
            config,
            times[i],
            #[trigger] w.stamps[k],
        ) by {
            assert(w.stamps[k] == times[k]);
        }
        lemma_kept_all(w.stamps, config, times[i]);
    }
}

} // verus!
