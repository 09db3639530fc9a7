use vstd::prelude::*;

pub mod circuit_breaker;
pub mod metrics;
pub mod ratelimit;

verus! {

/// The three policies that every request passes through.
pub struct Features {
    pub rate_limiter: ratelimit::RateLimiter,
    pub circuit_breaker: circuit_breaker::CircuitBreaker,
    pub metrics_collector: metrics::MetricsCollector,
}

/// The rate limit that a proxy starts with: a hundred requests in a window
/// of sixty seconds for each client.
pub open spec fn default_rate_limit() -> ratelimit::RateLimitConfig {
    ratelimit::RateLimitConfig { requests_per_second: 100, burst_size: 50, window_seconds: 60 }
}

/// The circuit breaking that a proxy starts with: a circuit opens at five
/// failures in a row and stays open for thirty seconds.
pub open spec fn default_circuit_breaking() -> circuit_breaker::CircuitBreakerConfig {
    circuit_breaker::CircuitBreakerConfig {
        failure_threshold: 5,
        reset_timeout: 30_000_000_000,
        half_open_timeout: 5_000_000_000,
    }
}

impl Features {
    /// Limiter, breaker and collector agree with themselves.
    pub open spec fn wf(&self) -> bool {
        &&& self.rate_limiter.wf()
        &&& self.circuit_breaker.wf()
        &&& self.metrics_collector.wf()
    }

    /// The policies as a proxy has them that started at `now`: the default
    /// limits, no client and no backend seen, nothing recorded.
    pub open spec fn is_new(&self, now: u64) -> bool {
        &&& self.rate_limiter.config() == default_rate_limit()
        &&& self.rate_limiter.windows() == Map::<Seq<char>, ratelimit::WindowState>::empty()
        &&& self.rate_limiter.clients() == Seq::<Seq<char>>::empty()
        &&& self.circuit_breaker.config() == default_circuit_breaking()
        &&& self.circuit_breaker.records() == Map::<Seq<char>, circuit_breaker::CircuitRecord>::empty()
        &&& self.circuit_breaker.backends() == Seq::<Seq<char>>::empty()
        &&& self.metrics_collector.start_time() == now
        &&& self.metrics_collector.metrics() == Map::<Seq<char>, metrics::MetricsState>::empty()
        &&& self.metrics_collector.backends() == Seq::<Seq<char>>::empty()
    }

    /// The policies of a proxy that starts at `now`, with nothing recorded.
    pub fn new(now: u64) -> (features: Self)
        ensures
            features.wf(),
            features.is_new(now),
    {
        let rate_limiter = ratelimit::RateLimiter::new(
            ratelimit::RateLimitConfig {
                requests_per_second: 100,
                burst_size: 50,
                window_seconds: 60,
            },
        );
        let circuit_breaker = circuit_breaker::CircuitBreaker::new(
            circuit_breaker::CircuitBreakerConfig {
                failure_threshold: 5,
                reset_timeout: 30_000_000_000,
                half_open_timeout: 5_000_000_000,
            },
        );
        let metrics_collector = metrics::MetricsCollector::new(now);
        Features { rate_limiter, circuit_breaker, metrics_collector }
    }
}

} // verus!
