use vstd::prelude::*;
use vstd::string::StringExecFns;

verus! {

/// The kinds of failure that handling a request, or starting up, can end in.
#[derive(Clone, Copy, Debug, PartialEq, Eq, Structural)]
pub enum ErrorKind {
    IoError,
    HttpError,
    TlsError,
    ConfigError,
    BackendError,
    NoHealthyBackends,
    RouteNotFound,
    TimeoutError,
    RateLimitExceeded,
    CircuitBreakerOpen,
}

/// A failure, with the detail that its message shows.
#[derive(Debug)]
pub enum ProxyError {
    /// An input or output operation failed; the text describes how.
    IoError(String),
    /// The call to the upstream server failed in transport; the text
    /// describes how.
    HttpError(String),
    TlsError(String),
    ConfigError(String),
    /// Unknown backend, or a target address or request that could not be
    /// built.
    BackendError(String),
    /// The backend has no server to send to.
    NoHealthyBackends,
    /// No route matches the path.
    RouteNotFound(String),
    TimeoutError(String),
    RateLimitExceeded,
    CircuitBreakerOpen,
}

/// The text that every message of a kind begins with.
pub open spec fn message_head(kind: ErrorKind) -> Seq<char> {
    match kind {
        ErrorKind::IoError => "IO error: "@,
        ErrorKind::HttpError => "HTTP error: "@,
        ErrorKind::TlsError => "TLS error: "@,
        ErrorKind::ConfigError => "Configuration error: "@,
        ErrorKind::BackendError => "Backend error: "@,
        ErrorKind::NoHealthyBackends => "No healthy backends available"@,
        ErrorKind::RouteNotFound => "Route not found for path: "@,
        ErrorKind::TimeoutError => "Timeout error: "@,
        ErrorKind::RateLimitExceeded => "Rate limit exceeded"@,
        ErrorKind::CircuitBreakerOpen => "Circuit breaker is open"@,
    }
}

impl ProxyError {
    /// The kind of the failure.
    pub open spec fn kind_of(&self) -> ErrorKind {
        match self {
            ProxyError::IoError(_) => ErrorKind::IoError,
            ProxyError::HttpError(_) => ErrorKind::HttpError,
            ProxyError::TlsError(_) => ErrorKind::TlsError,
            ProxyError::ConfigError(_) => ErrorKind::ConfigError,
            ProxyError::BackendError(_) => ErrorKind::BackendError,
            ProxyError::NoHealthyBackends => ErrorKind::NoHealthyBackends,
            ProxyError::RouteNotFound(_) => ErrorKind::RouteNotFound,
            ProxyError::TimeoutError(_) => ErrorKind::TimeoutError,
            ProxyError::RateLimitExceeded => ErrorKind::RateLimitExceeded,
            ProxyError::CircuitBreakerOpen => ErrorKind::CircuitBreakerOpen,
        }
    }

    /// The detail that the failure carries; empty for a kind that carries none.
    pub open spec fn detail(&self) -> Seq<char> {
        match self {
            ProxyError::IoError(d) => d@,
            ProxyError::HttpError(d) => d@,
            ProxyError::TlsError(d) => d@,
            ProxyError::ConfigError(d) => d@,
            ProxyError::BackendError(d) => d@,
            ProxyError::NoHealthyBackends => Seq::empty(),
            ProxyError::RouteNotFound(d) => d@,
            ProxyError::TimeoutError(d) => d@,
            ProxyError::RateLimitExceeded => Seq::empty(),
            ProxyError::CircuitBreakerOpen => Seq::empty(),
        }
    }

    /// The failure's message: the head of its kind, then its detail.
    pub open spec fn message_text(&self) -> Seq<char> {
        message_head(self.kind_of()) + self.detail()
    }

    /// The kind of the failure.
    #[verifier::when_used_as_spec(kind_of)]
    pub fn kind(&self) -> (k: ErrorKind)
        ensures
            k == self.kind_of(),
    {
        match self {
            ProxyError::IoError(_) => ErrorKind::IoError,
            ProxyError::HttpError(_) => ErrorKind::HttpError,
            ProxyError::TlsError(_) => ErrorKind::TlsError,
            ProxyError::ConfigError(_) => ErrorKind::ConfigError,
            ProxyError::BackendError(_) => ErrorKind::BackendError,
            ProxyError::NoHealthyBackends => ErrorKind::NoHealthyBackends,
            ProxyError::RouteNotFound(_) => ErrorKind::RouteNotFound,
            ProxyError::TimeoutError(_) => ErrorKind::TimeoutError,
            ProxyError::RateLimitExceeded => ErrorKind::RateLimitExceeded,
            ProxyError::CircuitBreakerOpen => ErrorKind::CircuitBreakerOpen,
        }
    }

    /// The failure's message, as it is shown to a person.
    pub fn message(&self) -> (text: String)
        ensures
            text@ == self.message_text(),
    {
        match self {
            ProxyError::IoError(d) => String::from_str("IO error: ").concat(d.as_str()),
            ProxyError::HttpError(d) => String::from_str("HTTP error: ").concat(d.as_str()),
            ProxyError::TlsError(d) => String::from_str("TLS error: ").concat(d.as_str()),
            ProxyError::ConfigError(d) => String::from_str("Configuration error: ").concat(
                d.as_str(),
            ),
            ProxyError::BackendError(d) => String::from_str("Backend error: ").concat(d.as_str()),
            ProxyError::NoHealthyBackends => {
                let text = String::from_str("No healthy backends available");
                assert(text@ + Seq::<char>::empty() =~= text@);
                text
            },
            ProxyError::RouteNotFound(d) => String::from_str("Route not found for path: ").concat(
                d.as_str(),
            ),
            ProxyError::TimeoutError(d) => String::from_str("Timeout error: ").concat(d.as_str()),
            ProxyError::RateLimitExceeded => {
                let text = String::from_str("Rate limit exceeded");
                assert(text@ + Seq::<char>::empty() =~= text@);
                text
            },
            ProxyError::CircuitBreakerOpen => {
                let text = String::from_str("Circuit breaker is open");
                assert(text@ + Seq::<char>::empty() =~= text@);
                text
            },
        }
    }
}

} // verus!
