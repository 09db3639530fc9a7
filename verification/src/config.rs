use crate::error::{ErrorKind, ProxyError};
use crate::keyed::Keyed;
use vstd::prelude::*;
use vstd::string::StringExecFns;

verus! {

/// The whole configuration of one proxy.
#[derive(Debug)]
pub struct Config {
    pub server: ServerConfig,
    /// The backends by name.
    pub backends: Keyed<BackendConfig>,
    /// The routes, in the order in which they are tried.
    pub routes: Vec<RouteConfig>,
}

/// Where the proxy listens, and with what.
#[derive(Debug)]
pub struct ServerConfig {
    /// Address that the proxy listens on, as written in the configuration.
    pub listen_addr: String,
    pub tls: Option<TlsConfig>,
}

/// The files that hold the proxy's certificate and key.
#[derive(Debug)]
pub struct TlsConfig {
    /// Path of the certificate file.
    pub cert_path: String,
    /// Path of the private key file.
    pub key_path: String,
}

/// A named group of upstream servers.
#[derive(Debug)]
pub struct BackendConfig {
    /// Base addresses of the backend's servers, in rotation order.
    pub servers: Vec<String>,
    /// Name of the way in which a server is picked.
    pub load_balancing: String,
    /// Read, and not acted on: every configured server is always eligible.
    pub health_check: Option<HealthCheckConfig>,
    /// Seconds that a call to the backend may take.
    pub timeout: u64,
}

/// How a backend's servers would be checked.
#[derive(Debug)]
pub struct HealthCheckConfig {
    /// Path that a health check asks for.
    pub path: String,
    /// Seconds between health checks.
    pub interval: u64,
    /// Seconds that a health check may take.
    pub timeout: u64,
}

/// A rule that sends the requests under a path prefix to a backend.
#[derive(Debug)]
pub struct RouteConfig {
    /// Prefix that a request's path must begin with.
    pub path: String,
    /// Name of the backend that matching requests go to.
    pub backend: String,
    /// Whether the prefix is removed from the path that is sent on.
    pub strip_prefix: bool,
}

/// The way of picking a server that a backend has when it names none.
pub fn default_load_balancing() -> (name: String)
    ensures
        name@ == "round-robin"@,
{
    String::from_str("round-robin")
}

/// Seconds that a call to a backend may take when the backend names no timeout.
pub fn default_timeout() -> (seconds: u64)
    ensures
        seconds == 30,
{
    30
}

/// Seconds between health checks when the configuration names none.
pub fn default_health_interval() -> (seconds: u64)
    ensures
        seconds == 10,
{
    10
}

/// Seconds that a health check may take when the configuration names none.
pub fn default_health_timeout() -> (seconds: u64)
    ensures
        seconds == 5,
{
    5
}

/// The complaint about a route whose backend is not configured.
pub open spec fn unknown_backend_text(name: Seq<char>) -> Seq<char> {
    "Backend '"@ + name + "' referenced in route not found"@
}

/// The complaint about a backend without servers.
pub open spec fn no_servers_text(name: Seq<char>) -> Seq<char> {
    "Backend '"@ + name + "' has no servers"@
}

impl Config {
    /// Route `i` names a backend that is not configured, and no route before
    /// it does.
    pub open spec fn first_unknown_route(&self, i: int) -> bool {
        &&& 0 <= i < self.routes@.len()
        &&& !self.backends.contains(self.routes@[i].backend@)
        &&& forall|j: int| 0 <= j < i ==> self.backends.contains((#[trigger] self.routes@[j]).backend@)
    }

    /// Backend `i` has no server, and every backend before it has one.
    pub open spec fn first_empty_backend(&self, i: int) -> bool {
        &&& 0 <= i < self.backends.values().len()
        &&& self.backends.values()[i].servers@.len() == 0
        &&& forall|j: int|
            0 <= j < i ==> (#[trigger] self.backends.values()[j]).servers@.len() > 0
    }

    /// Every route names a configured backend.
    pub open spec fn routes_resolve(&self) -> bool {
        forall|i: int|
            0 <= i < self.routes@.len() ==> self.backends.contains((#[trigger] self.routes@[i]).backend@)
    }

    /// Every backend has at least one server.
    pub open spec fn backends_have_servers(&self) -> bool {
        forall|i: int|
            0 <= i < self.backends.values().len() ==> (#[trigger] self.backends.values()[i]).servers@.len()
                > 0
    }

    /// What a proxy may be started with.
    pub open spec fn valid(&self) -> bool {
        self.routes_resolve() && self.backends_have_servers()
    }

    /// What is wrong with the configuration, if anything: the first route
    /// that names an unknown backend or, where every route resolves, the first
    /// backend without servers.
    pub open spec fn complaint(&self) -> Option<Seq<char>> {
        if exists|i: int| self.first_unknown_route(i) {
            let i = choose|i: int| self.first_unknown_route(i);
            Some(unknown_backend_text(self.routes@[i].backend@))
        } else if exists|i: int| self.first_empty_backend(i) {
            let i = choose|i: int| self.first_empty_backend(i);
            Some(no_servers_text(self.backends.keys()[i]))
        } else {
            None
        }
    }

    /// A configuration has a complaint exactly when it is not valid.
    pub proof fn lemma_complaint_iff_invalid(&self)
        ensures
            self.complaint() is None <==> self.valid(),
    {
        if !self.routes_resolve() {
            let bad = choose|i: int|
                0 <= i < self.routes@.len() && !self.backends.contains(
                    (#[trigger] self.routes@[i]).backend@,
                );
            self.lemma_first_unknown(bad);
        }
        if !self.backends_have_servers() {
            let bad = choose|i: int|
                0 <= i < self.backends.values().len() && !((#[trigger] self.backends.values()[i]).servers@.len()
                    > 0);
            self.lemma_first_empty(bad);
        }
        if exists|i: int| self.first_unknown_route(i) {
            let i = choose|i: int| self.first_unknown_route(i);
            assert(!self.backends.contains(self.routes@[i].backend@));
        }
        if exists|i: int| self.first_empty_backend(i) {
            let i = choose|i: int| self.first_empty_backend(i);
            assert(self.backends.values()[i].servers@.len() == 0);
        }
    }

    proof fn lemma_first_unknown(&self, bad: int)
        requires
            0 <= bad < self.routes@.len(),
            !self.backends.contains(self.routes@[bad].backend@),
        ensures
            exists|i: int| self.first_unknown_route(i),
        decreases bad,
    {
        if forall|j: int|
            0 <= j < bad ==> self.backends.contains((#[trigger] self.routes@[j]).backend@) {
            assert(self.first_unknown_route(bad));
        } else {
            let earlier = choose|j: int|
                0 <= j < bad && !self.backends.contains((#[trigger] self.routes@[j]).backend@);
            self.lemma_first_unknown(earlier);
        }
    }

    proof fn lemma_first_empty(&self, bad: int)
        requires
            0 <= bad < self.backends.values().len(),
            self.backends.values()[bad].servers@.len() == 0,
        ensures
            exists|i: int| self.first_empty_backend(i),
        decreases bad,
    {
        if forall|j: int|
            0 <= j < bad ==> (#[trigger] self.backends.values()[j]).servers@.len() > 0 {
            assert(self.first_empty_backend(bad));
        } else {
            let earlier = choose|j: int|
                0 <= j < bad && !((#[trigger] self.backends.values()[j]).servers@.len() > 0);
            self.lemma_first_empty(earlier);
        }
    }
}

/// Checks that every route names a configured backend and that every
/// backend has a server, in that order, and reports the first offender.
pub fn validate_config(config: &Config) -> (checked: Result<(), ProxyError>)
    requires
        config.backends.wf(),
    ensures
        checked is Ok <==> config.valid(),
        match checked {
            Ok(_) => config.complaint() is None,
            Err(e) => e.kind_of() == ErrorKind::ConfigError && config.complaint() == Some(e.detail()),
        },
{
    proof {
        config.lemma_complaint_iff_invalid();
    }
    let mut r: usize = 0;
    while r < config.routes.len()
        invariant
            config.backends.wf(),
            r <= config.routes@.len(),
            forall|j: int| 0 <= j < r ==> config.backends.contains((#[trigger] config.routes@[j]).backend@),
        decreases config.routes@.len() - r,
    {
        let route = &config.routes[r];
        if config.backends.find(route.backend.as_str()).is_none() {
            let text = String::from_str("Backend '").concat(route.backend.as_str()).concat(
                "' referenced in route not found",
            );
            proof {
                assert(config.first_unknown_route(r as int));
                let i = choose|i: int| config.first_unknown_route(i);
                assert(i == r) by {
                    if i < r {
                        assert(config.backends.contains(config.routes@[i].backend@));
                    } else if i > r {
                        assert(config.backends.contains(config.routes@[r as int].backend@));
                    }
                }
            }
            return Err(ProxyError::ConfigError(text));
        }
        r += 1;
    }
    let n = config.backends.len();
    let mut b: usize = 0;
    while b < n
        invariant
            config.backends.wf(),
            n == config.backends.values().len(),
            b <= n,
            config.routes_resolve(),
            forall|j: int| 0 <= j < b ==> (#[trigger] config.backends.values()[j]).servers@.len() > 0,
        decreases n - b,
    {
        if config.backends.value_at(b).servers.len() == 0 {
            let text = String::from_str("Backend '").concat(config.backends.key_at(b).as_str()).concat(
                "' has no servers",
            );
            proof {
                assert(!exists|i: int| config.first_unknown_route(i)) by {
                    if exists|i: int| config.first_unknown_route(i) {
                        let i = choose|i: int| config.first_unknown_route(i);
                        assert(config.backends.contains(config.routes@[i].backend@));
                    }
                }
                assert(config.first_empty_backend(b as int));
                let i = choose|i: int| config.first_empty_backend(i);
                assert(i == b) by {
                    if i < b {
                        assert(config.backends.values()[i].servers@.len() > 0);
                    } else if i > b {
                        assert(config.backends.values()[b as int].servers@.len() > 0);
                    }
                }
            }
            return Err(ProxyError::ConfigError(text));
        }
        b += 1;
    }
    Ok(())
}

} // verus!
