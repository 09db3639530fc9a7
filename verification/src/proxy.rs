use crate::config::{BackendConfig, Config, RouteConfig};
use crate::error::{ErrorKind, ProxyError};
use crate::features::circuit_breaker;
use crate::features::ratelimit;
use crate::features::Features;
use crate::headers::{
    add_forwarded, client_of, copied, copy_headers, empty_headers, get_client_ip, header_count,
    header_pairs, lemma_copied, text_view, with_forwarded, Pair, HEADER_ROOM,
};
use crate::keyed::Keyed;
use crate::text::{begins_with_char, decimal, decimal_text, starts_with, strip_prefix};
use vstd::prelude::*;
use vstd::string::StringExecFns;

verus! {

/// Whether `route` applies to a request for `path`: its prefix begins the path.
pub open spec fn route_matches(route: RouteConfig, path: Seq<char>) -> bool {
    route.path@.is_prefix_of(path)
}

/// Route `i` applies to `path` and no route before it does.
pub open spec fn first_match(routes: Seq<RouteConfig>, path: Seq<char>, i: int) -> bool {
    &&& 0 <= i < routes.len()
    &&& route_matches(routes[i], path)
    &&& forall|j: int| 0 <= j < i ==> !route_matches(#[trigger] routes[j], path)
}

/// The position of the first route that applies to `path`. Routes are tried
/// in their order, and a longer prefix further down does not win.
pub fn match_route(routes: &Vec<RouteConfig>, path: &str) -> (found: Option<usize>)
    ensures
        match found {
            Some(i) => first_match(routes@, path@, i as int),
            None => forall|j: int| 0 <= j < routes@.len() ==> !route_matches(#[trigger] routes@[j], path@),
        },
{
    let mut i: usize = 0;
    while i < routes.len()
        invariant
            i <= routes@.len(),
            forall|j: int| 0 <= j < i ==> !route_matches(#[trigger] routes@[j], path@),
        decreases routes@.len() - i,
    {
        if starts_with(path, routes[i].path.as_str()) {
            return Some(i);
        }
        i += 1;
    }
    None
}

/// Seconds that a call may take for a request that matched `route`: the
/// timeout of the route's backend, or thirty where there is no route or no
/// such backend.
pub open spec fn timeout_of(backends: &Keyed<BackendConfig>, route: Option<&RouteConfig>) -> u64 {
    match route {
        Some(r) if backends.contains(r.backend@) => backends.value_of(r.backend@).timeout,
        _ => 30,
    }
}

/// Seconds that a call may take for a request that matched `route`.
pub fn backend_timeout(backends: &Keyed<BackendConfig>, route: Option<&RouteConfig>) -> (seconds:
    u64)
    requires
        backends.wf(),
    ensures
        seconds == timeout_of(backends, route),
{
    if let Some(route) = route {
        if let Some(i) = backends.find(route.backend.as_str()) {
            proof {
                backends.lemma_index_of(i as int);
            }
            return backends.value_at(i).timeout;
        }
    }
    30
}

/// The cursor after one more server was handed out of `servers` many.
pub open spec fn advance(cursor: int, servers: int) -> int {
    (cursor + 1) % servers
}

/// Hands out the server under the cursor and moves the cursor on by one,
/// back to the first server after the last. A backend without servers has
/// none to hand out.
pub fn select_backend_server(servers: &Vec<String>, cursor: &mut usize) -> (picked: Result<
    String,
    ProxyError,
>)
    requires
        servers@.len() > 0 ==> *old(cursor) < servers@.len(),
    ensures
        match picked {
            Ok(server) => servers@.len() > 0 && server@ == servers@[*old(cursor) as int]@
                && *final(cursor) == advance(*old(cursor) as int, servers@.len() as int),
            Err(e) => servers@.len() == 0 && e.kind_of() == ErrorKind::NoHealthyBackends
                && *final(cursor) == *old(cursor),
        },
        servers@.len() > 0 ==> *final(cursor) < servers@.len(),
{
    if servers.len() == 0 {
        return Err(ProxyError::NoHealthyBackends);
    }
    let server = servers[*cursor].clone();
    proof {
        let n = servers@.len() as int;
        let c = *cursor as int;
        if c + 1 == n {
            vstd::arithmetic::div_mod::lemma_mod_self_0(n);
        } else {
            vstd::arithmetic::div_mod::lemma_small_mod((c + 1) as nat, n as nat);
        }
    }
    *cursor = if *cursor + 1 == servers.len() {
        0
    } else {
        *cursor + 1
    };
    Ok(server)
}

/// The cursor after `calls` servers were handed out of `servers` many,
/// beginning at `start`.
pub open spec fn cursor_after(start: int, servers: int, calls: nat) -> int
    decreases calls,
{
    if calls == 0 {
        start
    } else {
        advance(cursor_after(start, servers, (calls - 1) as nat), servers)
    }
}

/// How many of the first `calls` picks of a backend whose cursor began at
/// its first server fell on server `j`.
pub open spec fn times_picked(servers: int, calls: nat, j: int) -> nat
    decreases calls,
{
    if calls == 0 {
        0
    } else {
        let earlier = times_picked(servers, (calls - 1) as nat, j);
        if cursor_after(0, servers, (calls - 1) as nat) == j {
            earlier + 1
        } else {
            earlier
        }
    }
}

/// How quotient and remainder change from one number to the next.
pub proof fn lemma_next_div_mod(a: int, n: int)
    requires
        0 <= a,
        0 < n,
    ensures
        0 <= a % n < n,
        a % n + 1 < n ==> (a + 1) % n == a % n + 1 && (a + 1) / n == a / n,
        a % n + 1 == n ==> (a + 1) % n == 0 && (a + 1) / n == a / n + 1,
{
    let q = a / n;
    let r = a % n;
    vstd::arithmetic::div_mod::lemma_fundamental_div_mod(a, n);
    vstd::arithmetic::div_mod::lemma_mod_bound(a, n);
    assert(n * q == q * n) by (nonlinear_arith);
    if r + 1 < n {
        vstd::arithmetic::div_mod::lemma_fundamental_div_mod_converse(a + 1, n, q, r + 1);
    } else {
        assert((q + 1) * n == q * n + n) by (nonlinear_arith);
        vstd::arithmetic::div_mod::lemma_fundamental_div_mod_converse(a + 1, n, q + 1, 0);
    }
}

/// Round-robin is fair. From a cursor at the first server, pick number `k`
/// (counting from zero) is server `k % servers`: the servers come in their
/// configured order, round after round. So after `calls` picks every server
/// was picked `calls / servers` times, and those that the unfinished last
/// round reached once more: the floor or the ceiling of `calls / servers`.
pub proof fn law_round_robin(servers: int, calls: nat, j: int)
    requires
        servers > 0,
        0 <= j < servers,
    ensures
        cursor_after(0, servers, calls) == (calls as int) % servers,
        times_picked(servers, calls, j) == (calls as int) / servers + if j < (calls as int) % servers {
            1int
        } else {
            0int
        },
        (calls as int) / servers <= times_picked(servers, calls, j) <= (calls + servers - 1) / servers,
    decreases calls,
{
    if calls == 0 {
        vstd::arithmetic::div_mod::lemma_small_mod(0, servers as nat);
        vstd::arithmetic::div_mod::lemma_fundamental_div_mod_converse(0, servers, 0, 0);
        vstd::arithmetic::div_mod::lemma_fundamental_div_mod_converse(
            servers - 1,
            servers,
            0,
            servers - 1,
        );
    } else {
        let before = (calls - 1) as nat;
        law_round_robin(servers, before, j);
        lemma_next_div_mod(before as int, servers);
        let at = (before as int) % servers;
        if at + 1 < servers {
            vstd::arithmetic::div_mod::lemma_small_mod((at + 1) as nat, servers as nat);
        } else {
            vstd::arithmetic::div_mod::lemma_mod_self_0(servers);
        }
        let q = (calls as int) / servers;
        let r = (calls as int) % servers;
        vstd::arithmetic::div_mod::lemma_fundamental_div_mod(calls as int, servers);
        vstd::arithmetic::div_mod::lemma_mod_bound(calls as int, servers);
        assert(servers * q == q * servers) by (nonlinear_arith);
        if r == 0 {
            assert((q - 1) * servers == q * servers - servers) by (nonlinear_arith);
            vstd::arithmetic::div_mod::lemma_fundamental_div_mod_converse(
                calls + servers - 1,
                servers,
                q - 1 + 1,
                servers - 1,
            );
        } else {
            assert((q + 1) * servers == q * servers + servers) by (nonlinear_arith);
            vstd::arithmetic::div_mod::lemma_fundamental_div_mod_converse(
                calls + servers - 1,
                servers,
                q + 1,
                r - 1,
            );
        }
    }
}

/// The path that is sent on for a request path that matched `route`: the
/// path without the route's prefix where the route strips it, with a `/` put
/// in front of what is left unless that is empty or begins with one.
pub open spec fn forwarded_path(path: Seq<char>, route: RouteConfig) -> Seq<char> {
    let kept = if route.strip_prefix && route.path@.is_prefix_of(path) {
        path.skip(route.path@.len() as int)
    } else {
        path
    };
    if kept.len() == 0 || kept[0] == '/' {
        kept
    } else {
        seq!['/'] + kept
    }
}

/// The query as it is appended to a target: `?` and the query, or nothing.
pub open spec fn query_suffix(query: Option<Seq<char>>) -> Seq<char> {
    match query {
        Some(q) => seq!['?'] + q,
        None => Seq::empty(),
    }
}

/// The address that a request is sent on to: the server's base address, the
/// forwarded path, and the query.
pub open spec fn target_text(
    path: Seq<char>,
    query: Option<Seq<char>>,
    route: RouteConfig,
    server: Seq<char>,
) -> Seq<char> {
    server + forwarded_path(path, route) + query_suffix(query)
}

/// The query of a request as contracts speak of it.
pub open spec fn query_view(query: Option<&str>) -> Option<Seq<char>> {
    match query {
        Some(q) => Some(q@),
        None => None,
    }
}

/// Writes out the address that a request is sent on to.
pub fn target_address(path: &str, query: Option<&str>, route: &RouteConfig, server: &str) -> (target:
    String)
    ensures
        target@ == target_text(path@, query_view(query), *route, server@),
{
    proof {
        reveal_strlit("/");
        reveal_strlit("?");
        assert("/"@ =~= seq!['/']);
        assert("?"@ =~= seq!['?']);
    }
    let kept: &str = if route.strip_prefix {
        match strip_prefix(path, route.path.as_str()) {
            Some(rest) => rest,
            None => path,
        }
    } else {
        path
    };
    let mut target = String::from_str(server);
    if !(kept.is_empty() || begins_with_char(kept, '/')) {
        target.append("/");
    }
    target.append(kept);
    if let Some(q) = query {
        target.append("?");
        target.append(q);
    }
    proof {
        let fp = forwarded_path(path@, *route);
        let qs = query_suffix(query_view(query));
        assert(target@ =~= server@ + fp + qs);
    }
    target
}

/// What `hyper::Uri` finds wrong with a text that is to be an address, in
/// its own words; nothing where it takes the text as an address.
pub uninterp spec fn uri_complaint(text: Seq<char>) -> Option<Seq<char>>;

/// `Uri::try_from` on a copy of the text: whether hyper takes the text as an
/// address, and if not, the complaint that its error shows.
#[verifier::external_body]
fn uri_check(text: &str) -> (complaint: Option<String>)
    ensures
        match complaint {
            Some(c) => uri_complaint(text@) == Some(c@),
            None => uri_complaint(text@) is None,
        },
{
    match hyper::Uri::try_from(text.to_owned()) {
        Ok(_) => None,
        Err(fault) => Some(fault.to_string()),
    }
}

/// The detail of the failure for a target that is no address.
pub open spec fn bad_target_text(complaint: Seq<char>) -> Seq<char> {
    "Invalid URI: "@ + complaint
}

/// The target, or the failure that the complaint about it makes.
pub fn checked_target(target: String, complaint: Option<String>) -> (checked: Result<
    String,
    ProxyError,
>)
    ensures
        match checked {
            Ok(t) => complaint is None && t@ == target@,
            Err(e) => complaint is Some && e.kind_of() == ErrorKind::BackendError && e.detail()
                == bad_target_text(complaint->0@),
        },
{
    match complaint {
        None => Ok(target),
        Some(c) => Err(
            ProxyError::BackendError(String::from_str("Invalid URI: ").concat(c.as_str())),
        ),
    }
}

/// The address that a request for `path` and `query` is sent on to at
/// `server`, under the route that it matched; a failure where the address
/// that comes out is none that hyper takes.
pub fn build_target_uri(path: &str, query: Option<&str>, route: &RouteConfig, server: &str) -> (built:
    Result<String, ProxyError>)
    ensures
        match built {
            Ok(t) => t@ == target_text(path@, query_view(query), *route, server@) && uri_complaint(
                t@,
            ) is None,
            Err(e) => e.kind_of() == ErrorKind::BackendError && uri_complaint(
                target_text(path@, query_view(query), *route, server@),
            ) is Some && e.detail() == bad_target_text(
                uri_complaint(target_text(path@, query_view(query), *route, server@))->0,
            ),
        },
{
    let target = target_address(path, query, route, server);
    let complaint = uri_check(target.as_str());
    checked_target(target, complaint)
}

/// What the proxy reads of a request.
#[derive(Debug)]
pub struct ProxyRequest {
    /// The path that is asked for.
    pub path: String,
    /// What follows the `?` of the request's address, if it has one.
    pub query: Option<String>,
    /// The scheme of the request's address, if it names one.
    pub scheme: Option<String>,
    /// The host of the request's address, if it names one.
    pub host: Option<String>,
    /// The port of the request's address, if it names one.
    pub port: Option<u16>,
    pub headers: hyper::HeaderMap,
}

/// What is to be sent to an upstream server for a request that passed.
#[derive(Debug)]
pub struct Forward {
    /// Name of the backend that the request goes to.
    pub backend: String,
    /// The address to send to.
    pub target: String,
    /// Seconds that the call may take.
    pub timeout: u64,
    /// The headers to send.
    pub headers: hyper::HeaderMap,
}

/// How the call to the upstream server ended.
#[derive(Debug)]
pub enum Upstream {
    /// The server answered with this status.
    Responded(u16),
    /// The call took longer than the backend's timeout.
    TimedOut,
    /// The call failed in transport; the text describes how.
    Failed(String),
    /// The request could not be put together; the text describes why.
    NotBuilt(String),
}

/// Where the handling of a request ends before anything is sent, or that it
/// does not.
#[derive(Clone, Copy, Debug)]
pub enum Stage {
    /// The client is over its rate limit.
    Limited,
    /// No route applies to the path.
    Unrouted,
    /// The route names a backend that is not configured.
    UnknownBackend,
    /// The backend's circuit is open.
    CircuitOpen,
    /// The backend has no server.
    NoServer,
    /// The target is no address.
    BadTarget,
    /// The request passed and is to be sent on.
    Forwarded,
}

/// The name under which a request's client is limited: what its headers
/// say, or `unknown`.
pub open spec fn client_id(req: &ProxyRequest) -> Seq<char> {
    match client_of(header_pairs(req.headers)) {
        Some(client) => client,
        None => "unknown"@,
    }
}

/// The query of a request as contracts speak of it.
pub open spec fn owned_view(text: Option<String>) -> Option<Seq<char>> {
    match text {
        Some(t) => Some(t@),
        None => None,
    }
}

/// The failure detail for a route whose backend is not configured.
pub open spec fn unknown_backend_text(name: Seq<char>) -> Seq<char> {
    "Backend not found: "@ + name
}

/// The status under which an outcome is recorded: the answer's own, or 500.
pub open spec fn recorded_status(outcome: Upstream) -> u16 {
    match outcome {
        Upstream::Responded(status) => status,
        _ => 500,
    }
}

/// The failure detail for a call that took longer than `timeout` seconds.
pub open spec fn timed_out_text(timeout: u64) -> Seq<char> {
    "Request timed out after "@ + decimal_text(timeout as nat) + " seconds"@
}

/// The failure detail for a request that could not be put together.
pub open spec fn not_built_text(why: Seq<char>) -> Seq<char> {
    "Failed to build request: "@ + why
}

/// A cursor fits a backend: it points at one of the servers, if there is one.
pub open spec fn cursor_fits(cursor: usize, servers: int) -> bool {
    servers > 0 ==> cursor < servers
}

/// The proxy: its configuration, the rotation cursor of every backend, and
/// the three policies.
pub struct ProxyService {
    config: Config,
    cursors: Vec<usize>,
    features: Features,
}

impl ProxyService {
    /// The configuration that the proxy was made with.
    pub closed spec fn config(&self) -> Config {
        self.config
    }

    /// The rotation cursor of every backend, in the order of the backends.
    pub closed spec fn cursors(&self) -> Seq<usize> {
        self.cursors@
    }

    /// The limiter, the breaker and the collector.
    pub closed spec fn features(&self) -> Features {
        self.features
    }

    /// Every backend has a cursor that fits it, and the policies agree with
    /// themselves.
    pub open spec fn wf(&self) -> bool {
        &&& self.config().backends.wf()
        &&& self.cursors().len() == self.config().backends.values().len()
        &&& forall|i: int|
            0 <= i < self.cursors().len() ==> cursor_fits(
                #[trigger] self.cursors()[i],
                self.config().backends.values()[i].servers@.len() as int,
            )
        &&& self.features().wf()
    }

    /// The position of the first route that applies to `path`.
    pub open spec fn routed(&self, path: Seq<char>) -> Option<int> {
        if exists|i: int| first_match(self.config().routes@, path, i) {
            Some(choose|i: int| first_match(self.config().routes@, path, i))
        } else {
            None
        }
    }

    /// The backend that a request for `path` goes to, where a route applies.
    pub open spec fn backend_for(&self, path: Seq<char>) -> Seq<char> {
        self.config().routes@[self.routed(path)->0].backend@
    }

    /// The position of that backend among the backends.
    pub open spec fn backend_index(&self, path: Seq<char>) -> int {
        self.config().backends.keys().index_of(self.backend_for(path))
    }

    /// The address that a request is sent on to, where its backend has a
    /// server: at the one under the backend's cursor.
    pub open spec fn target_for(&self, req: &ProxyRequest) -> Seq<char> {
        let at = self.backend_index(req.path@);
        target_text(
            req.path@,
            owned_view(req.query),
            self.config().routes@[self.routed(req.path@)->0],
            self.config().backends.values()[at].servers@[self.cursors()[at] as int]@,
        )
    }

    /// Where the handling of `req` at `now` ends.
    pub open spec fn stage(&self, req: &ProxyRequest, now: u64) -> Stage {
        let limiter = self.features().rate_limiter;
        let breaker = self.features().circuit_breaker;
        if !ratelimit::admits(limiter.window_or_new(client_id(req)), limiter.config(), now) {
            Stage::Limited
        } else if self.routed(req.path@) is None {
            Stage::Unrouted
        } else if !self.config().backends.contains(self.backend_for(req.path@)) {
            Stage::UnknownBackend
        } else if !circuit_breaker::admits(
            breaker.record_or_new(self.backend_for(req.path@), now),
            breaker.config(),
            now,
        ) {
            Stage::CircuitOpen
        } else if self.config().backends.values()[self.backend_index(req.path@)].servers@.len() == 0 {
            Stage::NoServer
        } else if uri_complaint(self.target_for(req)) is Some {
            Stage::BadTarget
        } else {
            Stage::Forwarded
        }
    }

    /// Whether the handling of `req` gets as far as the backend's circuit:
    /// the client is within its limit, a route applies, and the route's
    /// backend is configured.
    pub open spec fn reaches_circuit(&self, req: &ProxyRequest, now: u64) -> bool {
        let limiter = self.features().rate_limiter;
        &&& ratelimit::admits(limiter.window_or_new(client_id(req)), limiter.config(), now)
        &&& self.routed(req.path@) is Some
        &&& self.config().backends.contains(self.backend_for(req.path@))
    }

    /// Whether the handling of `req` hands out a server of the backend.
    pub open spec fn takes_server(&self, req: &ProxyRequest, now: u64) -> bool {
        match self.stage(req, now) {
            Stage::BadTarget | Stage::Forwarded => true,
            _ => false,
        }
    }

    /// The counters that handling `req` adds to can take one more, and the
    /// request's headers leave room for three more: the client's count of
    /// admitted or of blocked requests, whichever the request adds to, and
    /// the request count of the backend's circuit if the handling gets that
    /// far.
    pub open spec fn room_for(&self, req: &ProxyRequest, now: u64) -> bool {
        let limiter = self.features().rate_limiter;
        let breaker = self.features().circuit_breaker;
        &&& header_pairs(req.headers).len() + 3 <= HEADER_ROOM
        &&& ratelimit::has_room(limiter.window_or_new(client_id(req)), limiter.config(), now)
        &&& self.reaches_circuit(req, now) ==> breaker.record_or_new(
            self.backend_for(req.path@),
            now,
        ).total_requests < u64::MAX
    }

    /// How the proxy stands after `req` was handled at `now`, and what came
    /// of it, given how the proxy stood `before`. The client's window has
    /// taken the request in. If the request got as far as the backend's
    /// circuit, the circuit has counted it; if a server was handed out, the
    /// backend's cursor has moved on. Nothing else differs. What came of it
    /// is the failure of the stage at which the handling ended, or what is to
    /// be sent: to the backend of the first route that applies, at the
    /// server under the backend's cursor, within the backend's timeout, with
    /// the request's headers cleaned and the forwarded ones added.
    pub open spec fn handled_after(
        &self,
        before: &ProxyService,
        req: &ProxyRequest,
        now: u64,
        plan: Result<Forward, ProxyError>,
    ) -> bool {
        let limiter = before.features().rate_limiter;
        let breaker = before.features().circuit_breaker;
        let backend = before.backend_for(req.path@);
        let at = before.backend_index(req.path@);
        &&& self.wf()
        &&& self.config() == before.config()
        &&& self.features().metrics_collector == before.features().metrics_collector
        &&& self.features().rate_limiter.checked_after(&limiter, client_id(req), now)
        &&& if before.reaches_circuit(req, now) {
            self.features().circuit_breaker.asked_after(&breaker, backend, now)
        } else {
            self.features().circuit_breaker == breaker
        }
        &&& self.cursors() =~= if before.takes_server(req, now) {
            before.cursors().update(
                at,
                advance(
                    before.cursors()[at] as int,
                    before.config().backends.values()[at].servers@.len() as int,
                ) as usize,
            )
        } else {
            before.cursors()
        }
        &&& match plan {
            Ok(f) => {
                &&& before.stage(req, now) is Forwarded
                &&& f.backend@ == backend
                &&& f.target@ == before.target_for(req)
                &&& f.timeout == before.config().backends.value_of(backend).timeout
                &&& header_pairs(f.headers) == outgoing_headers(req)
            },
            Err(e) => match before.stage(req, now) {
                Stage::Limited => e.kind_of() == ErrorKind::RateLimitExceeded,
                Stage::Unrouted => e.kind_of() == ErrorKind::RouteNotFound && e.detail() == req.path@,
                Stage::UnknownBackend => e.kind_of() == ErrorKind::BackendError && e.detail()
                    == unknown_backend_text(backend),
                Stage::CircuitOpen => e.kind_of() == ErrorKind::CircuitBreakerOpen,
                Stage::NoServer => e.kind_of() == ErrorKind::NoHealthyBackends,
                Stage::BadTarget => e.kind_of() == ErrorKind::BackendError && e.detail()
                    == bad_target_text(uri_complaint(before.target_for(req))->0),
                Stage::Forwarded => false,
            },
        }
    }

    /// How the proxy stands after the outcome of a call to `backend` was
    /// recorded at `now`, and what the client gets, given how the proxy
    /// stood `before`. The backend's circuit has counted a success for an
    /// answer and a failure for anything else. The
    /// backend's metrics have taken in the time since `start` with the
    /// answer's status, or as an error with status 500. Nothing else
    /// differs. The client gets the answer's status, or the failure that the
    /// outcome makes.
    pub open spec fn completed_after(
        &self,
        before: &ProxyService,
        backend: Seq<char>,
        timeout: u64,
        start: u64,
        outcome: Upstream,
        now: u64,
        answer: Result<u16, ProxyError>,
    ) -> bool {
        let breaker = before.features().circuit_breaker;
        let collector = before.features().metrics_collector;
        &&& self.wf()
        &&& self.config() == before.config()
        &&& self.cursors() == before.cursors()
        &&& self.features().rate_limiter == before.features().rate_limiter
        &&& if outcome is Responded {
            self.features().circuit_breaker.succeeded_after(&breaker, backend, now)
        } else {
            self.features().circuit_breaker.failed_after(&breaker, backend, now)
        }
        &&& self.features().metrics_collector.recorded_after(
            &collector,
            backend,
            start,
            recorded_status(outcome),
            !(outcome is Responded),
            now,
        )
        &&& match outcome {
            Upstream::Responded(status) => answer == Ok::<u16, ProxyError>(status),
            Upstream::TimedOut => answer is Err && answer->Err_0.kind_of() == ErrorKind::TimeoutError
                && answer->Err_0.detail() == timed_out_text(timeout),
            Upstream::Failed(how) => answer is Err && answer->Err_0.kind_of() == ErrorKind::HttpError
                && answer->Err_0.detail() == how@,
            Upstream::NotBuilt(why) => answer is Err && answer->Err_0.kind_of()
                == ErrorKind::BackendError && answer->Err_0.detail() == not_built_text(why@),
        }
    }

    /// The limiter, the breaker and the collector, to read.
    pub fn policies(&self) -> (features: &Features)
        ensures
            *features == self.features(),
    {
        &self.features
    }

    /// The configuration that the proxy was made with.
    pub fn configuration(&self) -> (config: &Config)
        ensures
            *config == self.config(),
    {
        &self.config
    }

    /// The position of the server that `backend` hands out next; nothing for
    /// a backend that is not configured.
    pub fn next_server_index(&self, backend: &str) -> (cursor: Option<usize>)
        requires
            self.wf(),
        ensures
            cursor == if self.config().backends.contains(backend@) {
                Some(self.cursors()[self.config().backends.keys().index_of(backend@)])
            } else {
                None
            },
    {
        match self.config.backends.find(backend) {
            Some(i) => Some(self.cursors[i]),
            None => None,
        }
    }

    /// A route that applies first is the one that `routed` names, and where
    /// no route applies it names none.
    pub proof fn lemma_routed(&self, path: Seq<char>, found: Option<int>)
        requires
            match found {
                Some(i) => first_match(self.config().routes@, path, i),
                None => forall|j: int|
                    0 <= j < self.config().routes@.len() ==> !route_matches(
                        #[trigger] self.config().routes@[j],
                        path,
                    ),
            },
        ensures
            self.routed(path) == found,
    {
        let routes = self.config().routes@;
        match found {
            Some(i) => {
                let c = choose|c: int| first_match(routes, path, c);
                if c < i {
                    assert(!route_matches(routes[c], path));
                } else if i < c {
                    assert(!route_matches(routes[i], path));
                }
            },
            None => {
                if exists|c: int| first_match(routes, path, c) {
                    let c = choose|c: int| first_match(routes, path, c);
                    assert(!route_matches(routes[c], path));
                }
            },
        }
    }

    /// The first route that applies to `path`.
    pub fn find_route(&self, path: &str) -> (route: Option<&RouteConfig>)
        ensures
            match route {
                Some(r) => self.routed(path@) is Some && *r == self.config().routes@[self.routed(
                    path@,
                )->0],
                None => self.routed(path@) is None,
            },
    {
        match match_route(&self.config.routes, path) {
            Some(i) => {
                proof {
                    self.lemma_routed(path@, Some(i as int));
                }
                Some(&self.config.routes[i])
            },
            None => {
                proof {
                    self.lemma_routed(path@, None);
                }
                None
            },
        }
    }

    /// Whether `req` can be handled at `now`: every counter that it adds to
    /// can take one more, and its headers leave room for three more.
    pub fn can_handle(&self, req: &ProxyRequest, now: u64) -> (ready: bool)
        requires
            self.wf(),
        ensures
            ready == self.room_for(req, now),
    {
        if !headers_fit(req) {
            return false;
        }
        let client = client_name(req);
        let (admitted, room) = self.features.rate_limiter.preview(client.as_str(), now);
        if !room {
            return false;
        }
        if !admitted {
            return true;
        }
        match self.find_route(req.path.as_str()) {
            Some(route) => {
                if self.config.backends.find(route.backend.as_str()).is_none() {
                    return true;
                }
                match self.features.circuit_breaker.get_backend_metrics(route.backend.as_str()) {
                    Some(m) => m.total_requests < u64::MAX,
                    None => true,
                }
            },
            None => true,
        }
    }

    /// Takes a request at `now` through the rate limit, the routes, the
    /// backend's circuit and its rotation, in that order, and says what is
    /// to be sent where, or why nothing is. Each step that is reached leaves
    /// its mark: the client's window counts the request, the backend's
    /// circuit counts it, the backend's cursor moves on.
    pub fn proxy_request(&mut self, req: &ProxyRequest, now: u64) -> (plan: Result<
        Forward,
        ProxyError,
    >)
        requires
            old(self).wf(),
            old(self).room_for(req, now),
        ensures
            final(self).handled_after(old(self), req, now, plan),
    {
        let client = client_name(req);
        if !self.features.rate_limiter.check_rate_limit(client.as_str(), now) {
            return Err(ProxyError::RateLimitExceeded);
        }
        let path = req.path.as_str();
        let found = match_route(&self.config.routes, path);
        proof {
            let shown: Option<int> = match found {
                Some(i) => Some(i as int),
                None => None,
            };
            old(self).lemma_routed(path@, shown);
        }
        let r = match found {
            Some(i) => i,
            None => {
                return Err(ProxyError::RouteNotFound(req.path.clone()));
            },
        };
        let route = &self.config.routes[r];
        let b = match self.config.backends.find(route.backend.as_str()) {
            Some(i) => i,
            None => {
                let detail = String::from_str("Backend not found: ").concat(route.backend.as_str());
                return Err(ProxyError::BackendError(detail));
            },
        };
        proof {
            old(self).config().backends.lemma_index_of(b as int);
        }
        if !self.features.circuit_breaker.pre_request(route.backend.as_str(), now) {
            return Err(ProxyError::CircuitBreakerOpen);
        }
        let backend = self.config.backends.value_at(b);
        let server = match select_backend_server(&backend.servers, &mut self.cursors[b]) {
            Ok(server) => server,
            Err(e) => {
                return Err(e);
            },
        };
        let target = match build_target_uri(path, borrowed(&req.query), route, server.as_str()) {
            Ok(target) => target,
            Err(e) => {
                return Err(e);
            },
        };
        let timeout = backend_timeout(&self.config.backends, Some(route));
        Ok(forward_request(req, route.backend.clone(), target, timeout))
    }

    /// `proxy_request`, for a caller that has not made sure of the room:
    /// nothing is done, and nothing returned, where a counter that the
    /// request adds to is full or its headers leave no room.
    pub fn try_proxy_request(&mut self, req: &ProxyRequest, now: u64) -> (plan: Option<
        Result<Forward, ProxyError>,
    >)
        requires
            old(self).wf(),
        ensures
            final(self).wf(),
            match plan {
                Some(p) => old(self).room_for(req, now) && final(self).handled_after(
                    old(self),
                    req,
                    now,
                    p,
                ),
                None => !old(self).room_for(req, now) && *final(self) == *old(self),
            },
    {
        if self.can_handle(req, now) {
            Some(self.proxy_request(req, now))
        } else {
            None
        }
    }

    /// The counters that `outcome` of a call to `backend` adds to can take
    /// one more: in the circuit's record the successes for an answer and the
    /// failures for anything else, and in the metrics the requests. A
    /// backend without a record or without metrics has room.
    pub open spec fn room_to_complete(&self, backend: Seq<char>, outcome: Upstream) -> bool {
        let breaker = self.features().circuit_breaker;
        let collector = self.features().metrics_collector;
        &&& breaker.tracks(backend) ==> if outcome is Responded {
            breaker.records()[backend].successful_requests < u64::MAX
        } else {
            &&& breaker.records()[backend].failed_requests < u64::MAX
            &&& breaker.records()[backend].failures < u32::MAX
        }
        &&& collector.metrics_or_new(backend).total_requests < u64::MAX
    }

    /// Whether `outcome` of a call to `backend` can be recorded.
    pub fn can_complete(&self, backend: &str, outcome: &Upstream) -> (ready: bool)
        requires
            self.wf(),
        ensures
            ready == self.room_to_complete(backend@, *outcome),
    {
        let answered = match outcome {
            Upstream::Responded(_) => true,
            _ => false,
        };
        let circuit_ready = match self.features.circuit_breaker.get_backend_metrics(backend) {
            Some(m) => if answered {
                m.successful_requests < u64::MAX
            } else {
                m.failed_requests < u64::MAX && m.current_failures < u32::MAX
            },
            None => true,
        };
        circuit_ready && self.features.metrics_collector.total_requests_of(backend) < u64::MAX
    }

    /// Records how the call to `backend` for a request that began at `start`
    /// ended at `now`, and says what the client gets. An answer counts as a
    /// success for the circuit and is recorded with its status; anything
    /// else counts as a failure and is recorded as an error with status 500.
    pub fn complete_request(
        &mut self,
        backend: &str,
        timeout: u64,
        start: u64,
        outcome: Upstream,
        now: u64,
    ) -> (answer: Result<u16, ProxyError>)
        requires
            old(self).wf(),
            old(self).room_to_complete(backend@, outcome),
        ensures
            final(self).completed_after(old(self), backend@, timeout, start, outcome, now, answer),
    {
        match outcome {
            Upstream::Responded(status) => {
                self.features.circuit_breaker.record_success(backend, now);
                self.features.metrics_collector.record_request(backend, start, status, false, now);
                Ok(status)
            },
            Upstream::TimedOut => {
                self.features.circuit_breaker.record_failure(backend, now);
                self.features.metrics_collector.record_request(backend, start, 500, true, now);
                let detail = String::from_str("Request timed out after ").concat(
                    decimal(timeout).as_str(),
                ).concat(" seconds");
                Err(ProxyError::TimeoutError(detail))
            },
            Upstream::Failed(how) => {
                self.features.circuit_breaker.record_failure(backend, now);
                self.features.metrics_collector.record_request(backend, start, 500, true, now);
                Err(ProxyError::HttpError(how))
            },
            Upstream::NotBuilt(why) => {
                self.features.circuit_breaker.record_failure(backend, now);
                self.features.metrics_collector.record_request(backend, start, 500, true, now);
                let detail = String::from_str("Failed to build request: ").concat(why.as_str());
                Err(ProxyError::BackendError(detail))
            },
        }
    }

    /// `complete_request`, for a caller that has not made sure of the room:
    /// nothing is done, and nothing returned, where a counter that the
    /// outcome adds to is full.
    pub fn try_complete_request(
        &mut self,
        backend: &str,
        timeout: u64,
        start: u64,
        outcome: Upstream,
        now: u64,
    ) -> (answer: Option<Result<u16, ProxyError>>)
        requires
            old(self).wf(),
        ensures
            final(self).wf(),
            match answer {
                Some(a) => old(self).room_to_complete(backend@, outcome)
                    && final(self).completed_after(
                    old(self),
                    backend@,
                    timeout,
                    start,
                    outcome,
                    now,
                    a,
                ),
                None => !old(self).room_to_complete(backend@, outcome)
                    && *final(self) == *old(self),
            },
    {
        if self.can_complete(backend, &outcome) {
            Some(self.complete_request(backend, timeout, start, outcome, now))
        } else {
            None
        }
    }
}

/// Whether the headers of `req` leave room for the three that are added
/// to what is sent on.
pub fn headers_fit(req: &ProxyRequest) -> (fit: bool)
    ensures
        fit == (header_pairs(req.headers).len() + 3 <= HEADER_ROOM),
{
    header_count(&req.headers) <= HEADER_ROOM - 3
}

/// The name under which a request's client is limited.
pub fn client_name(req: &ProxyRequest) -> (client: String)
    ensures
        client@ == client_id(req),
{
    match get_client_ip(&req.headers) {
        Some(client) => client,
        None => String::from_str("unknown"),
    }
}

/// An optional text, borrowed.
pub fn borrowed(text: &Option<String>) -> (view: Option<&str>)
    ensures
        text_view(view) == owned_view(*text),
        query_view(view) == owned_view(*text),
{
    match text {
        Some(t) => Some(t.as_str()),
        None => None,
    }
}

/// The headers that are sent on for a request: its own without those meant
/// for one hop only, and the host, port and scheme that it was addressed to.
pub open spec fn outgoing_headers(req: &ProxyRequest) -> Seq<Pair> {
    with_forwarded(
        copied(header_pairs(req.headers), Seq::empty()),
        owned_view(req.host),
        req.port,
        owned_view(req.scheme),
    )
}

/// Puts together what is sent to the upstream server for `req`.
pub fn forward_request(req: &ProxyRequest, backend: String, target: String, timeout: u64) -> (plan:
    Forward)
    requires
        header_pairs(req.headers).len() + 3 <= HEADER_ROOM,
    ensures
        plan.backend == backend,
        plan.target == target,
        plan.timeout == timeout,
        header_pairs(plan.headers) == outgoing_headers(req),
{
    let mut headers = empty_headers();
    copy_headers(&req.headers, &mut headers);
    proof {
        lemma_copied(header_pairs(req.headers), Seq::empty());
    }
    add_forwarded(&mut headers, borrowed(&req.host), req.port, borrowed(&req.scheme));
    Forward { backend, target, timeout, headers }
}

/// A proxy for `config` that starts at `now`: every backend's cursor at its
/// first server, and nothing recorded.
pub fn create_proxy_service(config: Config, now: u64) -> (service: ProxyService)
    requires
        config.backends.wf(),
    ensures
        service.wf(),
        service.config() == config,
        service.cursors().len() == config.backends.values().len(),
        forall|i: int| 0 <= i < service.cursors().len() ==> service.cursors()[i] == 0,
        service.features().is_new(now),
{
    let n = config.backends.len();
    let mut cursors: Vec<usize> = Vec::new();
    let mut i: usize = 0;
    while i < n
        invariant
            i <= n,
            cursors@.len() == i,
            forall|j: int| 0 <= j < i ==> cursors@[j] == 0,
        decreases n - i,
    {
        cursors.push(0);
        i += 1;
    }
    ProxyService { config, cursors, features: Features::new(now) }
}

} // verus!
