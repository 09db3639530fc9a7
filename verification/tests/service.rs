use hyper::header::HeaderValue;
use hyper::HeaderMap;
use ranx::config::{BackendConfig, Config, RouteConfig, ServerConfig};
use ranx::error::{ErrorKind, ProxyError};
use ranx::features::circuit_breaker::CircuitState;
use ranx::keyed::Keyed;
use ranx::proxy::{
    client_name, create_proxy_service, forward_request, headers_fit, ProxyRequest, ProxyService,
    Upstream,
};
use ranx::server::{handle_request, Reply};

const SECOND: u64 = 1_000_000_000;

fn service(backends: Vec<(&str, Vec<&str>, u64)>, routes: Vec<(&str, &str, bool)>) -> ProxyService {
    let mut kept = Keyed::new();
    for (name, servers, timeout) in backends {
        kept.push(
            name.to_string(),
            BackendConfig {
                servers: servers.iter().map(|s| s.to_string()).collect(),
                load_balancing: "round-robin".to_string(),
                health_check: None,
                timeout,
            },
        );
    }
    let config = Config {
        server: ServerConfig { listen_addr: "127.0.0.1:8080".to_string(), tls: None },
        backends: kept,
        routes: routes
            .iter()
            .map(|(p, b, s)| RouteConfig {
                path: p.to_string(),
                backend: b.to_string(),
                strip_prefix: *s,
            })
            .collect(),
    };
    create_proxy_service(config, 0)
}

fn request(path: &str, query: Option<&str>, client: Option<&str>) -> ProxyRequest {
    let mut headers = HeaderMap::new();
    if let Some(c) = client {
        headers.insert("x-forwarded-for", HeaderValue::from_str(c).unwrap());
    }
    ProxyRequest {
        path: path.to_string(),
        query: query.map(|q| q.to_string()),
        scheme: None,
        host: None,
        port: None,
        headers,
    }
}

fn header_list(map: &HeaderMap) -> Vec<(String, String)> {
    map.iter()
        .map(|(k, v)| (k.as_str().to_string(), String::from_utf8_lossy(v.as_bytes()).to_string()))
        .collect()
}

#[test]
fn a_request_is_planned_for_the_first_matching_backend() {
    let mut s = service(
        vec![("b1", vec!["http://h1:9000"], 7), ("b2", vec!["http://h2:9000"], 9)],
        vec![("/api", "b1", false), ("/api/v2", "b2", false)],
    );
    let req = request("/api/v2/x", None, Some("1.2.3.4"));
    assert!(s.can_handle(&req, 1));
    let plan = s.proxy_request(&req, 1).unwrap();
    assert_eq!(plan.backend, "b1");
    assert_eq!(plan.target, "http://h1:9000/api/v2/x");
    assert_eq!(plan.timeout, 7);
    assert_eq!(s.find_route("/api/v2/x").unwrap().backend, "b1");
}

#[test]
fn a_request_is_planned_with_prefix_stripped_and_query_kept() {
    let mut s = service(vec![("b", vec!["http://h:9000"], 30)], vec![("/api", "b", true)]);
    let plan = s.proxy_request(&request("/api/users", Some("x=1"), None), 1).unwrap();
    assert_eq!(plan.target, "http://h:9000/users?x=1");
}

#[test]
fn requests_rotate_over_the_servers_of_a_backend() {
    let mut s = service(
        vec![("b", vec!["http://a", "http://b", "http://c"], 30), ("solo", vec!["http://z"], 30)],
        vec![("/solo", "solo", true), ("/", "b", false)],
    );
    let mut targets = Vec::new();
    for i in 0..7u64 {
        targets.push(s.proxy_request(&request("/x", None, None), i).unwrap().target);
        assert_eq!(s.proxy_request(&request("/solo", None, None), i).unwrap().target, "http://z");
    }
    assert_eq!(
        targets,
        vec![
            "http://a/x",
            "http://b/x",
            "http://c/x",
            "http://a/x",
            "http://b/x",
            "http://c/x",
            "http://a/x"
        ]
    );
    assert_eq!(s.next_server_index("b"), Some(1));
    assert_eq!(s.next_server_index("solo"), Some(0));
    assert_eq!(s.next_server_index("other"), None);
}

#[test]
fn a_request_without_a_route_is_refused() {
    let mut s = service(vec![("b", vec!["http://h"], 30)], vec![("/api", "b", false)]);
    let e = s.proxy_request(&request("/other", None, None), 1).unwrap_err();
    assert_eq!(e.kind(), ErrorKind::RouteNotFound);
    assert_eq!(e.message(), "Route not found for path: /other");
    // the client was counted, the backend was never reached
    assert_eq!(s.policies().rate_limiter.get_client_analytics("unknown").unwrap().total_requests, 1);
    assert_eq!(s.policies().circuit_breaker.get_metrics().len(), 0);
}

#[test]
fn a_route_to_a_backend_that_is_not_there_is_a_backend_error() {
    let mut s = service(vec![("b", vec!["http://h"], 30)], vec![("/api", "missing", false)]);
    let e = s.proxy_request(&request("/api", None, None), 1).unwrap_err();
    assert_eq!(e.kind(), ErrorKind::BackendError);
    assert_eq!(e.message(), "Backend error: Backend not found: missing");
    assert_eq!(s.policies().circuit_breaker.get_metrics().len(), 0);
}

#[test]
fn a_backend_without_servers_is_no_healthy_backends() {
    let mut s = service(vec![("b", vec![], 30)], vec![("/", "b", false)]);
    let e = s.proxy_request(&request("/x", None, None), 1).unwrap_err();
    assert_eq!(e.kind(), ErrorKind::NoHealthyBackends);
    // the circuit was asked before the rotation
    assert_eq!(s.policies().circuit_breaker.get_backend_metrics("b").unwrap().total_requests, 1);
}

#[test]
fn a_target_that_is_no_address_is_a_backend_error() {
    let mut s = service(vec![("b", vec!["http://h one", "http://two"], 30)], vec![("/", "b", false)]);
    let e = s.proxy_request(&request("/x", None, None), 1).unwrap_err();
    assert_eq!(e.kind(), ErrorKind::BackendError);
    assert_eq!(e.message(), "Backend error: Invalid URI: invalid uri character");
    // the server was handed out all the same
    assert_eq!(s.next_server_index("b"), Some(1));
    assert_eq!(s.proxy_request(&request("/x", None, None), 2).unwrap().target, "http://two/x");
}

#[test]
fn the_hundred_and_first_request_of_a_client_is_rate_limited() {
    let mut s = service(vec![("b", vec!["http://h"], 30)], vec![("/", "b", false)]);
    for i in 0..100u64 {
        assert!(s.proxy_request(&request("/x", None, Some("9.9.9.9")), i).is_ok());
    }
    let e = s.proxy_request(&request("/x", None, Some("9.9.9.9")), 100).unwrap_err();
    assert_eq!(e.kind(), ErrorKind::RateLimitExceeded);
    assert_eq!(e.message(), "Rate limit exceeded");
    // a denied request reaches neither circuit nor rotation
    assert_eq!(s.policies().circuit_breaker.get_backend_metrics("b").unwrap().total_requests, 100);
    // another client is not affected
    assert!(s.proxy_request(&request("/x", None, Some("8.8.8.8")), 101).is_ok());
    // and the first one is admitted again a window later
    assert!(s.proxy_request(&request("/x", None, Some("9.9.9.9")), 60 * SECOND).is_err());
    assert!(s.proxy_request(&request("/x", None, Some("9.9.9.9")), 60 * SECOND + 1).is_ok());
}

#[test]
fn five_failed_calls_open_the_circuit_of_a_backend() {
    let mut s = service(
        vec![("b", vec!["http://h"], 3), ("other", vec!["http://o"], 3)],
        vec![("/o", "other", false), ("/", "b", false)],
    );
    for i in 0..5u64 {
        let plan = s.proxy_request(&request("/x", None, None), i).unwrap();
        assert!(s.can_complete(&plan.backend, &Upstream::TimedOut));
        let e = s
            .complete_request(&plan.backend, plan.timeout, i, Upstream::TimedOut, i + 3 * SECOND)
            .unwrap_err();
        assert_eq!(e.kind(), ErrorKind::TimeoutError);
        assert_eq!(e.message(), "Timeout error: Request timed out after 3 seconds");
    }
    let m = s.policies().circuit_breaker.get_backend_metrics("b").unwrap();
    assert_eq!(m.state, CircuitState::Open);
    let last_failure = 4 + 3 * SECOND;
    let e = s.proxy_request(&request("/x", None, None), last_failure + 1).unwrap_err();
    assert_eq!(e.kind(), ErrorKind::CircuitBreakerOpen);
    assert_eq!(e.message(), "Circuit breaker is open");
    // the other backend is not affected
    assert!(s.proxy_request(&request("/o", None, None), last_failure + 2).is_ok());
    // after thirty seconds a request passes on trial, and a success closes the circuit
    let plan = s.proxy_request(&request("/x", None, None), last_failure + 30 * SECOND + 1).unwrap();
    let status = s
        .complete_request(
            &plan.backend,
            plan.timeout,
            last_failure + 30 * SECOND + 1,
            Upstream::Responded(204),
            last_failure + 30 * SECOND + 5,
        )
        .unwrap();
    assert_eq!(status, 204);
    let m = s.policies().circuit_breaker.get_backend_metrics("b").unwrap();
    assert_eq!(m.state, CircuitState::Closed);
    assert_eq!(m.current_failures, 0);
    let all = s.policies().metrics_collector.get_metrics(0);
    assert_eq!(all.len(), 1);
    assert_eq!(all[0].0, "b");
    assert_eq!(all[0].1.total_requests, 6);
    assert_eq!(all[0].1.failed_requests, 5);
    assert_eq!(all[0].1.successful_requests, 1);
    assert_eq!(all[0].1.status_code_distribution.get(&500), Some(&5));
    assert_eq!(all[0].1.status_code_distribution.get(&204), Some(&1));
    assert_eq!(all[0].1.max_response_time, Some(3 * SECOND));
    assert_eq!(all[0].1.min_response_time, Some(4));
}

#[test]
fn each_outcome_of_a_call_has_its_answer() {
    let mut s = service(vec![("b", vec!["http://h"], 30)], vec![("/", "b", false)]);
    let plan = s.proxy_request(&request("/x", None, None), 0).unwrap();
    assert_eq!(s.complete_request(&plan.backend, 30, 0, Upstream::Responded(503), 1).unwrap(), 503);
    let e = s
        .complete_request(&plan.backend, 30, 0, Upstream::Failed("connection reset".to_string()), 2)
        .unwrap_err();
    assert_eq!(e.message(), "HTTP error: connection reset");
    let e = s
        .complete_request(&plan.backend, 30, 0, Upstream::NotBuilt("bad method".to_string()), 3)
        .unwrap_err();
    assert_eq!(e.message(), "Backend error: Failed to build request: bad method");
    let m = s.policies().circuit_breaker.get_backend_metrics("b").unwrap();
    // an answer with an error status is still an answer
    assert_eq!(m.successful_requests, 1);
    assert_eq!(m.failed_requests, 2);
    let all = s.policies().metrics_collector.get_metrics(5);
    assert_eq!(all[0].1.success_rate, 333_333);
    assert_eq!(all[0].1.status_code_distribution.get(&503), Some(&1));
    assert_eq!(all[0].1.status_code_distribution.get(&500), Some(&2));
}

#[test]
fn the_try_forms_do_the_same_where_there_is_room() {
    let mut s = service(vec![("b", vec!["http://h"], 30)], vec![("/", "b", false)]);
    let plan = s.try_proxy_request(&request("/x", None, None), 0).unwrap().unwrap();
    assert_eq!(plan.target, "http://h/x");
    let answer = s.try_complete_request("b", 30, 0, Upstream::Responded(200), 1).unwrap();
    assert_eq!(answer.unwrap(), 200);
    let e = s.try_proxy_request(&request("/x", None, None), 2).unwrap();
    assert!(e.is_ok());
}

#[test]
fn the_try_form_does_nothing_for_a_request_with_too_many_headers() {
    let mut s = service(vec![("b", vec!["http://h"], 30)], vec![("/", "b", false)]);
    let mut req = request("/x", None, None);
    for _ in 0..4094 {
        req.headers.append("x-many", HeaderValue::from_static("v"));
    }
    assert!(!s.can_handle(&req, 0));
    assert!(s.try_proxy_request(&req, 0).is_none());
    assert_eq!(s.policies().rate_limiter.get_analytics().len(), 0);
    let mut fits = request("/x", None, None);
    for _ in 0..4093 {
        fits.headers.append("x-many", HeaderValue::from_static("v"));
    }
    assert!(s.can_handle(&fits, 0));
    let plan = s.try_proxy_request(&fits, 0).unwrap().unwrap();
    assert_eq!(plan.headers.len(), 4093);
}

#[test]
fn the_client_is_named_by_its_headers_or_unknown() {
    assert_eq!(client_name(&request("/", None, Some("1.2.3.4"))), "1.2.3.4");
    assert_eq!(client_name(&request("/", None, None)), "unknown");
    let mut req = request("/", None, None);
    req.headers.insert("x-real-ip", HeaderValue::from_static("5.6.7.8"));
    assert_eq!(client_name(&req), "5.6.7.8");
}

#[test]
fn what_is_sent_on_has_clean_and_forwarded_headers() {
    let mut req = request("/x", None, Some("1.2.3.4"));
    req.headers.insert("connection", HeaderValue::from_static("keep-alive"));
    req.headers.insert("transfer-encoding", HeaderValue::from_static("chunked"));
    req.headers.insert("accept", HeaderValue::from_static("*/*"));
    req.scheme = Some("http".to_string());
    req.host = Some("front.example".to_string());
    req.port = Some(8080);
    let plan = forward_request(&req, "b".to_string(), "http://h/x".to_string(), 11);
    assert_eq!(plan.backend, "b");
    assert_eq!(plan.target, "http://h/x");
    assert_eq!(plan.timeout, 11);
    let expected: Vec<(String, String)> = [
        ("x-forwarded-for", "1.2.3.4"),
        ("accept", "*/*"),
        ("x-forwarded-host", "front.example"),
        ("x-forwarded-port", "8080"),
        ("x-forwarded-proto", "http"),
    ]
    .iter()
    .map(|(k, v)| (k.to_string(), v.to_string()))
    .collect();
    assert_eq!(header_list(&plan.headers), expected);
}

#[test]
fn every_failure_gets_an_answer_with_status_500() {
    match handle_request(&Ok(200)) {
        Reply::Upstream => {}
        Reply::Failure { .. } => panic!("an answer of the upstream server is passed on"),
    }
    match handle_request(&Err(ProxyError::RateLimitExceeded)) {
        Reply::Failure { status, body } => {
            assert_eq!(status, 500);
            assert_eq!(body, "Proxy error: Rate limit exceeded");
        }
        Reply::Upstream => panic!("a failure is answered by the proxy"),
    }
    match handle_request(&Err(ProxyError::RouteNotFound("/nowhere".to_string()))) {
        Reply::Failure { status, body } => {
            assert_eq!(status, 500);
            assert_eq!(body, "Proxy error: Route not found for path: /nowhere");
        }
        Reply::Upstream => panic!("a failure is answered by the proxy"),
    }
}

#[test]
fn headers_fit_up_to_three_short_of_the_room() {
    let mut req = request("/x", None, None);
    assert!(headers_fit(&req));
    for _ in 0..4093 {
        req.headers.append("x-many", HeaderValue::from_static("v"));
    }
    assert!(headers_fit(&req));
    req.headers.append("x-many", HeaderValue::from_static("v"));
    assert!(!headers_fit(&req));
}

#[test]
fn what_is_sent_on_keeps_every_value_of_a_repeated_header() {
    let mut s = service(vec![("b", vec!["http://h"], 30)], vec![("/", "b", false)]);
    let mut req = request("/x", None, None);
    req.headers.append("accept", HeaderValue::from_static("text/html"));
    req.headers.append("upgrade", HeaderValue::from_static("h2c"));
    req.headers.append("accept", HeaderValue::from_static("text/plain"));
    req.headers.append("Keep-Alive", HeaderValue::from_static("timeout=5"));
    req.host = Some("front".to_string());
    let plan = s.proxy_request(&req, 0).unwrap();
    let expected: Vec<(String, String)> =
        [("accept", "text/html"), ("accept", "text/plain"), ("x-forwarded-host", "front")]
            .iter()
            .map(|(k, v)| (k.to_string(), v.to_string()))
            .collect();
    assert_eq!(header_list(&plan.headers), expected);
}

#[test]
fn a_failure_recorded_for_a_backend_never_asked_about_counts() {
    let mut s = service(vec![("b", vec!["http://h"], 30)], vec![("/", "b", false)]);
    for t in 1..=5u64 {
        assert!(s.complete_request("b", 30, 0, Upstream::TimedOut, t).is_err());
    }
    let e = s.proxy_request(&request("/x", None, None), 6).unwrap_err();
    assert_eq!(e.kind(), ErrorKind::CircuitBreakerOpen);
}
