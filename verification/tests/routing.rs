use ranx::config::{
    default_health_interval, default_health_timeout, default_load_balancing, default_timeout,
    validate_config, BackendConfig, Config, RouteConfig, ServerConfig,
};
use ranx::error::{ErrorKind, ProxyError};
use ranx::keyed::Keyed;
use ranx::proxy::{
    backend_timeout, build_target_uri, checked_target, match_route, select_backend_server,
    target_address,
};
use ranx::text::{begins_with_char, decimal, starts_with, strip_prefix};

fn route(path: &str, backend: &str, strip_prefix: bool) -> RouteConfig {
    RouteConfig { path: path.to_string(), backend: backend.to_string(), strip_prefix }
}

fn backend(servers: &[&str], timeout: u64) -> BackendConfig {
    BackendConfig {
        servers: servers.iter().map(|s| s.to_string()).collect(),
        load_balancing: default_load_balancing(),
        health_check: None,
        timeout,
    }
}

fn config(backends: Vec<(&str, BackendConfig)>, routes: Vec<RouteConfig>) -> Config {
    let mut kept = Keyed::new();
    for (name, b) in backends {
        kept.push(name.to_string(), b);
    }
    Config {
        server: ServerConfig { listen_addr: "127.0.0.1:8080".to_string(), tls: None },
        backends: kept,
        routes,
    }
}

#[test]
fn defaults_are_as_documented() {
    assert_eq!(default_load_balancing(), "round-robin");
    assert_eq!(default_timeout(), 30);
    assert_eq!(default_health_interval(), 10);
    assert_eq!(default_health_timeout(), 5);
}

#[test]
fn route_matching_takes_the_first_match_not_the_longest() {
    let routes = vec![route("/api", "b1", false), route("/api/v2", "b2", false)];
    assert_eq!(match_route(&routes, "/api/v2/x"), Some(0));
    assert_eq!(routes[0].backend, "b1");
}

#[test]
fn route_matching_respects_the_order_of_the_list() {
    let routes = vec![route("/api/v2", "b2", false), route("/api", "b1", false)];
    assert_eq!(match_route(&routes, "/api/v2/x"), Some(0));
    assert_eq!(match_route(&routes, "/api/v1"), Some(1));
    assert_eq!(match_route(&routes, "/other"), None);
    assert_eq!(match_route(&routes, "/ap"), None);
    assert_eq!(match_route(&Vec::new(), "/api"), None);
}

#[test]
fn route_with_an_empty_prefix_matches_everything() {
    let routes = vec![route("/static", "s", false), route("", "all", false)];
    assert_eq!(match_route(&routes, "/x"), Some(1));
    assert_eq!(match_route(&routes, ""), Some(1));
    assert_eq!(match_route(&routes, "/static/a.css"), Some(0));
}

#[test]
fn text_prefix_helpers() {
    assert!(starts_with("/api/users", "/api"));
    assert!(starts_with("/api", "/api"));
    assert!(starts_with("/api", ""));
    assert!(!starts_with("/ap", "/api"));
    assert!(!starts_with("/abi/x", "/api"));
    assert!(starts_with("/caf\u{e9}/x", "/caf\u{e9}"));
    assert_eq!(strip_prefix("/api/users", "/api"), Some("/users"));
    assert_eq!(strip_prefix("/api", "/api"), Some(""));
    assert_eq!(strip_prefix("/other", "/api"), None);
    assert_eq!(strip_prefix("/caf\u{e9}/x", "/caf\u{e9}"), Some("/x"));
    assert!(begins_with_char("/x", '/'));
    assert!(!begins_with_char("x/", '/'));
    assert!(!begins_with_char("", '/'));
}

#[test]
fn decimal_writes_numbers() {
    assert_eq!(decimal(0), "0");
    assert_eq!(decimal(7), "7");
    assert_eq!(decimal(10), "10");
    assert_eq!(decimal(8080), "8080");
    assert_eq!(decimal(65535), "65535");
    assert_eq!(decimal(u64::MAX), "18446744073709551615");
}

#[test]
fn prefix_stripping_builds_the_target() {
    let r = route("/api", "b", true);
    let t = build_target_uri("/api/users", Some("x=1"), &r, "http://h:9000").unwrap();
    assert_eq!(t, "http://h:9000/users?x=1");
}

#[test]
fn target_without_stripping_keeps_the_path() {
    let r = route("/api", "b", false);
    assert_eq!(target_address("/api/users", Some("x=1"), &r, "http://h:9000"), "http://h:9000/api/users?x=1");
    assert_eq!(target_address("/api/users", None, &r, "http://h:9000"), "http://h:9000/api/users");
}

#[test]
fn target_gets_a_slash_where_stripping_left_none() {
    let r = route("/api/", "b", true);
    assert_eq!(target_address("/api/users", None, &r, "http://h"), "http://h/users");
    let whole = route("/api", "b", true);
    assert_eq!(target_address("/api", None, &whole, "http://h"), "http://h");
    assert_eq!(target_address("/api", Some(""), &whole, "http://h"), "http://h?");
    assert_eq!(target_address("/apiary", None, &whole, "http://h"), "http://h/ary");
}

#[test]
fn target_falls_back_to_the_path_where_the_prefix_is_not_one() {
    let r = route("/api", "b", true);
    assert_eq!(target_address("/other/x", None, &r, "http://h"), "http://h/other/x");
}

#[test]
fn target_that_is_no_address_is_a_backend_error() {
    let r = route("/", "b", false);
    let e = build_target_uri("/a b", None, &r, "http://h:9000").unwrap_err();
    assert_eq!(e.kind(), ErrorKind::BackendError);
    assert_eq!(e.message(), "Backend error: Invalid URI: invalid uri character");
    let e = build_target_uri("", None, &r, "").unwrap_err();
    assert_eq!(e.message(), "Backend error: Invalid URI: empty string");
    let e = build_target_uri("/x", None, &r, "http://").unwrap_err();
    assert_eq!(e.kind(), ErrorKind::BackendError);
    assert_eq!(e.message(), "Backend error: Invalid URI: invalid format");
}

#[test]
fn checked_target_follows_the_complaint() {
    assert_eq!(checked_target("http://h/x".to_string(), None).unwrap(), "http://h/x");
    let e = checked_target("http://h/x".to_string(), Some("no good".to_string())).unwrap_err();
    assert_eq!(e.kind(), ErrorKind::BackendError);
    assert_eq!(e.message(), "Backend error: Invalid URI: no good");
}

#[test]
fn round_robin_hands_out_servers_in_order() {
    let servers: Vec<String> = vec!["a".to_string(), "b".to_string(), "c".to_string()];
    let mut cursor = 0usize;
    let mut picked = Vec::new();
    for _ in 0..7 {
        picked.push(select_backend_server(&servers, &mut cursor).unwrap());
    }
    assert_eq!(picked, vec!["a", "b", "c", "a", "b", "c", "a"]);
    assert_eq!(cursor, 1);
    // seven picks of three servers: each is picked twice or three times
    for s in ["a", "b", "c"] {
        let n = picked.iter().filter(|p| p.as_str() == s).count();
        assert!(n == 2 || n == 3);
    }
    assert_eq!(picked.iter().filter(|p| p.as_str() == "a").count(), 3);
}

#[test]
fn round_robin_with_one_server_stays_on_it() {
    let servers = vec!["only".to_string()];
    let mut cursor = 0usize;
    assert_eq!(select_backend_server(&servers, &mut cursor).unwrap(), "only");
    assert_eq!(select_backend_server(&servers, &mut cursor).unwrap(), "only");
    assert_eq!(cursor, 0);
}

#[test]
fn backend_without_servers_has_none_to_hand_out() {
    let servers: Vec<String> = Vec::new();
    let mut cursor = 0usize;
    let e = select_backend_server(&servers, &mut cursor).unwrap_err();
    assert_eq!(e.kind(), ErrorKind::NoHealthyBackends);
    assert_eq!(e.message(), "No healthy backends available");
    assert_eq!(cursor, 0);
}

#[test]
fn backend_timeout_is_the_backends_or_thirty() {
    let c = config(vec![("b1", backend(&["http://h"], 12))], vec![]);
    let known = route("/a", "b1", false);
    let unknown = route("/b", "nope", false);
    assert_eq!(backend_timeout(&c.backends, Some(&known)), 12);
    assert_eq!(backend_timeout(&c.backends, Some(&unknown)), 30);
    assert_eq!(backend_timeout(&c.backends, None), 30);
}

#[test]
fn keyed_store_finds_what_was_pushed() {
    let mut k: Keyed<u32> = Keyed::new();
    assert_eq!(k.len(), 0);
    assert_eq!(k.find("a"), None);
    k.push("a".to_string(), 1);
    k.push("b".to_string(), 2);
    assert_eq!(k.len(), 2);
    assert_eq!(k.find("a"), Some(0));
    assert_eq!(k.find("b"), Some(1));
    assert_eq!(k.find("c"), None);
    assert_eq!(k.key_at(1), "b");
    assert_eq!(*k.value_at(1), 2);
    *k.value_at_mut(0) = 10;
    assert_eq!(*k.value_at(0), 10);
}

#[test]
fn a_valid_configuration_passes() {
    let c = config(
        vec![("b1", backend(&["http://h:1"], 30)), ("b2", backend(&["http://h:2", "http://h:3"], 5))],
        vec![route("/a", "b1", false), route("/b", "b2", true)],
    );
    assert!(validate_config(&c).is_ok());
    assert!(validate_config(&config(vec![], vec![])).is_ok());
}

#[test]
fn a_route_to_an_unknown_backend_is_reported() {
    let c = config(
        vec![("b1", backend(&["http://h:1"], 30))],
        vec![route("/a", "b1", false), route("/b", "missing", false), route("/c", "gone", false)],
    );
    let e = validate_config(&c).unwrap_err();
    assert_eq!(e.kind(), ErrorKind::ConfigError);
    assert_eq!(
        e.message(),
        "Configuration error: Backend 'missing' referenced in route not found"
    );
}

#[test]
fn a_backend_without_servers_is_reported() {
    let c = config(
        vec![("b1", backend(&["http://h:1"], 30)), ("empty", backend(&[], 30))],
        vec![route("/a", "b1", false)],
    );
    let e = validate_config(&c).unwrap_err();
    assert_eq!(e.kind(), ErrorKind::ConfigError);
    assert_eq!(e.message(), "Configuration error: Backend 'empty' has no servers");
}

#[test]
fn an_unknown_backend_is_reported_before_an_empty_one() {
    let c = config(vec![("empty", backend(&[], 30))], vec![route("/a", "missing", false)]);
    let e = validate_config(&c).unwrap_err();
    assert_eq!(
        e.message(),
        "Configuration error: Backend 'missing' referenced in route not found"
    );
}

#[test]
fn every_kind_of_failure_has_its_message() {
    let cases: Vec<(ProxyError, ErrorKind, &str)> = vec![
        (ProxyError::IoError("disk".to_string()), ErrorKind::IoError, "IO error: disk"),
        (ProxyError::HttpError("reset".to_string()), ErrorKind::HttpError, "HTTP error: reset"),
        (ProxyError::TlsError("cert".to_string()), ErrorKind::TlsError, "TLS error: cert"),
        (
            ProxyError::ConfigError("bad".to_string()),
            ErrorKind::ConfigError,
            "Configuration error: bad",
        ),
        (
            ProxyError::BackendError("down".to_string()),
            ErrorKind::BackendError,
            "Backend error: down",
        ),
        (
            ProxyError::NoHealthyBackends,
            ErrorKind::NoHealthyBackends,
            "No healthy backends available",
        ),
        (
            ProxyError::RouteNotFound("/x".to_string()),
            ErrorKind::RouteNotFound,
            "Route not found for path: /x",
        ),
        (
            ProxyError::TimeoutError("slow".to_string()),
            ErrorKind::TimeoutError,
            "Timeout error: slow",
        ),
        (ProxyError::RateLimitExceeded, ErrorKind::RateLimitExceeded, "Rate limit exceeded"),
        (ProxyError::CircuitBreakerOpen, ErrorKind::CircuitBreakerOpen, "Circuit breaker is open"),
    ];
    for (e, kind, text) in cases {
        assert_eq!(e.kind(), kind);
        assert_eq!(e.message(), text);
    }
}
