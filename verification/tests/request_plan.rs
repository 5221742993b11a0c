use std::sync::Arc;

use nexa_proxy::config::{ProxyConfig, ProxyRouteConfig, UpstreamEntry};
use nexa_proxy::domain_map::DomainMap;
use nexa_proxy::proxy::ProxyState;
use nexa_proxy::request::{
    eq_ignore_ascii_case, forward_headers, forward_uri, host_of, is_hop_header_name, plan_reply,
    plan_request, relay_status, IncomingRequest, ReplyPlan, RequestPlan, UpstreamReply,
    ERROR_NO_UPSTREAM, ERROR_UPSTREAM, METRICS_CONTENT_TYPE, NO_UPSTREAM_BODY,
};

fn state_with<M>(metrics: Option<Arc<M>>) -> ProxyState<M> {
    let mut routes = DomainMap::new();
    routes.insert(
        "app.test".into(),
        ProxyRouteConfig {
            upstreams: vec![
                UpstreamEntry { address: "10.0.0.1:3000".into(), weight: 1 },
                UpstreamEntry { address: "10.0.0.2:3000".into(), weight: 1 },
            ],
            tls: None,
        },
    );
    routes.insert("idle.test".into(), ProxyRouteConfig { upstreams: vec![], tls: None });
    let config = ProxyConfig { http_listen: "127.0.0.1:0".into(), https_listen: None, routes };
    ProxyState::from_config(&config, metrics)
}

fn request(host: Option<&str>, path: &str, pq: Option<&str>, method: &str) -> IncomingRequest {
    IncomingRequest {
        host_header: host.map(|h| h.to_string()),
        path: path.to_string(),
        path_and_query: pq.map(|p| p.to_string()),
        method: method.to_string(),
        headers: vec![],
        body: vec![],
    }
}

#[test]
fn host_is_text_before_first_colon() {
    assert_eq!(host_of("app.test:8080"), "app.test");
    assert_eq!(host_of("app.test"), "app.test");
    assert_eq!(host_of(""), "");
    assert_eq!(host_of(":80"), "");
    assert_eq!(host_of("a:b:c"), "a");
    assert_eq!(host_of("héllo.test:1"), "héllo.test");
}

#[test]
fn hop_headers_ignore_ascii_case() {
    assert!(is_hop_header_name("host"));
    assert!(is_hop_header_name("Host"));
    assert!(is_hop_header_name("CONNECTION"));
    assert!(!is_hop_header_name("hosts"));
    assert!(!is_hop_header_name("x-forwarded-host"));
    assert!(eq_ignore_ascii_case("AbC", "aBc"));
    assert!(!eq_ignore_ascii_case("abc", "abd"));
    assert!(!eq_ignore_ascii_case("abc", "ab"));
}

fn h(name: &str, value: &[u8]) -> (String, Vec<u8>) {
    (name.to_string(), value.to_vec())
}

#[test]
fn forwarded_headers_drop_only_host_and_connection() {
    let headers = vec![
        h("host", b"app.test"),
        h("accept", b"*/*"),
        h("Connection", b"keep-alive"),
        h("x-binary", &[0xff, 0x00, 0x80]),
        h("x-trace", b"1"),
        h("accept", b"text/html"),
    ];
    assert_eq!(
        forward_headers(&headers),
        vec![h("accept", b"*/*"), h("x-binary", &[0xff, 0x00, 0x80]), h("x-trace", b"1"), h("accept", b"text/html")]
    );
}

#[test]
fn uri_joins_upstream_and_path() {
    assert_eq!(forward_uri("10.0.0.1:3000", Some("/a/b?x=1")), "http://10.0.0.1:3000/a/b?x=1");
    assert_eq!(forward_uri("10.0.0.1:3000", None), "http://10.0.0.1:3000/");
}

#[test]
fn relayed_status_is_valid_or_bad_gateway() {
    assert_eq!(relay_status(200), 200);
    assert_eq!(relay_status(100), 100);
    assert_eq!(relay_status(999), 999);
    assert_eq!(relay_status(99), 502);
    assert_eq!(relay_status(1000), 502);
    assert_eq!(relay_status(0), 502);
}

#[test]
fn reply_plans() {
    let reply = UpstreamReply {
        status: 404,
        headers: vec![h("content-type", b"text/plain"), h("x-upstream", b"a")],
        body: b"not here".to_vec(),
    };
    match plan_reply(Some(reply)) {
        ReplyPlan::Relay { status, headers, body } => {
            assert_eq!(status, 404);
            assert_eq!(headers, vec![h("content-type", b"text/plain"), h("x-upstream", b"a")]);
            assert_eq!(body, b"not here".to_vec());
        }
        other => panic!("unexpected plan {other:?}"),
    }
    match plan_reply(Some(UpstreamReply { status: 42, headers: vec![], body: vec![] })) {
        ReplyPlan::Relay { status, .. } => assert_eq!(status, 502),
        other => panic!("unexpected plan {other:?}"),
    }
    match plan_reply(None) {
        ReplyPlan::Fail { status, error_type } => {
            assert_eq!(status, 502);
            assert_eq!(error_type, ERROR_UPSTREAM);
        }
        other => panic!("unexpected plan {other:?}"),
    }
    assert_eq!(ERROR_UPSTREAM, "upstream_error");
}

#[test]
fn metrics_path_is_served_by_the_proxy() {
    let disabled: ProxyState = state_with(None);
    match plan_request(&disabled, request(Some("app.test"), "/metrics", Some("/metrics"), "GET")) {
        RequestPlan::Metrics { status, content_type, enabled } => {
            assert_eq!(status, 200);
            assert_eq!(content_type, METRICS_CONTENT_TYPE);
            assert!(!enabled);
        }
        other => panic!("unexpected plan {other:?}"),
    }
    let enabled = state_with(Some(Arc::new(())));
    match plan_request(&enabled, request(None, "/metrics", None, "GET")) {
        RequestPlan::Metrics { enabled, .. } => assert!(enabled),
        other => panic!("unexpected plan {other:?}"),
    }
}

#[test]
fn unknown_host_returns_bad_gateway_plan() {
    let state: ProxyState = state_with(None);
    for host in [Some("unknown.test"), None, Some("idle.test:80")] {
        match plan_request(&state, request(host, "/", Some("/"), "GET")) {
            RequestPlan::Reject { domain, status, error_type, body } => {
                assert_eq!(domain, host.map(|h| h.split(':').next().unwrap()).unwrap_or(""));
                assert_eq!(status, 502);
                assert_eq!(error_type, ERROR_NO_UPSTREAM);
                assert_eq!(body, NO_UPSTREAM_BODY);
            }
            other => panic!("unexpected plan {other:?}"),
        }
    }
}

#[test]
fn known_host_is_forwarded_as_received_round_robin() {
    let state: ProxyState = state_with(None);
    let mut req = request(Some("app.test:8080"), "/x", Some("/x?y=1"), "TRACE");
    req.headers = vec![h("host", b"app.test:8080"), h("accept", b"*/*")];
    req.body = b"payload".to_vec();
    let mut seen = Vec::new();
    for _ in 0..4 {
        match plan_request(&state, req.clone()) {
            RequestPlan::Forward { domain, upstream, uri, method, headers, body } => {
                assert_eq!(domain, "app.test");
                assert_eq!(method, "TRACE");
                assert_eq!(headers, vec![h("accept", b"*/*")]);
                assert_eq!(body, b"payload".to_vec());
                assert_eq!(uri, format!("http://{upstream}/x?y=1"));
                seen.push(upstream);
            }
            other => panic!("unexpected plan {other:?}"),
        }
    }
    assert_eq!(seen, vec!["10.0.0.1:3000", "10.0.0.2:3000", "10.0.0.1:3000", "10.0.0.2:3000"]);
}

#[test]
fn methods_are_forwarded_unchanged() {
    let state: ProxyState = state_with(None);
    for m in ["GET", "POST", "PUT", "DELETE", "PATCH", "HEAD", "OPTIONS", "PROPFIND", "post"] {
        match plan_request(&state, request(Some("app.test"), "/", None, m)) {
            RequestPlan::Forward { method, uri, .. } => {
                assert_eq!(method, m);
                assert!(uri.ends_with(":3000/"));
            }
            other => panic!("unexpected plan {other:?}"),
        }
    }
}
