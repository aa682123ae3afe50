use dahlia_utils::endpoints::Endpoint;

#[test]
fn endpoint_paths() {
    assert_eq!(Endpoint::Health.path(), "/health");
    assert_eq!(Endpoint::Status.path(), "/api/v1/status");
    assert_eq!(Endpoint::Info.path(), "/api/v1/info");
    assert_eq!(Endpoint::Metrics.path(), "/metrics");
}

#[test]
fn endpoint_addresses() {
    assert_eq!(Endpoint::Health.url("http://localhost:8080"), "http://localhost:8080/health");
    assert_eq!(Endpoint::Status.url("http://h:1"), "http://h:1/api/v1/status");
    assert_eq!(Endpoint::Info.url(""), "/api/v1/info");
    assert_eq!(Endpoint::Metrics.url("http://h/"), "http://h//metrics");
}

#[test]
fn endpoint_body_kinds() {
    assert!(Endpoint::Health.answers_json());
    assert!(Endpoint::Status.answers_json());
    assert!(Endpoint::Info.answers_json());
    assert!(!Endpoint::Metrics.answers_json());
}
