use ollamamq::dispatcher::{is_supported_path, resolve_user_id};

#[test]
fn identity_header_or_anonymous() {
    assert_eq!(resolve_user_id(Some("alice")).as_str(), "alice");
    assert_eq!(resolve_user_id(None).as_str(), "anonymous");
    assert_eq!(resolve_user_id(Some("")).as_str(), "");
}

#[test]
fn supported_routes() {
    assert!(is_supported_path("/api/generate"));
    assert!(is_supported_path("/api/chat"));
    assert!(is_supported_path("/v1/chat/completions"));
    assert!(is_supported_path("/v1/completions"));
    assert!(!is_supported_path("/health"));
    assert!(!is_supported_path("/api/generate/"));
    assert!(!is_supported_path(""));
}
