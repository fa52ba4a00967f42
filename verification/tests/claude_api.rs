use world_weaver::llm::claude_api::ClaudeApiError;

#[test]
fn error_types_map_to_their_variants() {
    let m = || "m".to_string();
    assert_eq!(
        ClaudeApiError::from_type("invalid_request_error", m()),
        ClaudeApiError::InvalidRequest { message: m() }
    );
    assert_eq!(
        ClaudeApiError::from_type("authentication_error", m()),
        ClaudeApiError::Authentication { message: m() }
    );
    assert_eq!(
        ClaudeApiError::from_type("permission_error", m()),
        ClaudeApiError::Permission { message: m() }
    );
    assert_eq!(
        ClaudeApiError::from_type("not_found_error", m()),
        ClaudeApiError::NotFound { message: m() }
    );
    assert_eq!(
        ClaudeApiError::from_type("request_too_large", m()),
        ClaudeApiError::RequestTooLarge { message: m() }
    );
    assert_eq!(
        ClaudeApiError::from_type("rate_limit_error", m()),
        ClaudeApiError::RateLimit { message: m() }
    );
    assert_eq!(
        ClaudeApiError::from_type("api_error", m()),
        ClaudeApiError::Api { message: m() }
    );
    assert_eq!(
        ClaudeApiError::from_type("overloaded_error", m()),
        ClaudeApiError::Overloaded { message: m() }
    );
    assert_eq!(
        ClaudeApiError::from_type("somethingelse", m()),
        ClaudeApiError::Unexpected { error_type: "somethingelse".into(), message: m() }
    );
}
