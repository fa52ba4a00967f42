//! Request shapes and error taxonomy of the text-generation API.
//!
//! Only the data and the error classification live here; the HTTP transport
//! that serializes and sends a request is outside the library.
use crate::llm::InputMessage;
use crate::strutil::str_eq_str;
use vstd::prelude::*;
use vstd::string::StringExecFns;

verus! {

broadcast use vstd::string::group_string_axioms;

/// A request to the API: the key to authenticate with and the body to send.
#[derive(Debug)]
pub struct Request {
    pub api_key: String,
    pub data: RequestBody,
}

/// The body of a messages request as the API expects it.
#[derive(Debug)]
pub struct RequestBody {
    pub model: String,
    pub messages: Vec<InputMessage>,
    pub system: Option<String>,
    pub max_tokens: usize,
    pub stream: bool,
}

/// Errors reported by the API, one variant per documented status.
#[derive(Debug, Clone, PartialEq, Eq)]
pub enum ClaudeApiError {
    InvalidRequest { message: String },
    Authentication { message: String },
    Permission { message: String },
    NotFound { message: String },
    RequestTooLarge { message: String },
    RateLimit { message: String },
    Api { message: String },
    Overloaded { message: String },
    Unexpected { error_type: String, message: String },
}

impl ClaudeApiError {
    /// Classifies an error by the `type` string the API reports.
    pub fn from_type(error_type: &str, message: String) -> (r: Self)
        ensures
            error_type@ == "invalid_request_error"@ ==> (r matches ClaudeApiError::InvalidRequest {
                message: m,
            } && m == message),
            error_type@ == "authentication_error"@ ==> (r matches ClaudeApiError::Authentication {
                message: m,
            } && m == message),
            error_type@ == "permission_error"@ ==> (r matches ClaudeApiError::Permission {
                message: m,
            } && m == message),
            error_type@ == "not_found_error"@ ==> (r matches ClaudeApiError::NotFound {
                message: m,
            } && m == message),
            error_type@ == "request_too_large"@ ==> (r matches ClaudeApiError::RequestTooLarge {
                message: m,
            } && m == message),
            error_type@ == "rate_limit_error"@ ==> (r matches ClaudeApiError::RateLimit {
                message: m,
            } && m == message),
            error_type@ == "api_error"@ ==> (r matches ClaudeApiError::Api { message: m } && m
                == message),
            error_type@ == "overloaded_error"@ ==> (r matches ClaudeApiError::Overloaded {
                message: m,
            } && m == message),
            (error_type@ != "invalid_request_error"@ && error_type@ != "authentication_error"@
                && error_type@ != "permission_error"@ && error_type@ != "not_found_error"@
                && error_type@ != "request_too_large"@ && error_type@ != "rate_limit_error"@
                && error_type@ != "api_error"@ && error_type@ != "overloaded_error"@) ==> (
            r matches ClaudeApiError::Unexpected { error_type: t, message: m } && t@ == error_type@
                && m == message),
    {
        proof {
            reveal_strlit("invalid_request_error");
            reveal_strlit("authentication_error");
            reveal_strlit("permission_error");
            reveal_strlit("not_found_error");
            reveal_strlit("request_too_large");
            reveal_strlit("rate_limit_error");
            reveal_strlit("api_error");
            reveal_strlit("overloaded_error");
            assert("invalid_request_error"@.len() == 21);
            assert("authentication_error"@.len() == 20);
            assert("permission_error"@.len() == 16);
            assert("not_found_error"@.len() == 15);
            assert("request_too_large"@.len() == 17);
            assert("rate_limit_error"@.len() == 16);
            assert("api_error"@.len() == 9);
            assert("overloaded_error"@.len() == 16);
            assert("permission_error"@[0] == 'p');
            assert("rate_limit_error"@[0] == 'r');
            assert("overloaded_error"@[0] == 'o');
        }
        if str_eq_str(error_type, "invalid_request_error") {
            Self::InvalidRequest { message }
        } else if str_eq_str(error_type, "authentication_error") {
            Self::Authentication { message }
        } else if str_eq_str(error_type, "permission_error") {
            Self::Permission { message }
        } else if str_eq_str(error_type, "not_found_error") {
            Self::NotFound { message }
        } else if str_eq_str(error_type, "request_too_large") {
            Self::RequestTooLarge { message }
        } else if str_eq_str(error_type, "rate_limit_error") {
            Self::RateLimit { message }
        } else if str_eq_str(error_type, "api_error") {
            Self::Api { message }
        } else if str_eq_str(error_type, "overloaded_error") {
            Self::Overloaded { message }
        } else {
            let t = String::from_str(error_type);
            Self::Unexpected { error_type: t, message }
        }
    }
}

} // verus!
