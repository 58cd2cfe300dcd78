//! Error taxonomy for HTTP dispatch.

use vstd::prelude::*;

verus! {

/// A failure of one API invocation.
pub enum ApiError {
    /// The response status did not match the endpoint's success status.
    HTTPStatusError { status: u16 },
    /// Status 401, with the authenticator's hint.
    HTTPUnauthorizedError { status: u16, help: String },
    /// A response body could not be read as JSON.
    JsonSerdeDeserError { message: String },
}

impl ApiError {
    /// Classify an unexpected status: 401 carries the authenticator's
    /// help message, or a generic hint when no authenticator is present.
    pub fn from_http_status(status: u16, auth_help: Option<String>) -> (r: ApiError)
        ensures
            status == 401 && auth_help is Some ==> r == (ApiError::HTTPUnauthorizedError {
                status,
                help: auth_help->0,
            }),
            status == 401 && auth_help is None ==> (r matches ApiError::HTTPUnauthorizedError {
                status: s,
                help,
            } && s == status && help@ == "Check your authentification"@),
            status != 401 ==> r == (ApiError::HTTPStatusError { status }),
    {
        if status == 401 {
            match auth_help {
                Some(help) => ApiError::HTTPUnauthorizedError { status, help },
                None => ApiError::HTTPUnauthorizedError {
                    status,
                    help: String::from_str("Check your authentification"),
                },
            }
        } else {
            ApiError::HTTPStatusError { status }
        }
    }

    /// A short description of the error.
    pub fn describe(&self) -> (r: String)
        ensures
            self matches ApiError::HTTPStatusError { .. } ==> r@ == "HTTP Status error"@,
            self matches ApiError::HTTPUnauthorizedError { .. } ==> r@
                == "HTTP Status: unauthorized"@,
            self matches ApiError::JsonSerdeDeserError { .. } ==> r@
                == "Error reading a JSON document"@,
    {
        match self {
            ApiError::HTTPStatusError { .. } => String::from_str("HTTP Status error"),
            ApiError::HTTPUnauthorizedError { .. } => String::from_str(
                "HTTP Status: unauthorized",
            ),
            ApiError::JsonSerdeDeserError { .. } => String::from_str(
                "Error reading a JSON document",
            ),
        }
    }
}

} // verus!
