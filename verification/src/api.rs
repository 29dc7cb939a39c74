//! What the HTTP layer answers: the status and message of each error, the
//! success message, and the name given to an upload without one.
use vstd::prelude::*;

verus! {

broadcast use vstd::string::group_string_axioms;

/// Errors of the semantic-data endpoint; the `String` is the message shown
/// to the client.
#[derive(Debug, Clone)]
pub enum SemanticDataApiError {
    BadRequest(String),
    SemanticInferenceError(String),
    InternalServerError,
}

/// The request body of the endpoint; the PDF itself travels as a multipart
/// upload.
#[derive(Debug, Clone, Copy, PartialEq, Eq, Structural)]
pub struct SemanticDataRequestBody {}

/// HTTP status of each error: 400, 422 and 500.
pub open spec fn error_status(e: SemanticDataApiError) -> u16 {
    match e {
        SemanticDataApiError::BadRequest(_) => 400,
        SemanticDataApiError::SemanticInferenceError(_) => 422,
        SemanticDataApiError::InternalServerError => 500,
    }
}

/// Message sent with each error: the carried message, or a fixed apology
/// for an internal error.
pub open spec fn error_message(e: SemanticDataApiError) -> Seq<char> {
    match e {
        SemanticDataApiError::BadRequest(m) => m@,
        SemanticDataApiError::SemanticInferenceError(m) => m@,
        SemanticDataApiError::InternalServerError => "Something went wrong, Please try again later"@,
    }
}

impl SemanticDataApiError {
    pub fn status_code(&self) -> (code: u16)
        ensures
            code == error_status(*self),
    {
        match self {
            SemanticDataApiError::BadRequest(_) => 400,
            SemanticDataApiError::SemanticInferenceError(_) => 422,
            SemanticDataApiError::InternalServerError => 500,
        }
    }

    pub fn message(&self) -> (m: String)
        ensures
            m@ == error_message(*self),
    {
        match self {
            SemanticDataApiError::BadRequest(m) => m.clone(),
            SemanticDataApiError::SemanticInferenceError(m) => m.clone(),
            SemanticDataApiError::InternalServerError => String::from_str(
                "Something went wrong, Please try again later",
            ),
        }
    }
}

/// Message of a successful response.
pub fn success_message() -> (m: String)
    ensures
        m@ == "Maldives generated successfully"@,
{
    String::from_str("Maldives generated successfully")
}

/// The name of an uploaded file: its own, or `document.pdf`.
pub fn upload_file_name(name: Option<&str>) -> (out: String)
    ensures
        match name {
            Some(n) => out@ == n@,
            None => out@ == "document.pdf"@,
        },
{
    match name {
        Some(n) => String::from_str(n),
        None => String::from_str("document.pdf"),
    }
}

/// Compiles only for types that can move between threads.
pub fn assert_send<T: Send>() {
}

} // verus!
