//! Answers to requests that fail.

use vstd::prelude::*;

verus! {

/// What a refusal is.
#[verifier::ext_equal]
pub struct ApiErrorView {
    pub status: nat,
    pub message: Seq<char>,
}

/// Why a request is refused: an HTTP status and a message.
#[derive(Debug, PartialEq)]
pub struct ApiError {
    pub status: u16,
    pub message: String,
}

impl View for ApiError {
    type V = ApiErrorView;

    open spec fn view(&self) -> ApiErrorView {
        ApiErrorView { status: self.status as nat, message: self.message@ }
    }
}

pub open spec fn refused(status: nat, message: Seq<char>) -> ApiErrorView {
    ApiErrorView { status, message }
}

impl ApiError {
    pub fn new(status: u16, message: &str) -> (r: ApiError)
        ensures
            r@ == refused(status as nat, message@),
    {
        ApiError { status, message: message.to_owned() }
    }

    pub fn bad_request(message: &str) -> (r: ApiError)
        ensures
            r@ == refused(400, message@),
    {
        ApiError::new(400, message)
    }

    pub fn not_found(message: &str) -> (r: ApiError)
        ensures
            r@ == refused(404, message@),
    {
        ApiError::new(404, message)
    }

    pub fn unprocessable(message: &str) -> (r: ApiError)
        ensures
            r@ == refused(422, message@),
    {
        ApiError::new(422, message)
    }

    pub fn internal() -> (r: ApiError)
        ensures
            r@ == refused(500, "Der Auftrag konnte nicht verarbeitet werden."@),
    {
        ApiError::new(500, "Der Auftrag konnte nicht verarbeitet werden.")
    }

    pub fn upstream(message: &str) -> (r: ApiError)
        ensures
            r@ == refused(502, message@),
    {
        ApiError::new(502, message)
    }

    pub fn unavailable(message: &str) -> (r: ApiError)
        ensures
            r@ == refused(503, message@),
    {
        ApiError::new(503, message)
    }
}

/// Whether a request is accepted, and if not, why.
pub open spec fn verdict(r: Result<(), ApiError>) -> Option<ApiErrorView> {
    match r {
        Ok(()) => None,
        Err(error) => Some(error@),
    }
}

pub open spec fn text_or_refusal(r: Result<String, ApiError>) -> Result<Seq<char>, ApiErrorView> {
    match r {
        Ok(text) => Ok(text@),
        Err(error) => Err(error@),
    }
}

} // verus!
