//! App-internal error carrier: any non-client failure is surfaced as a
//! generic `500 Internal Server Error` with a short diagnostic body.

use vstd::prelude::*;

use vstd::string::StrSliceExecFns;
use vstd::utf8::encode_utf8;

use crate::router::ApiResponse;

verus! {

/// The body of a 500 response for a given diagnostic text.
pub open spec fn err_body(detail: Seq<char>) -> Seq<u8> {
    encode_utf8("Something went wrong: "@) + encode_utf8(detail)
}

/// App-internal type for all errors: a short diagnostic for the client.
#[derive(Debug)]
pub struct AppError {
    pub detail: String,
}

impl AppError {
    /// Wrap a diagnostic text.
    pub fn new(detail: String) -> (r: AppError)
        ensures
            r.detail == detail,
    {
        AppError { detail }
    }

    /// The `500 Internal Server Error` response for this error, with a plain
    /// text body naming the diagnostic.
    pub fn into_response(&self) -> (r: ApiResponse)
        ensures
            r.status == 500,
            r.content_type matches Some(ct) && ct@ == "text/plain; charset=utf-8"@,
            r.body@ == err_body(self.detail@),
    {
        let mut body = "Something went wrong: ".as_bytes_vec();
        let mut detail = self.detail.as_str().as_bytes_vec();
        body.append(&mut detail);
        ApiResponse {
            status: 500,
            content_type: Some(String::from_str("text/plain; charset=utf-8")),
            body,
        }
    }
}

} // verus!
