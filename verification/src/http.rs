//! Plain HTTP response values the handlers compute: a status code and a
//! textual body. The surrounding server turns them into wire responses.

use vstd::prelude::*;

verus! {

/// Status of a response the library's rules produce.
pub const STATUS_OK: u16 = 200;

/// Created.
pub const STATUS_CREATED: u16 = 201;

/// No content.
pub const STATUS_NO_CONTENT: u16 = 204;

/// Multi-status (WebDAV).
pub const STATUS_MULTI_STATUS: u16 = 207;

/// Not modified.
pub const STATUS_NOT_MODIFIED: u16 = 304;

/// Bad request.
pub const STATUS_BAD_REQUEST: u16 = 400;

/// Unauthorized: no session where one is required.
pub const STATUS_UNAUTHORIZED: u16 = 401;

/// Forbidden: a session without an overlapping role, or a mutation on a
/// read-only target.
pub const STATUS_FORBIDDEN: u16 = 403;

/// Not found.
pub const STATUS_NOT_FOUND: u16 = 404;

/// Method not allowed.
pub const STATUS_METHOD_NOT_ALLOWED: u16 = 405;

/// Not acceptable.
pub const STATUS_NOT_ACCEPTABLE: u16 = 406;

/// Partial content.
pub const STATUS_PARTIAL_CONTENT: u16 = 206;

/// Range not satisfiable.
pub const STATUS_RANGE_NOT_SATISFIABLE: u16 = 416;

/// Internal server error.
pub const STATUS_INTERNAL_SERVER_ERROR: u16 = 500;

/// A computed response: status code and textual body.
#[derive(Debug, Clone)]
pub struct HttpResponse {
    /// The HTTP status code.
    pub status: u16,
    /// The textual body; empty where the status speaks for itself.
    pub body: String,
}

impl HttpResponse {
    /// An empty-bodied response with the given status.
    pub fn with_status(status: u16) -> (r: Self)
        ensures
            r.status == status,
            r.body@.len() == 0,
    {
        HttpResponse { status, body: String::new() }
    }
}

} // verus!
