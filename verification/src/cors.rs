//! CORS header values added to every response.

use vstd::prelude::*;
use vstd::string::*;

verus! {

/// The request headers a browser may send cross-origin.
pub open spec fn allowed_headers() -> Seq<char> {
    "Authorization, Content-Type, If-Match, If-None-Match, If-Modified-Since, If-Unmodified-Since"@
}

/// The response headers a cross-origin script may read.
pub open spec fn exposed_headers() -> Seq<char> {
    "ETag, Last-Modified, Location, Link, WAC-Allow"@
}

/// The byte `*` (ASCII code 42), which allows any origin.
pub open spec fn wildcard_origin() -> u8 {
    42u8
}

/// The values of the CORS headers of one response.
#[derive(Clone, Debug)]
pub struct CorsHeaders {
    /// `Access-Control-Allow-Origin`.
    pub allow_origin: Vec<u8>,
    /// `Access-Control-Allow-Headers`.
    pub allow_headers: String,
    /// `Access-Control-Expose-Headers`.
    pub expose_headers: String,
}

/// The CORS headers for a response to a request whose `Origin` header had
/// the bytes `origin`: the origin is echoed back, and any origin (`*`) is
/// allowed when the request named none.
pub fn cors_headers(origin: Option<Vec<u8>>) -> (h: CorsHeaders)
    ensures
        h.allow_origin@ == match origin {
            Some(o) => o@,
            None => seq![wildcard_origin()],
        },
        h.allow_headers@ == allowed_headers(),
        h.expose_headers@ == exposed_headers(),
{
    let allow_origin = match origin {
        Some(o) => o,
        None => {
            let mut star: Vec<u8> = Vec::new();
            star.push(42u8);
            assert(star@ =~= seq![wildcard_origin()]);
            star
        },
    };
    CorsHeaders {
        allow_origin,
        allow_headers: String::from_str(
            "Authorization, Content-Type, If-Match, If-None-Match, If-Modified-Since, If-Unmodified-Since",
        ),
        expose_headers: String::from_str("ETag, Last-Modified, Location, Link, WAC-Allow"),
    }
}

} // verus!
