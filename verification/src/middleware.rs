//! The middleware capability: a processing step around a handler, implemented
//! by users of the library.

use vstd::prelude::*;

verus! {

use crate::error::Error;
use crate::http::request::Request;
use crate::http::response::Response;

/// A processing step that sees the request and response before the handler
/// and may transform or reject them.
pub trait Middleware {
    /// Transforms the exchange, or ends it with an error.
    fn next(req: Request, res: Response) -> Result<(Request, Response), Error>;
}

} // verus!
