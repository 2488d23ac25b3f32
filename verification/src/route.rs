//! A route value: one handler together with the middlewares that may wrap it.

use vstd::prelude::*;

verus! {

use crate::http::request::Request;
use crate::http::response::Response;
use crate::middleware::Middleware;

/// One route's handler and its middlewares.
pub struct Route<F, M> {
    pub middlewares: Vec<M>,
    pub handler: F,
}

impl<F: Fn(Request, Response) -> Result<(Request, Response), String>, M: Middleware> Route<F, M> {
    /// A route from a handler and its middlewares.
    pub fn new(handler: F, middlewares: Vec<M>) -> (r: Route<F, M>)
        ensures
            r.handler == handler,
            r.middlewares == middlewares,
    {
        Route { handler, middlewares }
    }

    /// Runs the route's handler on the exchange.
    pub fn handle(&self, req: Request, res: Response) -> (r: Result<(Request, Response), String>)
        requires
            call_requires(self.handler, (req, res)),
        ensures
            call_ensures(self.handler, (req, res), r),
    {
        (self.handler)(req, res)
    }
}

} // verus!
