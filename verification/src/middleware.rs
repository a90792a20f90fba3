//! Middleware: code that runs around every handled request.

use vstd::prelude::*;

use crate::request::Request;
use crate::response::Response;

verus! {

/// What a part of the request pipeline may answer: `rel(req, res)` holds
/// when `res` is a possible answer to `req`.
pub type Answers = spec_fn(Request, Response) -> bool;

/// The rest of the chain a middleware wraps: the middleware registered after
/// it and, at the end, the route's handler.
pub trait Next {
    /// What the rest of the chain may answer: `self.gives()(req, res)` holds
    /// when `res` is a possible answer to `req`.
    spec fn gives(&self) -> Answers;

    /// Pass the request on and return what the rest of the chain answers.
    fn run(&self, req: &Request) -> (r: Response)
        ensures
            self.gives()(*req, r),
    ;
}

/// Middleware sits in between the server and the final route handler.
///
/// Every middleware receives the [`Request`] and a `next` continuation that
/// forwards execution to the remaining middleware chain (and eventually the
/// handler). The middleware may inspect the request, short-circuit with its
/// own response, or post-process the response returned by `next.run(req)`.
pub trait Middleware: Send + Sync {
    /// `res` is an answer this middleware may give to `req` when the rest of
    /// the chain answers as `next` allows. Unless an implementation says
    /// more, any response is.
    closed spec fn answers(&self, req: Request, next: Answers, res: Response) -> bool {
        true
    }

    /// Handle the request, usually by passing it on through `next`.
    fn call(&self, req: &Request, next: &dyn Next) -> (r: Response)
        ensures
            self.answers(*req, next.gives(), r),
    ;
}

} // verus!
