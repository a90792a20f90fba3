//! Request handlers: the trait that turns a request into a response, and a
//! wrapper that lets plain functions and closures be handlers.

use vstd::prelude::*;

use crate::request::Request;
use crate::response::Response;

verus! {

/// A handler is any type that can process an HTTP [`Request`] and produce a
/// [`Response`].
///
/// Implement this trait for your own handler structs, or use the provided
/// [`FnHandler`] wrapper to use plain functions / closures.
pub trait Handler: Send + Sync {
    /// `res` is an answer this handler may give to `req`. Unless an
    /// implementation says more, any response is.
    closed spec fn handles(&self, req: Request, res: Response) -> bool {
        true
    }

    /// Answer the request.
    fn handle(&self, req: &Request) -> (r: Response)
        ensures
            self.handles(*req, r),
    ;
}

/// A [`Handler`] implementation that wraps a plain function or closure.
pub struct FnHandler<F> where F: Fn(&Request) -> Response + Send + Sync {
    f: F,
}

impl<F> FnHandler<F> where F: Fn(&Request) -> Response + Send + Sync {
    /// The wrapped function.
    pub closed spec fn func(&self) -> F {
        self.f
    }

    #[verifier::type_invariant]
    spec fn callable_on_every_request(&self) -> bool {
        forall|req: &Request| #[trigger] call_requires(self.f, (req,))
    }

    /// Wrap a function or closure that accepts every request.
    pub fn new(f: F) -> (r: Self)
        requires
            forall|req: &Request| #[trigger] call_requires(f, (req,)),
        ensures
            r.func() == f,
    {
        FnHandler { f }
    }
}

impl<F> Handler for FnHandler<F> where F: Fn(&Request) -> Response + Send + Sync {
    /// The wrapped function may answer `req` with `res`.
    open spec fn handles(&self, req: Request, res: Response) -> bool {
        call_ensures(self.func(), (&req,), res)
    }

    /// Call the wrapped function on the request.
    fn handle(&self, req: &Request) -> (r: Response)
        ensures
            call_ensures(self.func(), (req,), r),
    {
        proof {
            use_type_invariant(self);
        }
        (self.f)(req)
    }
}

} // verus!
