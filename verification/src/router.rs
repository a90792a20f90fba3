//! Route registration, matching and dispatch.
//!
//! A route is a method and a path pattern split into segments; a segment
//! that starts with `:` is a parameter and matches any request segment,
//! which is then available under the parameter's name.

use vstd::prelude::*;

use crate::handler::Handler;
use crate::map::{inserted, Entries, StringMap};
use crate::middleware::{Answers, Middleware, Next};
use crate::request::{Method, MethodView, Request};
use crate::response::{is_method_not_allowed_response, is_not_found_response, Response};
use crate::text::{first_index_of, lemma_split_parts_no_separator, split_char, split_parts, views};

verus! {

// ---------------------------------------------------------------------------
// Path segments
// ---------------------------------------------------------------------------

/// The segments of a path: the pieces between `/` characters, without the
/// empty ones (so leading, trailing and repeated slashes do not count).
pub open spec fn path_segments(path: Seq<char>) -> Seq<Seq<char>> {
    split_parts(path, '/').filter(|s: Seq<char>| s.len() > 0)
}

/// Split a URL path into segments, ignoring leading/trailing slashes.
pub fn path_to_segments(path: &str) -> (r: Vec<String>)
    ensures
        views(r@) == path_segments(path@),
{
    let parts = split_char(path, '/');
    let ghost pv = views(parts@);
    let ghost nonempty = |s: Seq<char>| s.len() > 0;
    let n = parts.len();
    let mut r: Vec<String> = Vec::new();
    let mut i: usize = 0;
    while i < n
        invariant
            i <= n,
            n == parts@.len(),
            pv == views(parts@),
            pv.len() == n,
            nonempty == (|s: Seq<char>| s.len() > 0),
            views(r@) == pv.take(i as int).filter(nonempty),
        decreases n - i,
    {
        reveal_with_fuel(Seq::<_>::filter, 1);
        let ghost before = r@;
        if parts[i].as_str().unicode_len() > 0 {
            r.push(parts[i].clone());
            assert(views(r@) =~= views(before).push(pv[i as int]));
        } else {
            assert(r@ == before);
        }
        assert(pv.take(i + 1).drop_last() =~= pv.take(i as int));
        i = i + 1;
    }
    assert(pv.take(n as int) =~= pv);
    r
}

// ---------------------------------------------------------------------------
// Matching
// ---------------------------------------------------------------------------

/// A pattern segment that captures whatever request segment stands there.
pub open spec fn is_param_segment(s: Seq<char>) -> bool {
    s.len() > 0 && s[0] == ':'
}

/// A route pattern matches request segments when both have the same number
/// of segments and every non-parameter segment is equal to its
/// counterpart.
pub open spec fn segments_match(route: Seq<Seq<char>>, req: Seq<Seq<char>>) -> bool {
    &&& route.len() == req.len()
    &&& forall|i: int|
        0 <= i < route.len() ==> is_param_segment(#[trigger] route[i]) || route[i] == req[i]
}

/// The parameters a match captures, inserted from left to right into `acc`:
/// each parameter segment maps its name (the segment without `:`) to the
/// request segment in the same place.
pub open spec fn captured(acc: Entries, route: Seq<Seq<char>>, req: Seq<Seq<char>>) -> Entries
    decreases route.len(),
{
    if route.len() == 0 || req.len() == 0 {
        acc
    } else {
        captured(
            if is_param_segment(route[0]) {
                inserted(acc, route[0].drop_first(), req[0])
            } else {
                acc
            },
            route.drop_first(),
            req.drop_first(),
        )
    }
}

/// The parameters a route pattern captures from request segments.
pub open spec fn route_params(route: Seq<Seq<char>>, req: Seq<Seq<char>>) -> Entries {
    captured(Seq::empty(), route, req)
}

/// Try to match a route pattern against request segments, returning the
/// captured parameters on success.
pub fn match_segments(route_segs: &Vec<String>, request_segs: &Vec<String>) -> (r: Option<
    StringMap,
>)
    ensures
        match r {
            Some(params) => segments_match(views(route_segs@), views(request_segs@))
                && params.entries() == route_params(views(route_segs@), views(request_segs@)),
            None => !segments_match(views(route_segs@), views(request_segs@)),
        },
{
    let ghost rv = views(route_segs@);
    let ghost qv = views(request_segs@);
    let n = route_segs.len();
    if n != request_segs.len() {
        return None;
    }
    let mut params = StringMap::new();
    assert(rv.skip(0) =~= rv);
    assert(qv.skip(0) =~= qv);
    let mut i: usize = 0;
    while i < n
        invariant
            i <= n,
            n == route_segs@.len(),
            n == request_segs@.len(),
            rv == views(route_segs@),
            qv == views(request_segs@),
            forall|j: int| 0 <= j < i ==> is_param_segment(#[trigger] rv[j]) || rv[j] == qv[j],
            captured(params.entries(), rv.skip(i as int), qv.skip(i as int)) == route_params(
                rv,
                qv,
            ),
        decreases n - i,
    {
        let r = route_segs[i].as_str();
        let q = request_segs[i].as_str();
        assert(rv[i as int] == r@ && qv[i as int] == q@);
        assert(rv.skip(i as int).drop_first() =~= rv.skip(i + 1));
        assert(qv.skip(i as int).drop_first() =~= qv.skip(i + 1));
        let rlen = r.unicode_len();
        if rlen > 0 && r.get_char(0) == ':' {
            let name = String::from_str(r.substring_char(1, rlen));
            assert(name@ =~= r@.drop_first());
            params.insert(name, String::from_str(q));
        } else if !crate::text::str_eq(r, q) {
            assert(!(is_param_segment(rv[i as int]) || rv[i as int] == qv[i as int]));
            return None;
        }
        i = i + 1;
    }
    assert(rv.skip(n as int).len() == 0);
    Some(params)
}

// ---------------------------------------------------------------------------
// Route search
// ---------------------------------------------------------------------------

/// The outcome of looking a request up in a route table.
pub enum RouteOutcome {
    /// The route at this position matches both path and method.
    Found(int),
    /// Some route matches the path, but none with the request's method.
    WrongMethod,
    /// No route matches the path.
    NotFound,
}

/// Route `i` of the table matches the request segments.
pub open spec fn path_matches_at(
    table: Seq<(MethodView, Seq<Seq<char>>)>,
    req: Seq<Seq<char>>,
    i: int,
) -> bool {
    0 <= i < table.len() && segments_match(table[i].1, req)
}

/// Route `i` of the table matches the request segments and method.
pub open spec fn route_matches_at(
    table: Seq<(MethodView, Seq<Seq<char>>)>,
    method: MethodView,
    req: Seq<Seq<char>>,
    i: int,
) -> bool {
    path_matches_at(table, req, i) && table[i].0 == method
}

/// Scan the routes from position `i` on, where `seen` records whether an
/// earlier route matched the path with another method.
pub open spec fn search_from(
    table: Seq<(MethodView, Seq<Seq<char>>)>,
    method: MethodView,
    req: Seq<Seq<char>>,
    i: int,
    seen: bool,
) -> RouteOutcome
    decreases table.len() - i,
{
    if i < 0 || i >= table.len() {
        if seen {
            RouteOutcome::WrongMethod
        } else {
            RouteOutcome::NotFound
        }
    } else if segments_match(table[i].1, req) {
        if table[i].0 == method {
            RouteOutcome::Found(i)
        } else {
            search_from(table, method, req, i + 1, true)
        }
    } else {
        search_from(table, method, req, i + 1, seen)
    }
}

/// The outcome of looking a request up in a route table: the first route,
/// in registration order, that matches both path and method.
pub open spec fn route_outcome(
    table: Seq<(MethodView, Seq<Seq<char>>)>,
    method: MethodView,
    req: Seq<Seq<char>>,
) -> RouteOutcome {
    search_from(table, method, req, 0, false)
}

/// What a route lookup found.
pub enum RouteMatch {
    /// The route at `index` matches; `params` holds what it captured.
    Found { index: usize, params: StringMap },
    /// The path matches some route, but not with the request's method.
    WrongMethod,
    /// No route matches the path.
    NotFound,
}

// ---------------------------------------------------------------------------
// The router
// ---------------------------------------------------------------------------

/// A list of registered items (handlers or middleware), in registration
/// order.
struct Registry<T> {
    items: Vec<T>,
}

impl<T> Registry<T> {
    /// The number of items.
    closed spec fn count(&self) -> nat {
        self.items@.len()
    }

    /// Item `i`, in registration order.
    closed spec fn item(&self, i: int) -> T {
        self.items@[i]
    }

    fn new() -> (r: Registry<T>)
        ensures
            r.count() == 0,
    {
        Registry { items: Vec::new() }
    }

    fn add(&mut self, x: T)
        ensures
            final(self).count() == old(self).count() + 1,
            final(self).item(old(self).count() as int) == x,
            forall|j: int| 0 <= j < old(self).count() ==> #[trigger] final(self).item(j) == old(
                self,
            ).item(j),
    {
        self.items.push(x);
    }

    fn len(&self) -> (r: usize)
        ensures
            r == self.count(),
    {
        self.items.len()
    }

    fn get(&self, i: usize) -> (r: &T)
        requires
            i < self.count(),
        ensures
            *r == self.item(i as int),
    {
        &self.items[i]
    }
}

impl<U> Registry<Option<U>> {
    /// Every item is present.
    closed spec fn all_some(&self) -> bool {
        forall|i: int| 0 <= i < self.count() ==> #[trigger] self.item(i) is Some
    }

    fn get_some(&self, i: usize) -> (r: &U)
        requires
            i < self.count(),
            self.all_some(),
        ensures
            *r == self.item(i as int)->0,
    {
        assert(self.item(i as int) is Some);
        self.items[i].as_ref().unwrap()
    }
}

/// A registered route's method and path pattern.
struct Pattern {
    method: Method,
    /// Path segments, where a segment starting with `:` is a parameter.
    segments: Vec<String>,
}

/// The router holds all registered routes and dispatches incoming requests
/// to the correct handler, extracting path parameters along the way.
pub struct Router {
    patterns: Vec<Pattern>,
    handlers: Registry<Option<Box<dyn Handler>>>,
    middlewares: Registry<Option<Box<dyn Middleware>>>,
}

/// What answers a request once every middleware has run.
#[derive(Clone, Copy)]
enum Endpoint<'a> {
    /// The handler of the matched route.
    Route(&'a Box<dyn Handler>),
    /// No route matches the path: `404 Not Found`.
    NotFound,
    /// A route matches the path but not the method: `405 Method Not Allowed`.
    MethodNotAllowed,
}

/// `res` is an answer the endpoint may give to `req`.
spec fn endpoint_answers(end: Endpoint, req: Request, res: Response) -> bool {
    match end {
        Endpoint::Route(h) => h.handles(req, res),
        Endpoint::NotFound => is_not_found_response(res),
        Endpoint::MethodNotAllowed => is_method_not_allowed_response(res),
    }
}

/// What the endpoint may answer, as a relation.
spec fn endpoint_rel(end: Endpoint) -> Answers {
    |req: Request, res: Response| endpoint_answers(end, req, res)
}

/// What the middleware of `mws` from position `k` on may answer, each one
/// wrapping those after it, with `end` answering after the last.
spec fn chain_rel(mws: Registry<Option<Box<dyn Middleware>>>, k: int, end: Answers) -> Answers
    decreases mws.count() - k,
{
    if k >= mws.count() {
        end
    } else {
        let rest = chain_rel(mws, k + 1, end);
        |req: Request, res: Response| mws.item(k)->0.answers(req, rest, res)
    }
}

/// The rest of a middleware chain: the middleware from position `next_index`
/// on, then the endpoint.
struct Chain<'a> {
    middlewares: &'a Registry<Option<Box<dyn Middleware>>>,
    next_index: usize,
    end: Endpoint<'a>,
}

impl<'a> Chain<'a> {
    /// Every registered middleware is present.
    #[verifier::type_invariant]
    spec fn middleware_present(&self) -> bool {
        self.middlewares.all_some()
    }

    /// Answer the request at the end of the chain.
    fn finish(&self, req: &Request) -> (r: Response)
        ensures
            endpoint_answers(self.end, *req, r),
    {
        match self.end {
            Endpoint::Route(h) => h.handle(req),
            Endpoint::NotFound => Response::not_found(),
            Endpoint::MethodNotAllowed => Response::method_not_allowed(),
        }
    }
}

impl<'a> Next for Chain<'a> {
    /// The middleware from `next_index` on, each wrapping the rest, then the
    /// endpoint.
    closed spec fn gives(&self) -> Answers {
        chain_rel(*self.middlewares, self.next_index as int, endpoint_rel(self.end))
    }

    /// Run the middleware at `next_index`, handing it the rest of the chain;
    /// past the last middleware, the endpoint answers.
    fn run(&self, req: &Request) -> (r: Response) {
        proof {
            use_type_invariant(self);
        }
        if self.next_index >= self.middlewares.len() {
            let r = self.finish(req);
            assert(chain_rel(*self.middlewares, self.next_index as int, endpoint_rel(self.end))
                == endpoint_rel(self.end));
            r
        } else {
            let rest = Chain {
                middlewares: self.middlewares,
                next_index: self.next_index + 1,
                end: self.end,
            };
            let m = self.middlewares.get_some(self.next_index);
            let r = m.call(req, &rest);
            proof {
                let tail = chain_rel(*self.middlewares, self.next_index + 1, endpoint_rel(self.end));
                assert(rest.gives() == tail);
                assert(self.middlewares.item(self.next_index as int)->0.answers(*req, tail, r));
            }
            r
        }
    }
}

/// `Box::new`, the box then used as a `dyn Handler` trait object and handed
/// back in `Some`, the form in which the router stores it. Calls through a
/// trait object run the methods of the value it holds, so the contract
/// states that the trait object answers as `h` does.
#[verifier::external_body]
fn boxed_handler<H: Handler + 'static>(h: H) -> (r: Option<Box<dyn Handler>>)
    ensures
        r is Some,
        forall|q: Request, res: Response| #[trigger] r->0.handles(q, res) == h.handles(q, res),
{
    Some(Box::new(h))
}

/// `Box::new`, the box then used as a `dyn Middleware` trait object and
/// handed back in `Some`; as for handlers, the trait object answers as `m`
/// does.
#[verifier::external_body]
fn boxed_middleware<M: Middleware + 'static>(m: M) -> (r: Option<Box<dyn Middleware>>)
    ensures
        r is Some,
        forall|q: Request, next: Answers, res: Response| #[trigger] r->0.answers(q, next, res)
            == m.answers(q, next, res),
{
    Some(Box::new(m))
}

impl Router {
    /// The routes, in registration order, as (method, segments) pairs.
    pub closed spec fn table(&self) -> Seq<(MethodView, Seq<Seq<char>>)> {
        self.patterns@.map_values(|p: Pattern| (p.method@, views(p.segments@)))
    }

    /// The number of registered middleware.
    pub closed spec fn middleware_count(&self) -> nat {
        self.middlewares.count()
    }

    /// The handler of route `i`.
    pub closed spec fn handler_at(&self, i: int) -> Box<dyn Handler> {
        self.handlers.item(i)->0
    }

    /// The handler of route `i` may answer `req` with `res`.
    pub closed spec fn route_handles(&self, i: int, req: Request, res: Response) -> bool {
        self.handlers.item(i)->0.handles(req, res)
    }

    /// Middleware `i`, in registration order (the first is the outermost).
    pub closed spec fn middleware_at(&self, i: int) -> Box<dyn Middleware> {
        self.middlewares.item(i)->0
    }

    /// Middleware `i` may answer `req` with `res` when the rest of the chain
    /// answers as `next` allows.
    pub closed spec fn middleware_answers(&self, i: int, req: Request, next: Answers, res: Response)
        -> bool {
        self.middlewares.item(i)->0.answers(req, next, res)
    }

    /// What the middleware from position `k` on may answer, each one wrapping
    /// those registered after it, with `end` answering after the last.
    pub open spec fn middleware_chain(&self, k: int, end: Answers) -> Answers
        decreases self.middleware_count() - k,
    {
        if k >= self.middleware_count() {
            end
        } else {
            let rest = self.middleware_chain(k + 1, end);
            |req: Request, res: Response| self.middleware_answers(k, req, rest, res)
        }
    }

    /// What the handler of route `i` may answer.
    pub open spec fn route_answers(&self, i: int) -> Answers {
        |req: Request, res: Response| self.route_handles(i, req, res)
    }

    /// Every route has a handler.
    #[verifier::type_invariant]
    spec fn one_handler_per_route(&self) -> bool {
        &&& self.patterns@.len() == self.handlers.count()
        &&& self.handlers.all_some()
        &&& self.middlewares.all_some()
    }

    /// Create an empty router.
    pub fn new() -> (r: Router)
        ensures
            r.table().len() == 0,
            r.middleware_count() == 0,
    {
        let r = Router {
            patterns: Vec::new(),
            handlers: Registry::new(),
            middlewares: Registry::new(),
        };
        assert(r.table().len() == 0);
        r
    }

    // ------------------------------------------------------------------
    // Route registration
    // ------------------------------------------------------------------
    /// Register a route for `method` and the path pattern `path`.
    fn add_route(&mut self, method: Method, path: &str, handler: Option<Box<dyn Handler>>) -> (r:
        &mut Self)
        requires
            handler is Some,
        ensures
            r.table() == old(self).table().push((method@, path_segments(path@))),
            forall|q: Request, res: Response| #[trigger]
                r.route_handles(old(self).table().len() as int, q, res) == handler->0.handles(
                    q,
                    res,
                ),
            r.middleware_count() == old(self).middleware_count(),
            forall|j: int| 0 <= j < old(self).table().len() ==> #[trigger] r.handler_at(j)
                == old(self).handler_at(j),
            forall|j: int, q: Request, res: Response|
                0 <= j < old(self).table().len() ==> #[trigger] r.route_handles(j, q, res)
                    == old(self).route_handles(j, q, res),
            forall|j: int| 0 <= j < old(self).middleware_count() ==> #[trigger] r.middleware_at(j)
                == old(self).middleware_at(j),
            forall|j: int, q: Request, next: Answers, res: Response|
                0 <= j < old(self).middleware_count() ==> #[trigger] r.middleware_answers(
                    j,
                    q,
                    next,
                    res,
                ) == old(self).middleware_answers(j, q, next, res),
            forall|k: int, end: Answers| #[trigger]
                r.middleware_chain(k, end) == old(self).middleware_chain(k, end),
            *final(self) == *final(r),
    {
        let segments = path_to_segments(path);
        let pattern = Pattern { method, segments };
        let ghost pv = (pattern.method@, views(pattern.segments@));
        let mut taken = Router::new();
        std::mem::swap(&mut taken, self);
        proof {
            use_type_invariant(&taken);
        }
        let Router { mut patterns, mut handlers, middlewares } = taken;
        let ghost old_patterns = patterns@;
        let ghost old_handlers = handlers;
        assert(old_handlers.count() == old(self).table().len());
        patterns.push(pattern);
        let ghost given = handler;
        handlers.add(handler);
        let ghost h2 = handlers;
        *self = Router { patterns, handlers, middlewares };
        proof {
            assert(self.handlers == h2);
            assert(self.handlers.item(old_handlers.count() as int) == given);
            assert(forall|j: int| 0 <= j < old_handlers.count() ==> #[trigger] self.handlers.item(j)
                == old_handlers.item(j));
            assert forall|j: int| 0 <= j < old(self).table().len() implies #[trigger] self.handler_at(j)
                == old(self).handler_at(j) by {
                assert(self.handlers.item(j) == old_handlers.item(j));
            }
            assert forall|k: int, end: Answers| #[trigger] self.middleware_chain(k, end)
                == old(self).middleware_chain(k, end) by {
                lemma_chain_same_middleware(*self, *old(self), k, end);
            }
            let f = |p: Pattern| (p.method@, views(p.segments@));
            assert(self.patterns@ == old_patterns.push(self.patterns@.last()));
            assert(self.table() =~= old_patterns.map_values(f).push(pv));
        }
        self
    }

    /// Register a `GET` route.
    pub fn get<H: Handler + 'static>(&mut self, path: &str, handler: H) -> (r: &mut Self)
        ensures
            r.table() == old(self).table().push((MethodView::Get, path_segments(path@))),
            forall|q: Request, res: Response| #[trigger]
                r.route_handles(old(self).table().len() as int, q, res) == handler.handles(q, res),
            r.middleware_count() == old(self).middleware_count(),
            forall|j: int| 0 <= j < old(self).table().len() ==> #[trigger] r.handler_at(j)
                == old(self).handler_at(j),
            forall|j: int, q: Request, res: Response|
                0 <= j < old(self).table().len() ==> #[trigger] r.route_handles(j, q, res)
                    == old(self).route_handles(j, q, res),
            forall|j: int| 0 <= j < old(self).middleware_count() ==> #[trigger] r.middleware_at(j)
                == old(self).middleware_at(j),
            forall|j: int, q: Request, next: Answers, res: Response|
                0 <= j < old(self).middleware_count() ==> #[trigger] r.middleware_answers(
                    j,
                    q,
                    next,
                    res,
                ) == old(self).middleware_answers(j, q, next, res),
            forall|k: int, end: Answers| #[trigger]
                r.middleware_chain(k, end) == old(self).middleware_chain(k, end),
            *final(self) == *final(r),
    {
        self.add_route(Method::Get, path, boxed_handler(handler))
    }

    /// Register a `POST` route.
    pub fn post<H: Handler + 'static>(&mut self, path: &str, handler: H) -> (r: &mut Self)
        ensures
            r.table() == old(self).table().push((MethodView::Post, path_segments(path@))),
            forall|q: Request, res: Response| #[trigger]
                r.route_handles(old(self).table().len() as int, q, res) == handler.handles(q, res),
            r.middleware_count() == old(self).middleware_count(),
            forall|j: int| 0 <= j < old(self).table().len() ==> #[trigger] r.handler_at(j)
                == old(self).handler_at(j),
            forall|j: int, q: Request, res: Response|
                0 <= j < old(self).table().len() ==> #[trigger] r.route_handles(j, q, res)
                    == old(self).route_handles(j, q, res),
            forall|j: int| 0 <= j < old(self).middleware_count() ==> #[trigger] r.middleware_at(j)
                == old(self).middleware_at(j),
            forall|j: int, q: Request, next: Answers, res: Response|
                0 <= j < old(self).middleware_count() ==> #[trigger] r.middleware_answers(
                    j,
                    q,
                    next,
                    res,
                ) == old(self).middleware_answers(j, q, next, res),
            forall|k: int, end: Answers| #[trigger]
                r.middleware_chain(k, end) == old(self).middleware_chain(k, end),
            *final(self) == *final(r),
    {
        self.add_route(Method::Post, path, boxed_handler(handler))
    }

    /// Register a `PUT` route.
    pub fn put<H: Handler + 'static>(&mut self, path: &str, handler: H) -> (r: &mut Self)
        ensures
            r.table() == old(self).table().push((MethodView::Put, path_segments(path@))),
            forall|q: Request, res: Response| #[trigger]
                r.route_handles(old(self).table().len() as int, q, res) == handler.handles(q, res),
            r.middleware_count() == old(self).middleware_count(),
            forall|j: int| 0 <= j < old(self).table().len() ==> #[trigger] r.handler_at(j)
                == old(self).handler_at(j),
            forall|j: int, q: Request, res: Response|
                0 <= j < old(self).table().len() ==> #[trigger] r.route_handles(j, q, res)
                    == old(self).route_handles(j, q, res),
            forall|j: int| 0 <= j < old(self).middleware_count() ==> #[trigger] r.middleware_at(j)
                == old(self).middleware_at(j),
            forall|j: int, q: Request, next: Answers, res: Response|
                0 <= j < old(self).middleware_count() ==> #[trigger] r.middleware_answers(
                    j,
                    q,
                    next,
                    res,
                ) == old(self).middleware_answers(j, q, next, res),
            forall|k: int, end: Answers| #[trigger]
                r.middleware_chain(k, end) == old(self).middleware_chain(k, end),
            *final(self) == *final(r),
    {
        self.add_route(Method::Put, path, boxed_handler(handler))
    }

    /// Register a `PATCH` route.
    pub fn patch<H: Handler + 'static>(&mut self, path: &str, handler: H) -> (r: &mut Self)
        ensures
            r.table() == old(self).table().push((MethodView::Patch, path_segments(path@))),
            forall|q: Request, res: Response| #[trigger]
                r.route_handles(old(self).table().len() as int, q, res) == handler.handles(q, res),
            r.middleware_count() == old(self).middleware_count(),
            forall|j: int| 0 <= j < old(self).table().len() ==> #[trigger] r.handler_at(j)
                == old(self).handler_at(j),
            forall|j: int, q: Request, res: Response|
                0 <= j < old(self).table().len() ==> #[trigger] r.route_handles(j, q, res)
                    == old(self).route_handles(j, q, res),
            forall|j: int| 0 <= j < old(self).middleware_count() ==> #[trigger] r.middleware_at(j)
                == old(self).middleware_at(j),
            forall|j: int, q: Request, next: Answers, res: Response|
                0 <= j < old(self).middleware_count() ==> #[trigger] r.middleware_answers(
                    j,
                    q,
                    next,
                    res,
                ) == old(self).middleware_answers(j, q, next, res),
            forall|k: int, end: Answers| #[trigger]
                r.middleware_chain(k, end) == old(self).middleware_chain(k, end),
            *final(self) == *final(r),
    {
        self.add_route(Method::Patch, path, boxed_handler(handler))
    }

    /// Register a `DELETE` route.
    pub fn delete<H: Handler + 'static>(&mut self, path: &str, handler: H) -> (r: &mut Self)
        ensures
            r.table() == old(self).table().push((MethodView::Delete, path_segments(path@))),
            forall|q: Request, res: Response| #[trigger]
                r.route_handles(old(self).table().len() as int, q, res) == handler.handles(q, res),
            r.middleware_count() == old(self).middleware_count(),
            forall|j: int| 0 <= j < old(self).table().len() ==> #[trigger] r.handler_at(j)
                == old(self).handler_at(j),
            forall|j: int, q: Request, res: Response|
                0 <= j < old(self).table().len() ==> #[trigger] r.route_handles(j, q, res)
                    == old(self).route_handles(j, q, res),
            forall|j: int| 0 <= j < old(self).middleware_count() ==> #[trigger] r.middleware_at(j)
                == old(self).middleware_at(j),
            forall|j: int, q: Request, next: Answers, res: Response|
                0 <= j < old(self).middleware_count() ==> #[trigger] r.middleware_answers(
                    j,
                    q,
                    next,
                    res,
                ) == old(self).middleware_answers(j, q, next, res),
            forall|k: int, end: Answers| #[trigger]
                r.middleware_chain(k, end) == old(self).middleware_chain(k, end),
            *final(self) == *final(r),
    {
        self.add_route(Method::Delete, path, boxed_handler(handler))
    }

    // ------------------------------------------------------------------
    // Middleware registration
    // ------------------------------------------------------------------
    /// Add a middleware to the stack. Middleware is executed in the order it
    /// was added, the first added being the outermost: the new one runs
    /// inside every earlier one, just before the endpoint.
    pub fn middleware<M: Middleware + 'static>(&mut self, m: M) -> (r: &mut Self)
        ensures
            forall|q: Request, next: Answers, res: Response| #[trigger] r.middleware_answers(
                old(self).middleware_count() as int,
                q,
                next,
                res,
            ) == m.answers(q, next, res),
            r.table() == old(self).table(),
            r.middleware_count() == old(self).middleware_count() + 1,
            forall|j: int| 0 <= j < old(self).table().len() ==> #[trigger] r.handler_at(j)
                == old(self).handler_at(j),
            forall|j: int, q: Request, res: Response|
                0 <= j < old(self).table().len() ==> #[trigger] r.route_handles(j, q, res)
                    == old(self).route_handles(j, q, res),
            forall|j: int| 0 <= j < old(self).middleware_count() ==> #[trigger] r.middleware_at(j)
                == old(self).middleware_at(j),
            forall|j: int, q: Request, next: Answers, res: Response|
                0 <= j < old(self).middleware_count() ==> #[trigger] r.middleware_answers(
                    j,
                    q,
                    next,
                    res,
                ) == old(self).middleware_answers(j, q, next, res),
            forall|k: int, end: Answers|
                0 <= k <= old(self).middleware_count() ==> #[trigger] r.middleware_chain(k, end)
                    == old(self).middleware_chain(
                    k,
                    r.middleware_chain(old(self).middleware_count() as int, end),
                ),
            *final(self) == *final(r),
    {
        self.add_middleware(boxed_middleware(m));
        self
    }

    /// Add an already boxed middleware innermost.
    fn add_middleware(&mut self, m: Option<Box<dyn Middleware>>)
        requires
            m is Some,
        ensures
            final(self).table() == old(self).table(),
            final(self).middleware_count() == old(self).middleware_count() + 1,
            forall|j: int| 0 <= j < old(self).table().len() ==> #[trigger] final(self).handler_at(j)
                == old(self).handler_at(j),
            forall|j: int, q: Request, res: Response|
                0 <= j < old(self).table().len() ==> #[trigger] final(self).route_handles(j, q, res)
                    == old(self).route_handles(j, q, res),
            forall|j: int| 0 <= j < old(self).middleware_count() ==> #[trigger] final(self).middleware_at(j)
                == old(self).middleware_at(j),
            forall|j: int, q: Request, next: Answers, res: Response|
                0 <= j < old(self).middleware_count() ==> #[trigger] final(self).middleware_answers(
                    j,
                    q,
                    next,
                    res,
                ) == old(self).middleware_answers(j, q, next, res),
            forall|k: int, end: Answers|
                0 <= k <= old(self).middleware_count() ==> #[trigger] final(self).middleware_chain(k, end)
                    == old(self).middleware_chain(
                    k,
                    final(self).middleware_chain(old(self).middleware_count() as int, end),
                ),
            forall|q: Request, next: Answers, res: Response| #[trigger]
                final(self).middleware_answers(old(self).middleware_count() as int, q, next, res)
                    == m->0.answers(q, next, res),
    {
        let mut taken = Router::new();
        std::mem::swap(&mut taken, self);
        proof {
            use_type_invariant(&taken);
        }
        let Router { patterns, handlers, mut middlewares } = taken;
        let ghost old_mws = middlewares;
        let ghost given = m;
        middlewares.add(m);
        *self = Router { patterns, handlers, middlewares };
        proof {
            assert(self.middlewares.item(old_mws.count() as int) == given);
            assert(forall|j: int| 0 <= j < old_mws.count() ==> #[trigger] self.middlewares.item(j)
                == old_mws.item(j));
            assert forall|k: int, end: Answers|
                0 <= k <= old(self).middleware_count() implies #[trigger] self.middleware_chain(
                k,
                end,
            ) == old(self).middleware_chain(
                k,
                self.middleware_chain(old(self).middleware_count() as int, end),
            ) by {
                lemma_chain_one_more(*old(self), *self, k, end);
            }
        }
    }

    // ------------------------------------------------------------------
    // Dispatch
    // ------------------------------------------------------------------
    /// Look a request up: the first route, in registration order, whose
    /// pattern matches the request's path segments and whose method is the
    /// request's, with the parameters it captures.
    pub fn find_route(&self, req: &Request) -> (r: RouteMatch)
        ensures
            match route_outcome(self.table(), req.method@, path_segments(req.path@)) {
                RouteOutcome::Found(i) => r matches RouteMatch::Found { index, params } && index
                    == i && i < self.table().len() && params.entries() == route_params(
                    self.table()[i].1,
                    path_segments(req.path@),
                ),
                RouteOutcome::WrongMethod => r is WrongMethod,
                RouteOutcome::NotFound => r is NotFound,
            },
    {
        let request_segments = path_to_segments(req.path.as_str());
        let ghost q = path_segments(req.path@);
        let ghost table = self.table();
        let n = self.patterns.len();
        let mut method_matched = false;
        let mut i: usize = 0;
        while i < n
            invariant
                i <= n,
                n == self.patterns@.len(),
                table == self.table(),
                table.len() == n,
                q == path_segments(req.path@),
                views(request_segments@) == q,
                search_from(table, req.method@, q, i as int, method_matched) == route_outcome(
                    table,
                    req.method@,
                    q,
                ),
            decreases n - i,
        {
            let pattern = &self.patterns[i];
            assert(table[i as int] == (pattern.method@, views(pattern.segments@)));
            match match_segments(&pattern.segments, &request_segments) {
                Some(params) => {
                    if pattern.method.same_as(&req.method) {
                        return RouteMatch::Found { index: i, params };
                    }
                    method_matched = true;
                },
                None => {},
            }
            i = i + 1;
        }
        if method_matched {
            RouteMatch::WrongMethod
        } else {
            RouteMatch::NotFound
        }
    }

    /// Run the middleware chain, outermost first, ending in `end`.
    fn run_middlewares(&self, req: &Request, end: Endpoint) -> (r: Response)
        ensures
            self.middleware_chain(0, endpoint_rel(end))(*req, r),
    {
        proof {
            use_type_invariant(self);
        }
        let chain = Chain { middlewares: &self.middlewares, next_index: 0, end };
        let r = chain.run(req);
        proof {
            lemma_chain_rel(*self, 0, endpoint_rel(end));
        }
        r
    }

    /// Dispatch a [`Request`] through the middleware stack and then to the
    /// matching route handler, with the route's captured parameters as the
    /// request's `params`. Middleware wraps every request: when no route
    /// matches the path, the innermost answer is `404 Not Found`; when routes
    /// match the path but none has the request's method, it is
    /// `405 Method Not Allowed`. The middleware registered first is the
    /// outermost: it is handed a continuation that runs the second, and so on,
    /// the last one's continuation answering with the endpoint (the matched
    /// route's handler, or the error response). Without middleware, the
    /// endpoint answers directly.
    pub fn dispatch(&self, req: Request) -> (r: Response)
        ensures
            match route_outcome(self.table(), req.method@, path_segments(req.path@)) {
                RouteOutcome::NotFound => self.middleware_chain(0, not_found_answers())(req, r),
                RouteOutcome::WrongMethod => self.middleware_chain(0, method_not_allowed_answers())(
                    req,
                    r,
                ),
                RouteOutcome::Found(i) => exists|q: Request|
                    #![trigger same_but_params(q, req)]
                    {
                        &&& same_but_params(q, req)
                        &&& q.params.entries() == route_params(
                            self.table()[i].1,
                            path_segments(req.path@),
                        )
                        &&& self.middleware_chain(0, self.route_answers(i))(q, r)
                    },
            },
    {
        proof {
            use_type_invariant(self);
        }
        match self.find_route(&req) {
            RouteMatch::NotFound => {
                assert(endpoint_rel(Endpoint::NotFound) =~= not_found_answers());
                self.run_middlewares(&req, Endpoint::NotFound)
            },
            RouteMatch::WrongMethod => {
                assert(endpoint_rel(Endpoint::MethodNotAllowed) =~= method_not_allowed_answers());
                self.run_middlewares(&req, Endpoint::MethodNotAllowed)
            },
            RouteMatch::Found { index, params } => {
                let ghost req0 = req;
                let mut req = req;
                req.params = params;
                assert(same_but_params(req, req0));
                let handler = self.handlers.get_some(index);
                proof {
                    assert(*handler == self.handlers.item(index as int)->0);
                    assert(endpoint_rel(Endpoint::Route(handler)) =~= self.route_answers(
                        index as int,
                    ));
                }
                self.run_middlewares(&req, Endpoint::Route(handler))
            },
        }
    }
}

/// What the `404 Not Found` endpoint answers.
pub open spec fn not_found_answers() -> Answers {
    |req: Request, res: Response| is_not_found_response(res)
}

/// What the `405 Method Not Allowed` endpoint answers.
pub open spec fn method_not_allowed_answers() -> Answers {
    |req: Request, res: Response| is_method_not_allowed_response(res)
}

/// The chain the router's own middleware registry describes is the one its
/// public contracts speak of.
proof fn lemma_chain_rel(r: Router, k: int, end: Answers)
    requires
        0 <= k,
    ensures
        chain_rel(r.middlewares, k, end) == r.middleware_chain(k, end),
    decreases r.middleware_count() - k,
{
    if k < r.middleware_count() {
        lemma_chain_rel(r, k + 1, end);
        assert(chain_rel(r.middlewares, k, end) =~= r.middleware_chain(k, end));
    }
}

/// Two routers with the same middleware have the same chains.
proof fn lemma_chain_same_middleware(a: Router, b: Router, k: int, end: Answers)
    requires
        a.middlewares == b.middlewares,
    ensures
        a.middleware_chain(k, end) == b.middleware_chain(k, end),
    decreases a.middleware_count() - k,
{
    if k < a.middleware_count() {
        lemma_chain_same_middleware(a, b, k + 1, end);
        assert(a.middleware_chain(k, end) =~= b.middleware_chain(k, end));
    }
}

/// Adding one middleware puts it innermost: every chain of the new router is
/// the old chain, ending in the new middleware wrapping the endpoint.
proof fn lemma_chain_one_more(a: Router, b: Router, k: int, end: Answers)
    requires
        0 <= k <= a.middleware_count(),
        b.middleware_count() == a.middleware_count() + 1,
        forall|j: int, q: Request, next: Answers, res: Response|
            0 <= j < a.middleware_count() ==> #[trigger] b.middleware_answers(j, q, next, res)
                == a.middleware_answers(j, q, next, res),
    ensures
        b.middleware_chain(k, end) == a.middleware_chain(
            k,
            b.middleware_chain(a.middleware_count() as int, end),
        ),
    decreases a.middleware_count() - k,
{
    if k < a.middleware_count() {
        lemma_chain_one_more(a, b, k + 1, end);
        let tail = b.middleware_chain(a.middleware_count() as int, end);
        assert(b.middleware_chain(k, end) =~= a.middleware_chain(k, tail));
    }
}

/// `a` and `b` agree on everything but their route parameters.
pub open spec fn same_but_params(a: Request, b: Request) -> bool {
    &&& a.method == b.method
    &&& a.path == b.path
    &&& a.query_string == b.query_string
    &&& a.query_params == b.query_params
    &&& a.version == b.version
    &&& a.headers == b.headers
    &&& a.body == b.body
}

// ---------------------------------------------------------------------------
// Laws
// ---------------------------------------------------------------------------

/// What the scan from position `i` finds, stated without recursion.
proof fn lemma_search_from(
    table: Seq<(MethodView, Seq<Seq<char>>)>,
    method: MethodView,
    req: Seq<Seq<char>>,
    i: int,
    seen: bool,
)
    requires
        0 <= i <= table.len(),
    ensures
        match search_from(table, method, req, i, seen) {
            RouteOutcome::Found(k) => i <= k < table.len() && route_matches_at(table, method, req, k)
                && forall|j: int| i <= j < k ==> !route_matches_at(table, method, req, j),
            RouteOutcome::WrongMethod => (seen || exists|j: int|
                i <= j < table.len() && path_matches_at(table, req, j)) && forall|j: int|
                i <= j < table.len() ==> !route_matches_at(table, method, req, j),
            RouteOutcome::NotFound => !seen && forall|j: int|
                i <= j < table.len() ==> !path_matches_at(table, req, j),
        },
    decreases table.len() - i,
{
    if i < table.len() {
        if segments_match(table[i].1, req) {
            if table[i].0 != method {
                lemma_search_from(table, method, req, i + 1, true);
                match search_from(table, method, req, i + 1, true) {
                    RouteOutcome::WrongMethod => {
                        assert(path_matches_at(table, req, i));
                    },
                    _ => {},
                }
            }
        } else {
            lemma_search_from(table, method, req, i + 1, seen);
            match search_from(table, method, req, i + 1, seen) {
                RouteOutcome::WrongMethod => {
                    if !seen {
                        let j = choose|j: int|
                            i + 1 <= j < table.len() && path_matches_at(table, req, j);
                        assert(i <= j < table.len() && path_matches_at(table, req, j));
                    }
                },
                _ => {},
            }
        }
    }
}

/// Routing law: a request goes to the first route, in registration order,
/// that matches both its path segments and its method; it is refused with
/// "method not allowed" exactly when some route matches the path but none
/// of them has the method; and it is "not found" exactly when no route
/// matches the path.
pub proof fn lemma_route_outcome(
    table: Seq<(MethodView, Seq<Seq<char>>)>,
    method: MethodView,
    req: Seq<Seq<char>>,
)
    ensures
        match route_outcome(table, method, req) {
            RouteOutcome::Found(k) => route_matches_at(table, method, req, k) && forall|j: int|
                0 <= j < k ==> !route_matches_at(table, method, req, j),
            RouteOutcome::WrongMethod => (exists|j: int| path_matches_at(table, req, j))
                && forall|j: int| !route_matches_at(table, method, req, j),
            RouteOutcome::NotFound => forall|j: int| !path_matches_at(table, req, j),
        },
{
    lemma_search_from(table, method, req, 0, false);
    match route_outcome(table, method, req) {
        RouteOutcome::WrongMethod => {
            let j = choose|j: int| 0 <= j < table.len() && path_matches_at(table, req, j);
            assert(path_matches_at(table, req, j));
            assert forall|j2: int| !route_matches_at(table, method, req, j2) by {
                if 0 <= j2 < table.len() {
                }
            }
        },
        RouteOutcome::NotFound => {
            assert forall|j: int| !path_matches_at(table, req, j) by {
                if 0 <= j < table.len() {
                }
            }
        },
        _ => {},
    }
}

/// No segment of the pattern is the parameter `name`.
pub open spec fn no_param_named(route: Seq<Seq<char>>, name: Seq<char>) -> bool {
    forall|j: int|
        0 <= j < route.len() ==> !(is_param_segment(#[trigger] route[j]) && route[j].drop_first()
            == name)
}

/// Capturing through segments that have no parameter `name` leaves the
/// value under `name` as it was, and keeps keys distinct.
proof fn lemma_captured_keeps(
    acc: Entries,
    route: Seq<Seq<char>>,
    req: Seq<Seq<char>>,
    name: Seq<char>,
)
    requires
        crate::map::distinct_keys(acc),
        no_param_named(route, name),
    ensures
        crate::map::distinct_keys(captured(acc, route, req)),
        crate::map::lookup(captured(acc, route, req), name) == crate::map::lookup(acc, name),
    decreases route.len(),
{
    if route.len() > 0 && req.len() > 0 {
        let acc2 = if is_param_segment(route[0]) {
            inserted(acc, route[0].drop_first(), req[0])
        } else {
            acc
        };
        if is_param_segment(route[0]) {
            crate::map::lemma_inserted(acc, route[0].drop_first(), req[0]);
        }
        assert(no_param_named(route.drop_first(), name)) by {
            assert forall|j: int| 0 <= j < route.drop_first().len() implies !(is_param_segment(
                #[trigger] route.drop_first()[j],
            ) && route.drop_first()[j].drop_first() == name) by {
                assert(route.drop_first()[j] == route[j + 1]);
            }
        }
        lemma_captured_keeps(acc2, route.drop_first(), req.drop_first(), name);
    }
}

/// The value captured for parameter segment `k`, starting from `acc`.
proof fn lemma_captured_at(acc: Entries, route: Seq<Seq<char>>, req: Seq<Seq<char>>, k: int)
    requires
        crate::map::distinct_keys(acc),
        route.len() == req.len(),
        0 <= k < route.len(),
        is_param_segment(route[k]),
        no_param_named(route.subrange(k + 1, route.len() as int), route[k].drop_first()),
    ensures
        crate::map::lookup(captured(acc, route, req), route[k].drop_first()) == Some(req[k]),
    decreases route.len(),
{
    let acc2 = if is_param_segment(route[0]) {
        inserted(acc, route[0].drop_first(), req[0])
    } else {
        acc
    };
    if is_param_segment(route[0]) {
        crate::map::lemma_inserted(acc, route[0].drop_first(), req[0]);
    }
    if k == 0 {
        assert(route.subrange(1, route.len() as int) =~= route.drop_first());
        lemma_captured_keeps(acc2, route.drop_first(), req.drop_first(), route[0].drop_first());
    } else {
        assert(route.drop_first().subrange(k, route.len() - 1) =~= route.subrange(
            k + 1,
            route.len() as int,
        ));
        lemma_captured_at(acc2, route.drop_first(), req.drop_first(), k - 1);
    }
}

/// Parameter law: when a route matches, each parameter segment `:name`
/// makes the request segment in its place available under `name`, unless a
/// later segment of the same pattern is the same parameter (then the later
/// one wins).
pub proof fn lemma_param_captured(route: Seq<Seq<char>>, req: Seq<Seq<char>>, k: int)
    requires
        segments_match(route, req),
        0 <= k < route.len(),
        is_param_segment(route[k]),
        no_param_named(route.subrange(k + 1, route.len() as int), route[k].drop_first()),
    ensures
        crate::map::lookup(route_params(route, req), route[k].drop_first()) == Some(req[k]),
{
    lemma_captured_at(Seq::empty(), route, req, k);
}

/// A pattern without parameter segments captures nothing.
pub proof fn lemma_static_route_captures_nothing(route: Seq<Seq<char>>, req: Seq<Seq<char>>)
    requires
        forall|j: int| 0 <= j < route.len() ==> !is_param_segment(#[trigger] route[j]),
    ensures
        route_params(route, req).len() == 0,
{
    lemma_static_captured(Seq::empty(), route, req);
}

proof fn lemma_static_captured(acc: Entries, route: Seq<Seq<char>>, req: Seq<Seq<char>>)
    requires
        forall|j: int| 0 <= j < route.len() ==> !is_param_segment(#[trigger] route[j]),
    ensures
        captured(acc, route, req) == acc,
    decreases route.len(),
{
    if route.len() > 0 && req.len() > 0 {
        assert(!is_param_segment(route[0]));
        assert forall|j: int| 0 <= j < route.drop_first().len() implies !is_param_segment(
            #[trigger] route.drop_first()[j],
        ) by {
            assert(route.drop_first()[j] == route[j + 1]);
        }
        lemma_static_captured(acc, route.drop_first(), req.drop_first());
    }
}

/// A literal (non-parameter) pattern segment matches only the very same
/// request segment: wherever a matching pattern has no parameter, the
/// request has exactly that segment (`user` does not match `users`), so a
/// pattern without parameters matches only itself. A pattern made only of
/// parameters matches every request with as many segments.
pub proof fn lemma_literal_segments_match_exactly(route: Seq<Seq<char>>, req: Seq<Seq<char>>)
    ensures
        segments_match(route, req) ==> forall|i: int|
            0 <= i < route.len() && !is_param_segment(route[i]) ==> #[trigger] req[i] == route[i],
        (forall|i: int| 0 <= i < route.len() ==> !is_param_segment(#[trigger] route[i])) ==> (
        segments_match(route, req) <==> route == req),
        (forall|i: int| 0 <= i < route.len() ==> is_param_segment(#[trigger] route[i])) ==> (
        segments_match(route, req) <==> route.len() == req.len()),
{
    if (forall|i: int| 0 <= i < route.len() ==> !is_param_segment(#[trigger] route[i]))
        && segments_match(route, req) {
        assert(route =~= req);
    }
}

/// Path segments are never empty and never hold a `/`.
pub proof fn lemma_path_segments_wellformed(path: Seq<char>)
    ensures
        forall|i: int|
            0 <= i < path_segments(path).len() ==> (#[trigger] path_segments(path)[i]).len() > 0,
        forall|i: int, j: int|
            0 <= i < path_segments(path).len() && 0 <= j < path_segments(path)[i].len()
                ==> #[trigger] path_segments(path)[i][j] != '/',
{
    let parts = split_parts(path, '/');
    let nonempty = |s: Seq<char>| s.len() > 0;
    assert forall|i: int| 0 <= i < path_segments(path).len() implies (
    #[trigger] path_segments(path)[i]).len() > 0 by {
        parts.lemma_filter_pred(nonempty, i);
    }
    lemma_split_parts_no_separator(path, '/');
    assert forall|i: int, j: int|
        0 <= i < path_segments(path).len() && 0 <= j < path_segments(path)[i].len()
            implies #[trigger] path_segments(path)[i][j] != '/' by {
        let seg = path_segments(path)[i];
        assert(parts.filter(nonempty).contains(seg));
        parts.lemma_filter_contains_rev(nonempty, seg);
        let k = choose|k: int| 0 <= k < parts.len() && parts[k] == seg;
        assert(parts[k][j] != '/');
    }
}

/// Splitting `p` followed by a separator gives the pieces of `p` and one
/// more, empty, piece.
proof fn lemma_split_parts_trailing(p: Seq<char>, c: char)
    ensures
        split_parts(p + seq![c], c) == split_parts(p, c).push(Seq::<char>::empty()),
    decreases p.len(),
{
    let pc = p + seq![c];
    match first_index_of(p, c) {
        Some(i) => {
            assert(crate::text::is_first_index(p, c, i));
            assert(crate::text::is_first_index(pc, c, i));
            crate::text::lemma_first_index_of(pc, c, i);
            assert(pc.subrange(0, i) =~= p.subrange(0, i));
            let rest = p.subrange(i + 1, p.len() as int);
            assert(pc.subrange(i + 1, pc.len() as int) =~= rest + seq![c]);
            lemma_split_parts_trailing(rest, c);
            assert(split_parts(pc, c) =~= seq![p.subrange(0, i)] + split_parts(rest, c).push(
                Seq::<char>::empty(),
            ));
        },
        None => {
            assert forall|j: int| 0 <= j < p.len() implies p[j] != c by {
                if p[j] == c {
                    crate::text::lemma_first_index_of_some(p, c, j);
                }
            }
            assert(crate::text::is_first_index(pc, c, p.len() as int));
            crate::text::lemma_first_index_of(pc, c, p.len() as int);
            assert(pc.subrange(0, p.len() as int) =~= p);
            let empty = pc.subrange(p.len() as int + 1, pc.len() as int);
            assert(empty =~= Seq::<char>::empty());
            crate::text::lemma_first_index_of_none(empty, c);
            assert(split_parts(empty, c) == seq![empty]);
            assert(split_parts(pc, c) == seq![p] + split_parts(empty, c));
            assert(split_parts(pc, c) =~= seq![p, Seq::<char>::empty()]);
        },
    }
}
/// Path law: slashes at either end of a path do not change its segments.
pub proof fn lemma_path_segments_ignore_end_slashes(p: Seq<char>)
    ensures
        path_segments(seq!['/'] + p) == path_segments(p),
        path_segments(p + seq!['/']) == path_segments(p),
{
    let nonempty = |s: Seq<char>| s.len() > 0;
    let sp = seq!['/'] + p;
    assert(crate::text::is_first_index(sp, '/', 0));
    crate::text::lemma_first_index_of(sp, '/', 0);
    assert(sp.subrange(1, sp.len() as int) =~= p);
    assert(sp.subrange(0, 0) =~= Seq::<char>::empty());
    assert(split_parts(sp, '/') == seq![Seq::<char>::empty()] + split_parts(p, '/'));
    Seq::filter_distributes_over_add(
        seq![Seq::<char>::empty()],
        split_parts(p, '/'),
        nonempty,
    );
    reveal_with_fuel(Seq::<_>::filter, 2);
    assert(seq![Seq::<char>::empty()].filter(nonempty) =~= Seq::<Seq<char>>::empty());
    assert(path_segments(sp) =~= path_segments(p));
    lemma_split_parts_trailing(p, '/');
    split_parts(p, '/').lemma_filter_push(Seq::<char>::empty(), nonempty);
}

impl Default for Router {
    fn default() -> (r: Router)
        ensures
            r.table().len() == 0,
            r.middleware_count() == 0,
    {
        Self::new()
    }
}

} // verus!
