# Velox

A small HTTP/1.1 API framework whose parsing, routing and serialisation are
specified and proved with Verus.

## Layout

- `src/` — the verified library.
  - `text.rs`: trimming, searching, splitting, decimal numbers, case mapping.
  - `map.rs`: `StringMap`, an insertion-ordered string map with distinct keys.
  - `request.rs`: methods, request-line and header-line parsing, query strings,
    percent-decoding.
  - `response.rs`: status codes, response builders, the bytes sent on the wire.
  - `router.rs`: route registration, path matching with `:param` segments,
    dispatch through the middleware chain.
  - `handler.rs`, `middleware.rs`: the traits users implement.
  - `server.rs`, `error.rs`: plain records, the method-word helper, errors.
- `app/` — what talks to the outside world: reading requests from a TCP
  stream, the connection loop, the logging middleware, `Display` for errors.
- `tests/` — tests run against the compiled library.

## What is proved

Among other things: a request is answered through the middleware chain,
the first registered middleware outermost, each one handed a continuation
that runs the next and, after the last, the endpoint: the handler of the
first registered route that matches the path and method, called with that
route's captured parameters and the request otherwise unchanged, or the
`405` answer exactly when only the method is wrong, or the `404` answer
when no path matches; registering a route adds it last with the given
handler and keeps the earlier routes, their handlers and the middleware
chain, and registering a middleware puts the given one innermost;
parameter segments capture the request segment in their place;
path segments are never empty and hold no `/`, and slashes at the ends of a
path do not change its segments; every response is sent with a
`Content-Length` that reads back as the body's length; percent-decoding
leaves text without `%` and `+` unchanged; inserting into a `StringMap`
replaces the value under that key and leaves the others alone.

Registering a route or a middleware stores it so that it answers as the
handler or middleware passed in; that a trait object answers as the value
it was made from is the one assumption made about boxing.
