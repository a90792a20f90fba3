use velox::handler::{FnHandler, Handler};
use velox::map::StringMap;
use velox::request::{Method, Request};
use velox::response::Response;
use velox::router::Router;

fn make_router() -> Router {
    let mut router = Router::new();
    router.get("/hello", FnHandler::new(|_req: &Request| Response::text("hello")));
    router.get(
        "/users/:id",
        FnHandler::new(|req: &Request| {
            let id = req.param("id").unwrap_or("?");
            Response::text(&format!("user {}", id))
        }),
    );
    router.post("/users", FnHandler::new(|_req: &Request| Response::created("{}")));
    router
}

fn fake_request(method: Method, path: &str) -> Request {
    Request {
        method,
        path: path.to_string(),
        query_string: String::new(),
        query_params: StringMap::new(),
        version: "HTTP/1.1".to_string(),
        headers: StringMap::new(),
        params: StringMap::new(),
        body: Vec::new(),
    }
}

#[test]
fn get_hello() {
    let router = make_router();
    let req = fake_request(Method::Get, "/hello");
    let res = router.dispatch(req);
    assert_eq!(res.status.code(), 200);
}

#[test]
fn route_param_extraction() {
    let router = make_router();
    let req = fake_request(Method::Get, "/users/42");
    let res = router.dispatch(req);
    assert_eq!(res.status.code(), 200);
    assert_eq!(String::from_utf8_lossy(&res.body), "user 42");
}

#[test]
fn not_found() {
    let router = make_router();
    let req = fake_request(Method::Get, "/missing");
    let res = router.dispatch(req);
    assert_eq!(res.status.code(), 404);
}

#[test]
fn method_not_allowed() {
    let router = make_router();
    // /hello is registered only for GET.
    let req = fake_request(Method::Post, "/hello");
    let res = router.dispatch(req);
    assert_eq!(res.status.code(), 405);
}

#[test]
fn post_route() {
    let router = make_router();
    let req = fake_request(Method::Post, "/users");
    let res = router.dispatch(req);
    assert_eq!(res.status.code(), 201);
}

use velox::middleware::{Middleware, Next};

fn text_of(res: &Response) -> String {
    String::from_utf8_lossy(&res.body).into_owned()
}

#[test]
fn params_and_slashes() {
    let mut router = Router::new();
    router.get(
        "/a/:x/b/:y",
        FnHandler::new(|req: &Request| {
            Response::text(&format!(
                "{}-{}",
                req.param("x").unwrap_or("?"),
                req.param("y").unwrap_or("?")
            ))
        }),
    );
    let res = router.dispatch(fake_request(Method::Get, "//a/1/b/2/"));
    assert_eq!(res.status.code(), 200);
    assert_eq!(text_of(&res), "1-2");
    let res = router.dispatch(fake_request(Method::Get, "/a/1/c/2"));
    assert_eq!(res.status.code(), 404);
    let res = router.dispatch(fake_request(Method::Get, "/a/1/b"));
    assert_eq!(res.status.code(), 404);
}

#[test]
fn repeated_param_later_wins() {
    let mut router = Router::new();
    router.get(
        "/:v/:v",
        FnHandler::new(|req: &Request| Response::text(req.param("v").unwrap_or("?"))),
    );
    let res = router.dispatch(fake_request(Method::Get, "/first/second"));
    assert_eq!(text_of(&res), "second");
}

#[test]
fn first_registered_route_wins() {
    let mut router = Router::new();
    router.get("/users/:id", FnHandler::new(|_req: &Request| Response::text("param")));
    router.get("/users/me", FnHandler::new(|_req: &Request| Response::text("static")));
    let res = router.dispatch(fake_request(Method::Get, "/users/me"));
    assert_eq!(text_of(&res), "param");
}

#[test]
fn other_methods_and_wrong_method() {
    let mut router = Router::new();
    router
        .put("/item", FnHandler::new(|_req: &Request| Response::text("put")))
        .patch("/item", FnHandler::new(|_req: &Request| Response::text("patch")))
        .delete("/item", FnHandler::new(|_req: &Request| Response::text("delete")));
    assert_eq!(text_of(&router.dispatch(fake_request(Method::Put, "/item"))), "put");
    assert_eq!(text_of(&router.dispatch(fake_request(Method::Patch, "/item"))), "patch");
    assert_eq!(text_of(&router.dispatch(fake_request(Method::Delete, "/item"))), "delete");
    let res = router.dispatch(fake_request(Method::Get, "/item"));
    assert_eq!(res.status.code(), 405);
    assert_eq!(text_of(&res), "405 Method Not Allowed");
    let res = router.dispatch(fake_request(Method::Other("GET".to_string()), "/nothing"));
    assert_eq!(res.status.code(), 404);
    assert_eq!(text_of(&res), "404 Not Found");
}

#[test]
fn root_route() {
    let mut router = Router::default();
    router.get("/", FnHandler::new(|_req: &Request| Response::text("root")));
    assert_eq!(text_of(&router.dispatch(fake_request(Method::Get, ""))), "root");
    assert_eq!(text_of(&router.dispatch(fake_request(Method::Get, "///"))), "root");
}

struct Tag(&'static str);

impl Middleware for Tag {
    fn call(&self, req: &Request, next: &dyn Next) -> Response {
        let res = next.run(req);
        let before = res.headers.get("X-Trace").unwrap_or("").to_string();
        res.header("X-Trace", &format!("{}{}", before, self.0))
    }
}

struct Block;

impl Middleware for Block {
    fn call(&self, _req: &Request, _next: &dyn Next) -> Response {
        Response::new(velox::response::StatusCode::Unauthorized)
    }
}

#[test]
fn middleware_runs_in_registration_order() {
    let mut router = make_router();
    router.middleware(Tag("A")).middleware(Tag("B"));
    let res = router.dispatch(fake_request(Method::Get, "/hello"));
    // The first middleware added is the outermost, so it sees the response last.
    assert_eq!(res.headers.get("X-Trace"), Some("BA"));
    assert_eq!(text_of(&res), "hello");
    // Middleware wraps every request, routing errors included.
    let res = router.dispatch(fake_request(Method::Get, "/missing"));
    assert_eq!(res.status.code(), 404);
    assert_eq!(res.headers.get("X-Trace"), Some("BA"));
    let res = router.dispatch(fake_request(Method::Post, "/hello"));
    assert_eq!(res.status.code(), 405);
    assert_eq!(res.headers.get("X-Trace"), Some("BA"));
}

#[test]
fn middleware_can_answer_for_unknown_paths() {
    let mut router = make_router();
    router.middleware(Block);
    let res = router.dispatch(fake_request(Method::Get, "/missing"));
    assert_eq!(res.status.code(), 401);
}

#[test]
fn middleware_can_short_circuit() {
    let mut router = make_router();
    router.middleware(Block);
    let res = router.dispatch(fake_request(Method::Get, "/hello"));
    assert_eq!(res.status.code(), 401);
}

struct Fixed(&'static str);

impl Handler for Fixed {
    fn handle(&self, _req: &Request) -> Response {
        Response::text(self.0)
    }
}

#[test]
fn handler_structs_serve_routes() {
    let mut router = Router::new();
    router.get("/a", Fixed("first")).get("/b", Fixed("second"));
    assert_eq!(text_of(&router.dispatch(fake_request(Method::Get, "/a"))), "first");
    assert_eq!(text_of(&router.dispatch(fake_request(Method::Get, "/b"))), "second");
}
