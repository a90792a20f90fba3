use velox::error::VeloxError;
use velox::handler::{FnHandler, Handler};
use velox::map::StringMap;
use velox::request::{Method, Request};
use velox::response::Response;
use velox::server::{get_method, HttpResponse};

#[test]
fn error_descriptions() {
    assert_eq!(VeloxError::ParseError("bad".to_string()).to_string(), "Parse error: bad");
    assert_eq!(VeloxError::MissingHeader("host".to_string()).to_string(), "Missing header: host");
    assert_eq!(VeloxError::NotFound.to_string(), "Not found");
    assert_eq!(VeloxError::MethodNotAllowed.to_string(), "Method not allowed");
    assert_eq!(VeloxError::Internal("x".to_string()).to_string(), "Internal error: x");
    let io = std::io::Error::new(std::io::ErrorKind::Other, "disk on fire");
    let e: VeloxError = io.into();
    assert!(matches!(e, VeloxError::Io(_)));
    assert_eq!(e.to_string(), "IO error: disk on fire");
}

#[test]
fn get_method_first_word() {
    assert_eq!(get_method("GET / HTTP/1.1".to_string()).unwrap(), "GET");
    assert_eq!(get_method("POST".to_string()).unwrap(), "POST");
    assert_eq!(get_method("".to_string()).unwrap(), "");
    assert_eq!(get_method(" x".to_string()).unwrap(), "");
    let r = HttpResponse { status: 200 };
    assert_eq!(r.status, 200);
}

#[test]
fn fn_handler_calls_function() {
    let h = FnHandler::new(|req: &Request| Response::text(&req.path));
    let req = Request {
        method: Method::Get,
        path: "/p".to_string(),
        query_string: String::new(),
        query_params: StringMap::new(),
        version: "HTTP/1.1".to_string(),
        headers: StringMap::new(),
        params: StringMap::new(),
        body: Vec::new(),
    };
    assert_eq!(h.handle(&req).body, b"/p".to_vec());
}
