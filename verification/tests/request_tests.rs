use velox::request::{parse_query, url_decode, Method};

#[test]
fn method_from_str() {
    assert_eq!(Method::from_str("GET"), Method::Get);
    assert_eq!(Method::from_str("post"), Method::Post);
    assert_eq!(Method::from_str("PATCH"), Method::Patch);
    assert_eq!(
        Method::from_str("CUSTOM"),
        Method::Other("CUSTOM".to_string())
    );
}

#[test]
fn query_parsing() {
    let params = parse_query("page=1&limit=20&q=hello+world");
    assert_eq!(params.get("page"), Some("1"));
    assert_eq!(params.get("limit"), Some("20"));
    assert_eq!(params.get("q"), Some("hello world"));
}

#[test]
fn url_decode_percent() {
    assert_eq!(url_decode("hello%20world"), "hello world");
    assert_eq!(url_decode("caf%C3%A9"), "café");
}

use velox::error::VeloxError;
use velox::request::Request;

fn parse_error(r: Result<Request, VeloxError>) -> String {
    match r {
        Err(VeloxError::ParseError(m)) => m,
        Err(e) => panic!("unexpected error: {:?}", e),
        Ok(_) => panic!("expected an error"),
    }
}

#[test]
fn method_names_any_case() {
    assert_eq!(Method::from_str("get"), Method::Get);
    assert_eq!(Method::from_str("Put"), Method::Put);
    assert_eq!(Method::from_str("delete"), Method::Delete);
    assert_eq!(Method::from_str("HEAD"), Method::Head);
    assert_eq!(Method::from_str("options"), Method::Options);
    assert_eq!(Method::from_str("brew"), Method::Other("BREW".to_string()));
    assert_eq!(Method::from_str(""), Method::Other(String::new()));
}

#[test]
fn method_text_and_comparison() {
    assert_eq!(Method::Patch.to_string(), "PATCH");
    assert_eq!(Method::Other("PURGE".to_string()).to_string(), "PURGE");
    assert!(Method::Get.same_as(&Method::Get));
    assert!(!Method::Get.same_as(&Method::Post));
    assert!(!Method::Get.same_as(&Method::Other("GET".to_string())));
    assert!(Method::Other("X".to_string()).same_as(&Method::Other("X".to_string())));
}

#[test]
fn request_line_with_query() {
    let req = Request::from_request_line("get /search?q=rust+lang&page=2 HTTP/1.1\r\n").unwrap();
    assert_eq!(req.method, Method::Get);
    assert_eq!(req.path, "/search");
    assert_eq!(req.query_string, "q=rust+lang&page=2");
    assert_eq!(req.query("q"), Some("rust lang"));
    assert_eq!(req.query("page"), Some("2"));
    assert_eq!(req.query("missing"), None);
    assert_eq!(req.version, "HTTP/1.1");
    assert_eq!(req.headers.len(), 0);
    assert_eq!(req.params.len(), 0);
    assert!(req.body.is_empty());
}

#[test]
fn request_line_without_query() {
    let req = Request::from_request_line("POST /users HTTP/1.0").unwrap();
    assert_eq!(req.method, Method::Post);
    assert_eq!(req.path, "/users");
    assert_eq!(req.query_string, "");
    assert_eq!(req.query_params.len(), 0);
    assert_eq!(req.version, "HTTP/1.0");
}

#[test]
fn request_line_version_keeps_rest() {
    let req = Request::from_request_line("GET  /x HTTP/1.1").unwrap();
    assert_eq!(req.path, "");
    assert_eq!(req.version, "/x HTTP/1.1");
}

#[test]
fn request_line_errors() {
    assert_eq!(parse_error(Request::from_request_line("GET")), "missing path");
    assert_eq!(parse_error(Request::from_request_line("")), "missing path");
    assert_eq!(parse_error(Request::from_request_line("GET /")), "missing HTTP version");
    assert_eq!(parse_error(Request::from_request_line("  GET /  \r\n")), "missing HTTP version");
}

#[test]
fn header_lines() {
    let mut req = Request::from_request_line("GET / HTTP/1.1").unwrap();
    assert!(!req.add_header_line("Content-Type:  text/plain \r\n"));
    assert!(!req.add_header_line("X-Empty:"));
    assert!(!req.add_header_line("no colon here"));
    assert!(!req.add_header_line("HOST: a:8080"));
    assert!(!req.add_header_line("content-type: application/json"));
    assert!(req.add_header_line("\r\n"));
    assert_eq!(req.header("content-type"), Some("application/json"));
    assert_eq!(req.header("CONTENT-TYPE"), Some("application/json"));
    assert_eq!(req.header("x-empty"), Some(""));
    assert_eq!(req.header("Host"), Some("a:8080"));
    assert_eq!(req.header("no colon here"), None);
    assert_eq!(req.headers.len(), 3);
}

#[test]
fn blank_line_leaves_request_unchanged() {
    let mut req = Request::from_request_line("GET / HTTP/1.1").unwrap();
    assert!(req.add_header_line("   "));
    assert!(req.add_header_line(""));
    assert_eq!(req.headers.len(), 0);
}

#[test]
fn body_length_from_header() {
    let mut req = Request::from_request_line("POST / HTTP/1.1").unwrap();
    assert_eq!(req.body_length().unwrap(), 0);
    req.add_header_line("Content-Length: 17");
    assert_eq!(req.body_length().unwrap(), 17);
    req.add_header_line("Content-Length: seventeen");
    assert_eq!(
        match req.body_length() {
            Err(VeloxError::ParseError(m)) => m,
            _ => String::new(),
        },
        "invalid content-length"
    );
}

#[test]
fn body_as_text() {
    let mut req = Request::from_request_line("POST / HTTP/1.1").unwrap();
    req.body = "{\"name\":\"Alice\"}".as_bytes().to_vec();
    assert_eq!(req.body_str(), Some("{\"name\":\"Alice\"}"));
    req.body = vec![0xff, 0xfe];
    assert_eq!(req.body_str(), None);
}

#[test]
fn url_decode_edge_cases() {
    assert_eq!(url_decode("a+b"), "a b");
    assert_eq!(url_decode("%41%42"), "AB");
    assert_eq!(url_decode("%4a%4A"), "JJ");
    assert_eq!(url_decode("100%"), "100%");
    assert_eq!(url_decode("%2"), "%2");
    assert_eq!(url_decode("%zz"), "%zz");
    assert_eq!(url_decode("%+5"), "% 5");
    assert_eq!(url_decode("%ff"), "\u{fffd}");
    assert_eq!(url_decode("plain-text"), "plain-text");
    assert_eq!(url_decode(""), "");
}

#[test]
fn query_later_pair_wins() {
    let params = parse_query("a=1&b&a=2&c=x=y&&=v");
    assert_eq!(params.get("a"), Some("2"));
    assert_eq!(params.get("b"), Some(""));
    assert_eq!(params.get("c"), Some("x=y"));
    assert_eq!(params.get(""), Some("v"));
    assert_eq!(params.len(), 4);
    assert_eq!(parse_query("").len(), 0);
}

#[test]
fn method_text_parses_back() {
    for m in [
        Method::Get,
        Method::Post,
        Method::Put,
        Method::Patch,
        Method::Delete,
        Method::Head,
        Method::Options,
    ] {
        assert_eq!(Method::from_str(&m.to_string()), m);
    }
}
