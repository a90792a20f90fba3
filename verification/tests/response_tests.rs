use velox::response::{Response, StatusCode};

#[test]
fn text_response_bytes() {
    let bytes = Response::text("hello").into_bytes();
    let raw = String::from_utf8_lossy(&bytes);
    assert!(raw.starts_with("HTTP/1.1 200 OK\r\n"));
    assert!(raw.contains("Content-Length: 5"));
    assert!(raw.ends_with("hello"));
}

#[test]
fn not_found_status() {
    let res = Response::not_found();
    assert_eq!(res.status.code(), 404);
}

#[test]
fn status_code_display() {
    assert_eq!(StatusCode::OK.to_string(), "200 OK");
    assert_eq!(StatusCode::NotFound.to_string(), "404 Not Found");
}

#[test]
fn status_codes_and_reasons() {
    let all = [
        (StatusCode::OK, 200, "OK"),
        (StatusCode::Created, 201, "Created"),
        (StatusCode::Accepted, 202, "Accepted"),
        (StatusCode::NoContent, 204, "No Content"),
        (StatusCode::MovedPermanently, 301, "Moved Permanently"),
        (StatusCode::Found, 302, "Found"),
        (StatusCode::NotModified, 304, "Not Modified"),
        (StatusCode::BadRequest, 400, "Bad Request"),
        (StatusCode::Unauthorized, 401, "Unauthorized"),
        (StatusCode::Forbidden, 403, "Forbidden"),
        (StatusCode::NotFound, 404, "Not Found"),
        (StatusCode::MethodNotAllowed, 405, "Method Not Allowed"),
        (StatusCode::UnprocessableEntity, 422, "Unprocessable Entity"),
        (StatusCode::TooManyRequests, 429, "Too Many Requests"),
        (StatusCode::InternalServerError, 500, "Internal Server Error"),
        (StatusCode::NotImplemented, 501, "Not Implemented"),
        (StatusCode::BadGateway, 502, "Bad Gateway"),
        (StatusCode::ServiceUnavailable, 503, "Service Unavailable"),
    ];
    for (s, code, reason) in all {
        assert_eq!(s.code(), code);
        assert_eq!(s.reason(), reason);
        assert_eq!(s.to_string(), format!("{} {}", code, reason));
    }
}

#[test]
fn builders() {
    let r = Response::json("{\"a\":1}");
    assert_eq!(r.status, StatusCode::OK);
    assert_eq!(r.headers.get("Content-Type"), Some("application/json"));
    assert_eq!(r.body, b"{\"a\":1}".to_vec());

    let r = Response::created("{}");
    assert_eq!(r.status.code(), 201);
    assert_eq!(r.headers.get("Content-Type"), Some("application/json"));

    let r = Response::no_content();
    assert_eq!(r.status.code(), 204);
    assert_eq!(r.headers.len(), 0);
    assert!(r.body.is_empty());

    let r = Response::ok();
    assert_eq!(r.status.code(), 200);
    assert!(r.body.is_empty());

    let r = Response::method_not_allowed();
    assert_eq!(r.status.code(), 405);
    assert_eq!(r.body, b"405 Method Not Allowed".to_vec());

    let r = Response::not_found();
    assert_eq!(r.body, b"404 Not Found".to_vec());
    assert_eq!(r.headers.get("Content-Type"), Some("text/plain; charset=utf-8"));

    let r = Response::internal_error("boom");
    assert_eq!(r.status.code(), 500);
    assert_eq!(r.body, b"boom".to_vec());

    let r = Response::new(StatusCode::Forbidden);
    assert_eq!(r.status.code(), 403);
    assert_eq!(r.headers.len(), 0);
}

#[test]
fn chained_builders() {
    let r = Response::text("x")
        .header("X-One", "1")
        .header("Content-Type", "text/html")
        .status(StatusCode::Accepted)
        .body_bytes(vec![1, 2, 3]);
    assert_eq!(r.status.code(), 202);
    assert_eq!(r.headers.get("X-One"), Some("1"));
    assert_eq!(r.headers.get("Content-Type"), Some("text/html"));
    assert_eq!(r.headers.len(), 2);
    assert_eq!(r.body, vec![1, 2, 3]);
}

#[test]
fn exact_wire_bytes() {
    let bytes = Response::text("hi").header("X-A", "b").into_bytes();
    assert_eq!(
        String::from_utf8(bytes).unwrap(),
        "HTTP/1.1 200 OK\r\nContent-Type: text/plain; charset=utf-8\r\nX-A: b\r\nContent-Length: 2\r\n\r\nhi"
    );
    let bytes = Response::no_content().into_bytes();
    assert_eq!(
        String::from_utf8(bytes).unwrap(),
        "HTTP/1.1 204 No Content\r\nContent-Length: 0\r\n\r\n"
    );
}

#[test]
fn content_length_replaces_existing() {
    let bytes = Response::ok()
        .header("Content-Length", "999")
        .body_bytes(vec![0xff; 3])
        .into_bytes();
    let mut expected = b"HTTP/1.1 200 OK\r\nContent-Length: 3\r\n\r\n".to_vec();
    expected.extend_from_slice(&[0xff, 0xff, 0xff]);
    assert_eq!(bytes, expected);
}
