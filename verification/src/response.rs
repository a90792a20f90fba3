//! HTTP responses: status codes, builders and serialisation to bytes.

use vstd::prelude::*;
use vstd::string::*;
use vstd::utf8::*;

use crate::map::{inserted, lemma_inserted, lookup, Entries, StringMap};
use crate::text::{decimal, decimal_text};

verus! {

/// Well-known HTTP status codes.
#[derive(Debug, Clone, Copy, PartialEq, Eq)]
pub enum StatusCode {
    OK,
    Created,
    Accepted,
    NoContent,
    MovedPermanently,
    Found,
    NotModified,
    BadRequest,
    Unauthorized,
    Forbidden,
    NotFound,
    MethodNotAllowed,
    UnprocessableEntity,
    TooManyRequests,
    InternalServerError,
    NotImplemented,
    BadGateway,
    ServiceUnavailable,
}

/// The numeric value of a status code.
pub open spec fn code_of(s: StatusCode) -> u16 {
    match s {
        StatusCode::OK => 200,
        StatusCode::Created => 201,
        StatusCode::Accepted => 202,
        StatusCode::NoContent => 204,
        StatusCode::MovedPermanently => 301,
        StatusCode::Found => 302,
        StatusCode::NotModified => 304,
        StatusCode::BadRequest => 400,
        StatusCode::Unauthorized => 401,
        StatusCode::Forbidden => 403,
        StatusCode::NotFound => 404,
        StatusCode::MethodNotAllowed => 405,
        StatusCode::UnprocessableEntity => 422,
        StatusCode::TooManyRequests => 429,
        StatusCode::InternalServerError => 500,
        StatusCode::NotImplemented => 501,
        StatusCode::BadGateway => 502,
        StatusCode::ServiceUnavailable => 503,
    }
}

/// The standard reason phrase of a status code.
pub open spec fn reason_of(s: StatusCode) -> Seq<char> {
    match s {
        StatusCode::OK => "OK"@,
        StatusCode::Created => "Created"@,
        StatusCode::Accepted => "Accepted"@,
        StatusCode::NoContent => "No Content"@,
        StatusCode::MovedPermanently => "Moved Permanently"@,
        StatusCode::Found => "Found"@,
        StatusCode::NotModified => "Not Modified"@,
        StatusCode::BadRequest => "Bad Request"@,
        StatusCode::Unauthorized => "Unauthorized"@,
        StatusCode::Forbidden => "Forbidden"@,
        StatusCode::NotFound => "Not Found"@,
        StatusCode::MethodNotAllowed => "Method Not Allowed"@,
        StatusCode::UnprocessableEntity => "Unprocessable Entity"@,
        StatusCode::TooManyRequests => "Too Many Requests"@,
        StatusCode::InternalServerError => "Internal Server Error"@,
        StatusCode::NotImplemented => "Not Implemented"@,
        StatusCode::BadGateway => "Bad Gateway"@,
        StatusCode::ServiceUnavailable => "Service Unavailable"@,
    }
}

/// A status code as it appears in a status line: the number, a space and
/// the reason phrase, e.g. `200 OK`.
pub open spec fn status_text(s: StatusCode) -> Seq<char> {
    decimal_text(code_of(s) as nat) + " "@ + reason_of(s)
}

impl StatusCode {
    /// The numeric status code.
    pub fn code(self) -> (r: u16)
        ensures
            r == code_of(self),
    {
        match self {
            StatusCode::OK => 200,
            StatusCode::Created => 201,
            StatusCode::Accepted => 202,
            StatusCode::NoContent => 204,
            StatusCode::MovedPermanently => 301,
            StatusCode::Found => 302,
            StatusCode::NotModified => 304,
            StatusCode::BadRequest => 400,
            StatusCode::Unauthorized => 401,
            StatusCode::Forbidden => 403,
            StatusCode::NotFound => 404,
            StatusCode::MethodNotAllowed => 405,
            StatusCode::UnprocessableEntity => 422,
            StatusCode::TooManyRequests => 429,
            StatusCode::InternalServerError => 500,
            StatusCode::NotImplemented => 501,
            StatusCode::BadGateway => 502,
            StatusCode::ServiceUnavailable => 503,
        }
    }

    /// The standard reason phrase for this status code.
    pub fn reason(self) -> (r: &'static str)
        ensures
            r@ == reason_of(self),
    {
        match self {
            StatusCode::OK => "OK",
            StatusCode::Created => "Created",
            StatusCode::Accepted => "Accepted",
            StatusCode::NoContent => "No Content",
            StatusCode::MovedPermanently => "Moved Permanently",
            StatusCode::Found => "Found",
            StatusCode::NotModified => "Not Modified",
            StatusCode::BadRequest => "Bad Request",
            StatusCode::Unauthorized => "Unauthorized",
            StatusCode::Forbidden => "Forbidden",
            StatusCode::NotFound => "Not Found",
            StatusCode::MethodNotAllowed => "Method Not Allowed",
            StatusCode::UnprocessableEntity => "Unprocessable Entity",
            StatusCode::TooManyRequests => "Too Many Requests",
            StatusCode::InternalServerError => "Internal Server Error",
            StatusCode::NotImplemented => "Not Implemented",
            StatusCode::BadGateway => "Bad Gateway",
            StatusCode::ServiceUnavailable => "Service Unavailable",
        }
    }

    /// The status as written in a status line (its display form), e.g.
    /// `404 Not Found`.
    pub fn to_string(self) -> (r: String)
        ensures
            r@ == status_text(self),
    {
        let mut r = decimal(self.code() as usize);
        r.append(" ");
        r.append(self.reason());
        r
    }
}

// ---------------------------------------------------------------------------
// Serialisation
// ---------------------------------------------------------------------------

/// One `name: value` line per header, in order, each ended by CRLF.
pub open spec fn header_block(e: Entries) -> Seq<char>
    decreases e.len(),
{
    if e.len() == 0 {
        Seq::<char>::empty()
    } else {
        header_block(e.drop_last()) + e.last().0 + ": "@ + e.last().1 + "\r\n"@
    }
}

/// The head of a response: the status line, the header lines and the blank
/// line that ends them.
pub open spec fn head_text(status: StatusCode, e: Entries) -> Seq<char> {
    "HTTP/1.1 "@ + status_text(status) + "\r\n"@ + header_block(e) + "\r\n"@
}

/// The header entries a response is sent with: its own, with
/// `Content-Length` set to the length of the body.
pub open spec fn sent_headers(e: Entries, body: Seq<u8>) -> Entries {
    inserted(e, "Content-Length"@, decimal_text(body.len()))
}

/// The bytes of a response on the wire: the UTF-8 head, then the body.
pub open spec fn wire_bytes(status: StatusCode, e: Entries, body: Seq<u8>) -> Seq<u8> {
    encode_utf8(head_text(status, sent_headers(e, body))) + body
}

/// An HTTP response that will be sent back to the client.
#[derive(Debug)]
pub struct Response {
    pub status: StatusCode,
    pub headers: StringMap,
    pub body: Vec<u8>,
}

/// The one header entry of a response built with a content type.
pub open spec fn content_type_entries(content_type: Seq<char>) -> Entries {
    seq![("Content-Type"@, content_type)]
}

/// `r` is the `404 Not Found` response.
pub open spec fn is_not_found_response(r: Response) -> bool {
    &&& r.status == StatusCode::NotFound
    &&& r.headers.entries() == content_type_entries("text/plain; charset=utf-8"@)
    &&& r.body@ == encode_utf8("404 Not Found"@)
}

/// `r` is the `405 Method Not Allowed` response.
pub open spec fn is_method_not_allowed_response(r: Response) -> bool {
    &&& r.status == StatusCode::MethodNotAllowed
    &&& r.headers.entries() == content_type_entries("text/plain; charset=utf-8"@)
    &&& r.body@ == encode_utf8("405 Method Not Allowed"@)
}

impl Response {
    // ------------------------------------------------------------------
    // Constructors
    // ------------------------------------------------------------------
    /// Create a response with a custom status code and no body.
    pub fn new(status: StatusCode) -> (r: Response)
        ensures
            r.status == status,
            r.headers.entries().len() == 0,
            r.body@.len() == 0,
    {
        Response { status, headers: StringMap::new(), body: Vec::new() }
    }

    /// A response with the given status, `Content-Type` and body.
    fn with_body(status: StatusCode, content_type: &str, body: Vec<u8>) -> (r: Response)
        ensures
            r.status == status,
            r.headers.entries() == content_type_entries(content_type@),
            r.body@ == body@,
    {
        let mut headers = StringMap::new();
        headers.insert(String::from_str("Content-Type"), String::from_str(content_type));
        assert(headers.entries() =~= content_type_entries(content_type@));
        Response { status, headers, body }
    }

    /// `200 OK` with no body.
    pub fn ok() -> (r: Response)
        ensures
            r.status == StatusCode::OK,
            r.headers.entries().len() == 0,
            r.body@.len() == 0,
    {
        Self::new(StatusCode::OK)
    }

    /// `200 OK` with a plain-text body.
    pub fn text(body: &str) -> (r: Response)
        ensures
            r.status == StatusCode::OK,
            r.headers.entries() == content_type_entries("text/plain; charset=utf-8"@),
            r.body@ == encode_utf8(body@),
    {
        Self::with_body(StatusCode::OK, "text/plain; charset=utf-8", body.as_bytes_vec())
    }

    /// `200 OK` with a JSON body (the caller is responsible for valid JSON).
    pub fn json(body: &str) -> (r: Response)
        ensures
            r.status == StatusCode::OK,
            r.headers.entries() == content_type_entries("application/json"@),
            r.body@ == encode_utf8(body@),
    {
        Self::with_body(StatusCode::OK, "application/json", body.as_bytes_vec())
    }

    /// `201 Created` with a JSON body.
    pub fn created(body: &str) -> (r: Response)
        ensures
            r.status == StatusCode::Created,
            r.headers.entries() == content_type_entries("application/json"@),
            r.body@ == encode_utf8(body@),
    {
        Self::with_body(StatusCode::Created, "application/json", body.as_bytes_vec())
    }

    /// `204 No Content`.
    pub fn no_content() -> (r: Response)
        ensures
            r.status == StatusCode::NoContent,
            r.headers.entries().len() == 0,
            r.body@.len() == 0,
    {
        Self::new(StatusCode::NoContent)
    }

    /// `404 Not Found` with a plain-text message.
    pub fn not_found() -> (r: Response)
        ensures
            is_not_found_response(r),
    {
        Self::with_body(
            StatusCode::NotFound,
            "text/plain; charset=utf-8",
            "404 Not Found".as_bytes_vec(),
        )
    }

    /// `405 Method Not Allowed`.
    pub fn method_not_allowed() -> (r: Response)
        ensures
            is_method_not_allowed_response(r),
    {
        Self::with_body(
            StatusCode::MethodNotAllowed,
            "text/plain; charset=utf-8",
            "405 Method Not Allowed".as_bytes_vec(),
        )
    }

    /// `500 Internal Server Error` with a message.
    pub fn internal_error(msg: &str) -> (r: Response)
        ensures
            r.status == StatusCode::InternalServerError,
            r.headers.entries() == content_type_entries("text/plain; charset=utf-8"@),
            r.body@ == encode_utf8(msg@),
    {
        Self::with_body(
            StatusCode::InternalServerError,
            "text/plain; charset=utf-8",
            msg.as_bytes_vec(),
        )
    }

    // ------------------------------------------------------------------
    // Builder methods (chainable)
    // ------------------------------------------------------------------
    /// Set a response header.
    pub fn header(self, name: &str, value: &str) -> (r: Response)
        ensures
            r.status == self.status,
            r.headers.entries() == inserted(self.headers.entries(), name@, value@),
            r.body == self.body,
    {
        let mut res = self;
        res.headers.insert(String::from_str(name), String::from_str(value));
        res
    }

    /// Override the status code.
    pub fn status(self, status: StatusCode) -> (r: Response)
        ensures
            r.status == status,
            r.headers == self.headers,
            r.body == self.body,
    {
        let mut res = self;
        res.status = status;
        res
    }

    /// Replace the body with raw bytes.
    pub fn body_bytes(self, bytes: Vec<u8>) -> (r: Response)
        ensures
            r.status == self.status,
            r.headers == self.headers,
            r.body == bytes,
    {
        let mut res = self;
        res.body = bytes;
        res
    }

    // ------------------------------------------------------------------
    // Serialisation
    // ------------------------------------------------------------------
    /// Serialise the response into raw bytes ready to be written to a
    /// connection. `Content-Length` is always set to the body's length.
    pub fn into_bytes(self) -> (r: Vec<u8>)
        ensures
            r@ == wire_bytes(self.status, self.headers.entries(), self.body@),
            lookup(sent_headers(self.headers.entries(), self.body@), "Content-Length"@) == Some(
                decimal_text(self.body@.len()),
            ),
    {
        let _ = self.headers.len();
        proof {
            lemma_inserted(
                self.headers.entries(),
                "Content-Length"@,
                decimal_text(self.body@.len()),
            );
        }
        let ghost e0 = self.headers.entries();
        let ghost body0 = self.body@;
        let mut res = self;
        let len = res.body.len();
        res.headers.insert(String::from_str("Content-Length"), decimal(len));
        let ghost e = res.headers.entries();
        assert(e == sent_headers(e0, body0));
        let mut head = String::from_str("HTTP/1.1 ");
        let st = res.status.to_string();
        head.append(st.as_str());
        head.append("\r\n");
        let n = res.headers.len();
        let ghost start = head@;
        assert(e.take(0) =~= Seq::<(Seq<char>, Seq<char>)>::empty());
        assert(head@ =~= start + header_block(e.take(0)));
        let mut i: usize = 0;
        while i < n
            invariant
                i <= n,
                n == e.len(),
                e == res.headers.entries(),
                head@ == start + header_block(e.take(i as int)),
            decreases n - i,
        {
            let ghost before = head@;
            head.append(res.headers.key_at(i));
            head.append(": ");
            head.append(res.headers.value_at(i));
            head.append("\r\n");
            assert(e.take(i + 1).drop_last() =~= e.take(i as int));
            assert(e.take(i + 1).last() == e[i as int]);
            assert(head@ =~= start + header_block(e.take(i + 1)));
            i = i + 1;
        }
        assert(e.take(n as int) =~= e);
        head.append("\r\n");
        assert(head@ =~= head_text(res.status, e));
        let mut out = head.as_str().as_bytes_vec();
        out.append(&mut res.body);
        out
    }
}

} // verus!
