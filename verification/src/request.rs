//! HTTP/1.1 requests: the method, the request line, header lines, query
//! strings and percent-decoding.
//!
//! Reading from a connection happens outside this module; what it parses is
//! handed in line by line (see [`Request::from_request_line`],
//! [`Request::add_header_line`] and [`Request::body_length`]).

use vstd::prelude::*;
use vstd::utf8::*;

use crate::error::VeloxError;
use crate::map::{inserted, key_index, lookup, Entries, StringMap};
use crate::text::{
    ascii_upper, find_char, first_index_of, is_first_index, lemma_first_index_of,
    lemma_first_index_of_none, lemma_first_index_of_some, lower_text, upper_text, parse_usize,
    parsed_usize, split_char, split_parts, str_eq, to_lowercase, to_uppercase, trim, trimmed, views,
    lemma_trimmed_is_infix,
};

verus! {

// ---------------------------------------------------------------------------
// Methods
// ---------------------------------------------------------------------------

/// Supported HTTP methods.
#[derive(Debug, Clone, PartialEq, Eq, Hash)]
pub enum Method {
    Get,
    Post,
    Put,
    Patch,
    Delete,
    Head,
    Options,
    /// Any non-standard or unrecognised method string.
    Other(String),
}

/// The abstract value of a [`Method`].
pub enum MethodView {
    Get,
    Post,
    Put,
    Patch,
    Delete,
    Head,
    Options,
    Other(Seq<char>),
}

impl View for Method {
    type V = MethodView;

    open spec fn view(&self) -> MethodView {
        match self {
            Method::Get => MethodView::Get,
            Method::Post => MethodView::Post,
            Method::Put => MethodView::Put,
            Method::Patch => MethodView::Patch,
            Method::Delete => MethodView::Delete,
            Method::Head => MethodView::Head,
            Method::Options => MethodView::Options,
            Method::Other(s) => MethodView::Other(s@),
        }
    }
}

/// The method an upper-cased method name stands for.
pub open spec fn method_named(u: Seq<char>) -> MethodView {
    if u == "GET"@ {
        MethodView::Get
    } else if u == "POST"@ {
        MethodView::Post
    } else if u == "PUT"@ {
        MethodView::Put
    } else if u == "PATCH"@ {
        MethodView::Patch
    } else if u == "DELETE"@ {
        MethodView::Delete
    } else if u == "HEAD"@ {
        MethodView::Head
    } else if u == "OPTIONS"@ {
        MethodView::Options
    } else {
        MethodView::Other(u)
    }
}

/// The method a raw method string stands for (case-insensitively).
pub open spec fn method_of(s: Seq<char>) -> MethodView {
    method_named(upper_text(s))
}

/// The text of a method.
pub open spec fn method_text(m: MethodView) -> Seq<char> {
    match m {
        MethodView::Get => "GET"@,
        MethodView::Post => "POST"@,
        MethodView::Put => "PUT"@,
        MethodView::Patch => "PATCH"@,
        MethodView::Delete => "DELETE"@,
        MethodView::Head => "HEAD"@,
        MethodView::Options => "OPTIONS"@,
        MethodView::Other(s) => s,
    }
}

impl Method {
    /// Parse a raw method string (case-insensitive). An unrecognised method
    /// is kept, upper-cased, in [`Method::Other`].
    pub fn from_str(s: &str) -> (m: Method)
        ensures
            m@ == method_of(s@),
    {
        let u = to_uppercase(s);
        if str_eq(u.as_str(), "GET") {
            Method::Get
        } else if str_eq(u.as_str(), "POST") {
            Method::Post
        } else if str_eq(u.as_str(), "PUT") {
            Method::Put
        } else if str_eq(u.as_str(), "PATCH") {
            Method::Patch
        } else if str_eq(u.as_str(), "DELETE") {
            Method::Delete
        } else if str_eq(u.as_str(), "HEAD") {
            Method::Head
        } else if str_eq(u.as_str(), "OPTIONS") {
            Method::Options
        } else {
            Method::Other(u)
        }
    }

    /// The method's text (its display form).
    pub fn to_string(&self) -> (r: String)
        ensures
            r@ == method_text(self@),
    {
        match self {
            Method::Get => String::from_str("GET"),
            Method::Post => String::from_str("POST"),
            Method::Put => String::from_str("PUT"),
            Method::Patch => String::from_str("PATCH"),
            Method::Delete => String::from_str("DELETE"),
            Method::Head => String::from_str("HEAD"),
            Method::Options => String::from_str("OPTIONS"),
            Method::Other(v) => v.clone(),
        }
    }

    /// Whether two methods are the same.
    pub fn same_as(&self, other: &Method) -> (r: bool)
        ensures
            r == (self@ == other@),
    {
        match (self, other) {
            (Method::Get, Method::Get) => true,
            (Method::Post, Method::Post) => true,
            (Method::Put, Method::Put) => true,
            (Method::Patch, Method::Patch) => true,
            (Method::Delete, Method::Delete) => true,
            (Method::Head, Method::Head) => true,
            (Method::Options, Method::Options) => true,
            (Method::Other(a), Method::Other(b)) => str_eq(a.as_str(), b.as_str()),
            _ => false,
        }
    }
}

/// Method law: the text of a standard method is ASCII, already upper-case,
/// and names that method again, so parsing what `Method::to_string` writes
/// gives the method back.
pub proof fn lemma_method_text_parses_back(m: MethodView)
    requires
        !(m is Other),
    ensures
        is_ascii_chars(method_text(m)),
        method_of(method_text(m)) == m,
{
    reveal_strlit("GET");
    reveal_strlit("POST");
    reveal_strlit("PUT");
    reveal_strlit("PATCH");
    reveal_strlit("DELETE");
    reveal_strlit("HEAD");
    reveal_strlit("OPTIONS");
    let t = method_text(m);
    assert(ascii_upper(t) =~= t);
    assert(is_ascii_chars(t));
    assert("GET"@ != "POST"@ && "GET"@ != "PUT"@ && "GET"@ != "PATCH"@ && "GET"@ != "DELETE"@
        && "GET"@ != "HEAD"@ && "GET"@ != "OPTIONS"@) by {
        assert("GET"@[0] != "POST"@[0] && "GET"@[0] != "DELETE"@[0] && "GET"@[0] != "HEAD"@[0]
            && "GET"@[0] != "OPTIONS"@[0]);
    }
    assert("POST"@ != "PUT"@ && "POST"@ != "PATCH"@ && "POST"@ != "DELETE"@ && "POST"@ != "HEAD"@
        && "POST"@ != "OPTIONS"@) by {
        assert("POST"@[1] != "PUT"@[1]);
        assert("POST"@[0] != "HEAD"@[0]);
    }
    assert("PUT"@ != "PATCH"@ && "PUT"@ != "DELETE"@ && "PUT"@ != "HEAD"@ && "PUT"@ != "OPTIONS"@)
        by {
        assert("PUT"@[1] != "PATCH"@[1] && "PUT"@[0] != "DELETE"@[0] && "PUT"@[0] != "HEAD"@[0]
            && "PUT"@[0] != "OPTIONS"@[0]);
    }
    assert("PATCH"@ != "DELETE"@ && "PATCH"@ != "HEAD"@ && "PATCH"@ != "OPTIONS"@) by {
        assert("PATCH"@[0] != "HEAD"@[0]);
    }
    assert("DELETE"@ != "HEAD"@ && "DELETE"@ != "OPTIONS"@) by {
        assert("DELETE"@[0] != "HEAD"@[0] && "DELETE"@[0] != "OPTIONS"@[0]);
    }
    assert("HEAD"@ != "OPTIONS"@);
}

// ---------------------------------------------------------------------------
// Percent-decoding
// ---------------------------------------------------------------------------

/// Every `+` byte replaced by a space.
pub open spec fn plus_to_space(b: Seq<u8>) -> Seq<u8> {
    b.map_values(|x: u8| if x == 43 { 32u8 } else { x })
}

/// The value of a hexadecimal digit byte.
pub open spec fn hex_digit(b: u8) -> Option<int> {
    if 48 <= b <= 57 {
        Some(b - 48)
    } else if 97 <= b <= 102 {
        Some(b - 87)
    } else if 65 <= b <= 70 {
        Some(b - 55)
    } else {
        None
    }
}

/// The byte that a two-character hexadecimal number denotes, as
/// `u8::from_str_radix(_, 16)` reads it: two hex digits, or a `+` sign
/// followed by one hex digit.
pub open spec fn hex_pair(b1: u8, b2: u8) -> Option<u8> {
    if b1 == 43 {
        match hex_digit(b2) {
            Some(d) => Some(d as u8),
            None => None,
        }
    } else {
        match (hex_digit(b1), hex_digit(b2)) {
            (Some(h), Some(l)) => Some((h * 16 + l) as u8),
            _ => None,
        }
    }
}

/// Every `%XX` whose two bytes read as a hex number replaced by that byte;
/// every other byte kept.
pub open spec fn percent_decoded(b: Seq<u8>) -> Seq<u8>
    decreases b.len(),
{
    if b.len() == 0 {
        Seq::<u8>::empty()
    } else if b[0] == 37 && b.len() > 2 && hex_pair(b[1], b[2]) is Some {
        seq![hex_pair(b[1], b[2])->0] + percent_decoded(b.subrange(3, b.len() as int))
    } else {
        seq![b[0]] + percent_decoded(b.drop_first())
    }
}

/// What `String::from_utf8_lossy` makes of a byte sequence: valid UTF-8 is
/// decoded, every invalid sequence becomes U+FFFD.
pub uninterp spec fn lossy_text(b: Seq<u8>) -> Seq<char>;

/// The bytes of `s` with `+` read as a space and `%XX` sequences decoded.
pub open spec fn url_decoded_bytes(s: Seq<char>) -> Seq<u8> {
    percent_decoded(plus_to_space(encode_utf8(s)))
}

/// The percent-decoded text of `s`, with `+` read as a space: the decoded
/// bytes read as UTF-8 when they are valid, or as `String::from_utf8_lossy`
/// reads them otherwise.
pub open spec fn url_decoded(s: Seq<char>) -> Seq<char> {
    if valid_utf8(url_decoded_bytes(s)) {
        decode_utf8(url_decoded_bytes(s))
    } else {
        lossy_text(url_decoded_bytes(s))
    }
}

/// `String::from_utf8_lossy`. Its result is named `lossy_text`; on valid
/// UTF-8 it is the decoded text, as the standard library documents. How
/// invalid sequences are replaced is not stated.
#[verifier::external_body]
fn from_utf8_lossy(b: &[u8]) -> (r: String)
    ensures
        r@ == lossy_text(b@),
        valid_utf8(b@) ==> r@ == decode_utf8(b@),
{
    String::from_utf8_lossy(b).into_owned()
}

/// `std::str::from_utf8`: the text of the bytes when they are valid UTF-8.
#[verifier::external_body]
fn utf8_text(b: &[u8]) -> (r: Option<&str>)
    ensures
        r is Some <==> valid_utf8(b@),
        r matches Some(t) ==> t@ == decode_utf8(b@),
{
    std::str::from_utf8(b).ok()
}

fn hex_digit_exec(b: u8) -> (r: Option<u8>)
    ensures
        match r {
            Some(v) => hex_digit(b) == Some(v as int),
            None => hex_digit(b) is None,
        },
{
    if 48 <= b && b <= 57 {
        Some(b - 48)
    } else if 97 <= b && b <= 102 {
        Some(b - 87)
    } else if 65 <= b && b <= 70 {
        Some(b - 55)
    } else {
        None
    }
}

fn hex_pair_exec(b1: u8, b2: u8) -> (r: Option<u8>)
    ensures
        r == hex_pair(b1, b2),
{
    if b1 == 43 {
        match hex_digit_exec(b2) {
            Some(d) => Some(d),
            None => None,
        }
    } else {
        match (hex_digit_exec(b1), hex_digit_exec(b2)) {
            (Some(h), Some(l)) => Some(h * 16 + l),
            _ => None,
        }
    }
}

fn plus_byte(x: u8) -> (r: u8)
    ensures
        r == (if x == 43 { 32u8 } else { x }),
{
    if x == 43 {
        32
    } else {
        x
    }
}

/// `s` holds neither `%` nor `+`, the two characters that decoding changes.
pub open spec fn has_no_escapes(s: Seq<char>) -> bool {
    forall|i: int| 0 <= i < s.len() ==> s[i] != '%' && s[i] != '+'
}

/// The UTF-8 bytes of a scalar other than the ASCII character `b` never
/// include the byte `b`.
proof fn lemma_scalar_bytes_avoid(v: u32, b: u8)
    requires
        b < 128,
        v != b as u32,
    ensures
        forall|j: int| 0 <= j < encode_scalar(v).len() ==> encode_scalar(v)[j] != b,
{
    if has_width_1_encoding(v) {
        assert((v & 0x7F) as u8 != b) by (bit_vector)
            requires
                v <= 0x7f,
                v != b as u32,
                b < 128,
        ;
    } else {
        assert(0xC0u8 | ((v >> 6) & 0x1F) as u8 >= 0x80) by (bit_vector);
        assert(0xE0u8 | ((v >> 12) & 0x0F) as u8 >= 0x80) by (bit_vector);
        assert(0xF0u8 | ((v >> 18) & 0x7) as u8 >= 0x80) by (bit_vector);
        assert(0x80u8 | (v & 0x3F) as u8 >= 0x80) by (bit_vector);
        assert(0x80u8 | ((v >> 6) & 0x3F) as u8 >= 0x80) by (bit_vector);
        assert(0x80u8 | ((v >> 12) & 0x3F) as u8 >= 0x80) by (bit_vector);
    }
}

/// The UTF-8 encoding of text without the ASCII character `b` has no byte
/// `b`.
proof fn lemma_encoding_avoids(s: Seq<char>, b: u8)
    requires
        b < 128,
        forall|i: int| 0 <= i < s.len() ==> (s[i] as u32) != b as u32,
    ensures
        forall|j: int| 0 <= j < encode_utf8(s).len() ==> encode_utf8(s)[j] != b,
    decreases s.len(),
{
    if s.len() > 0 {
        lemma_scalar_bytes_avoid(s[0] as u32, b);
        assert forall|i: int| 0 <= i < s.drop_first().len() implies (s.drop_first()[i] as u32)
            != b as u32 by {
            assert(s.drop_first()[i] == s[i + 1]);
        }
        lemma_encoding_avoids(s.drop_first(), b);
        let e = encode_scalar(s[0] as u32);
        let rest = encode_utf8(s.drop_first());
        assert(encode_utf8(s) == e + rest);
        assert forall|j: int| 0 <= j < encode_utf8(s).len() implies encode_utf8(s)[j] != b by {
            if j >= e.len() {
                assert(encode_utf8(s)[j] == rest[j - e.len()]);
            }
        }
    }
}

/// Bytes without `%` are left as they are by percent-decoding.
proof fn lemma_percent_decoded_plain(b: Seq<u8>)
    requires
        forall|j: int| 0 <= j < b.len() ==> b[j] != 37,
    ensures
        percent_decoded(b) == b,
    decreases b.len(),
{
    if b.len() > 0 {
        assert forall|j: int| 0 <= j < b.drop_first().len() implies b.drop_first()[j] != 37 by {
            assert(b.drop_first()[j] == b[j + 1]);
        }
        lemma_percent_decoded_plain(b.drop_first());
        assert(seq![b[0]] + b.drop_first() =~= b);
    }
}

/// The UTF-8 bytes of a concatenation are those of its parts.
proof fn lemma_encode_utf8_concat(a: Seq<char>, b: Seq<char>)
    ensures
        encode_utf8(a + b) == encode_utf8(a) + encode_utf8(b),
    decreases a.len(),
{
    if a.len() == 0 {
        assert(a + b =~= b);
        assert(encode_utf8(a) + encode_utf8(b) =~= encode_utf8(b));
    } else {
        lemma_encode_utf8_concat(a.drop_first(), b);
        assert((a + b).drop_first() =~= a.drop_first() + b);
        assert((a + b)[0] == a[0]);
        assert(encode_utf8(a + b) =~= encode_utf8(a) + encode_utf8(b));
    }
}

/// An ASCII character is encoded as the one byte of its code.
proof fn lemma_encode_ascii(c: char)
    requires
        (c as u32) < 128,
    ensures
        encode_utf8(seq![c]) == seq![(c as u32) as u8],
{
    let v = c as u32;
    assert((v & 0x7F) as u8 == v as u8) by (bit_vector)
        requires
            v < 128,
    ;
    assert(seq![c].drop_first() =~= Seq::<char>::empty());
    assert(seq![c][0] == c);
    assert(encode_utf8(Seq::<char>::empty()) =~= Seq::<u8>::empty());
    assert(has_width_1_encoding(v));
    assert(encode_scalar(v) == seq![leading_byte_width_1(v)]);
    assert(encode_utf8(seq![c]) =~= seq![v as u8]);
}

/// Bytes without `%` in front of the rest are kept by percent-decoding, which
/// then goes on with the rest.
proof fn lemma_percent_decoded_plain_prefix(x: Seq<u8>, y: Seq<u8>)
    requires
        forall|j: int| 0 <= j < x.len() ==> x[j] != 37,
    ensures
        percent_decoded(x + y) == x + percent_decoded(y),
    decreases x.len(),
{
    if x.len() == 0 {
        assert(x + y =~= y);
        assert(x + percent_decoded(y) =~= percent_decoded(y));
    } else {
        assert forall|j: int| 0 <= j < x.drop_first().len() implies x.drop_first()[j] != 37 by {
            assert(x.drop_first()[j] == x[j + 1]);
        }
        lemma_percent_decoded_plain_prefix(x.drop_first(), y);
        assert((x + y)[0] == x[0]);
        assert((x + y).drop_first() =~= x.drop_first() + y);
        assert(x + percent_decoded(y) =~= seq![x[0]] + (x.drop_first() + percent_decoded(y)));
    }
}

/// Decoding law: `%` followed by two hex digits becomes the byte they spell,
/// whatever that byte is (`%2B` gives `+`, not a space); a `+` written in the
/// text becomes a space; text holding neither `%` nor `+` is kept as its
/// UTF-8 bytes. Each step goes on with the rest of the text.
pub proof fn lemma_url_decoding_steps(a: Seq<char>, h: char, l: char, b: Seq<char>)
    requires
        has_no_escapes(a),
        (h as u32) < 128,
        (l as u32) < 128,
        hex_digit((h as u32) as u8) is Some,
        hex_digit((l as u32) as u8) is Some,
    ensures
        url_decoded_bytes(a) == encode_utf8(a),
        url_decoded_bytes(a + seq!['%', h, l] + b) == encode_utf8(a) + seq![
            (hex_digit((h as u32) as u8)->0 * 16 + hex_digit((l as u32) as u8)->0) as u8,
        ] + url_decoded_bytes(b),
        url_decoded_bytes(a + seq!['+'] + b) == encode_utf8(a) + seq![32u8] + url_decoded_bytes(b),
{
    let ea = encode_utf8(a);
    let eb = encode_utf8(b);
    assert forall|i: int| 0 <= i < a.len() implies (a[i] as u32) != 37u32 && (a[i] as u32)
        != 43u32 by {
        char_u32_cast(a[i], a[i] as u32);
        char_u32_cast('%', '%' as u32);
        char_u32_cast('+', '+' as u32);
    }
    lemma_encoding_avoids(a, 37);
    lemma_encoding_avoids(a, 43);
    assert(plus_to_space(ea) =~= ea);
    lemma_percent_decoded_plain(ea);
    // `%` h l
    let h8 = (h as u32) as u8;
    let l8 = (l as u32) as u8;
    let v = (hex_digit(h8)->0 * 16 + hex_digit(l8)->0) as u8;
    char_u32_cast('%', '%' as u32);
    lemma_encode_ascii('%');
    lemma_encode_ascii(h);
    lemma_encode_ascii(l);
    lemma_encode_utf8_concat(seq!['%'], seq![h]);
    assert(seq!['%'] + seq![h] =~= seq!['%', h]);
    lemma_encode_utf8_concat(seq!['%', h], seq![l]);
    assert(seq!['%', h] + seq![l] =~= seq!['%', h, l]);
    let esc = seq![37u8, h8, l8];
    assert(encode_utf8(seq!['%', h, l]) =~= esc);
    lemma_encode_utf8_concat(a, seq!['%', h, l]);
    lemma_encode_utf8_concat(a + seq!['%', h, l], b);
    let s1 = a + seq!['%', h, l] + b;
    assert(encode_utf8(s1) =~= ea + esc + eb);
    assert(h8 != 43);
    let rest1 = esc + plus_to_space(eb);
    assert(plus_to_space(ea + esc + eb) =~= ea + rest1);
    lemma_percent_decoded_plain_prefix(ea, rest1);
    assert(rest1[0] == 37 && rest1[1] == h8 && rest1[2] == l8);
    assert(hex_pair(h8, l8) == Some(v));
    assert(rest1.subrange(3, rest1.len() as int) =~= plus_to_space(eb));
    assert(percent_decoded(rest1) == seq![v] + percent_decoded(plus_to_space(eb)));
    assert(url_decoded_bytes(s1) =~= ea + seq![v] + url_decoded_bytes(b));
    // `+`
    char_u32_cast('+', '+' as u32);
    lemma_encode_ascii('+');
    lemma_encode_utf8_concat(a, seq!['+']);
    lemma_encode_utf8_concat(a + seq!['+'], b);
    let s2 = a + seq!['+'] + b;
    assert(encode_utf8(s2) =~= ea + seq![43u8] + eb);
    let rest2 = seq![32u8] + plus_to_space(eb);
    assert(plus_to_space(ea + seq![43u8] + eb) =~= ea + rest2);
    lemma_percent_decoded_plain_prefix(ea, rest2);
    assert(rest2.drop_first() =~= plus_to_space(eb));
    assert(percent_decoded(rest2) == seq![32u8] + percent_decoded(plus_to_space(eb)));
    assert(url_decoded_bytes(s2) =~= ea + seq![32u8] + url_decoded_bytes(b));
}

/// Minimal percent-decoding for query parameters: `+` becomes a space and
/// `%XX` sequences are decoded; the bytes are then read as UTF-8, with
/// invalid sequences replaced.
pub fn url_decode(s: &str) -> (r: String)
    ensures
        r@ == url_decoded(s@),
        valid_utf8(url_decoded_bytes(s@)) ==> r@ == decode_utf8(url_decoded_bytes(s@)),
        has_no_escapes(s@) ==> r@ == s@,
{
    let bytes = s.as_bytes();
    let n = bytes.len();
    let ghost pb = plus_to_space(encode_utf8(s@));
    let mut out: Vec<u8> = Vec::new();
    let mut i: usize = 0;
    assert(pb.subrange(0, n as int) =~= pb);
    while i < n
        invariant
            i <= n,
            n == bytes@.len(),
            bytes@ == encode_utf8(s@),
            pb == plus_to_space(bytes@),
            pb.len() == n,
            out@ + percent_decoded(pb.subrange(i as int, n as int)) == percent_decoded(pb),
        decreases n - i,
    {
        let ghost rest = pb.subrange(i as int, n as int);
        let b = plus_byte(bytes[i]);
        assert(rest[0] == b);
        if b == 37 && n - i > 2 {
            let b1 = plus_byte(bytes[i + 1]);
            let b2 = plus_byte(bytes[i + 2]);
            assert(rest[1] == b1 && rest[2] == b2);
            match hex_pair_exec(b1, b2) {
                Some(v) => {
                    let ghost before = out@;
                    out.push(v);
                    assert(rest.subrange(3, rest.len() as int) =~= pb.subrange(i + 3, n as int));
                    assert(out@ + percent_decoded(pb.subrange(i + 3, n as int)) =~= before
                        + percent_decoded(rest));
                    i = i + 3;
                    continue ;
                },
                None => {},
            }
        }
        let ghost before = out@;
        out.push(b);
        assert(rest.drop_first() =~= pb.subrange(i + 1, n as int));
        assert(out@ + percent_decoded(pb.subrange(i + 1, n as int)) =~= before + percent_decoded(
            rest,
        ));
        i = i + 1;
    }
    assert(pb.subrange(n as int, n as int) =~= Seq::<u8>::empty());
    assert(out@ =~= percent_decoded(pb));
    proof {
        if has_no_escapes(s@) {
            assert forall|i: int| 0 <= i < s@.len() implies (s@[i] as u32) != 37u32 && (
            s@[i] as u32) != 43u32 by {
                char_u32_cast(s@[i], s@[i] as u32);
                char_u32_cast('%', '%' as u32);
                char_u32_cast('+', '+' as u32);
            }
            lemma_encoding_avoids(s@, 37);
            lemma_encoding_avoids(s@, 43);
            assert(pb =~= encode_utf8(s@));
            lemma_percent_decoded_plain(pb);
            encode_utf8_valid_utf8(s@);
            encode_utf8_decode_utf8(s@);
        }
    }
    from_utf8_lossy(out.as_slice())
}

// ---------------------------------------------------------------------------
// Query strings
// ---------------------------------------------------------------------------

/// The key of a `key=value` pair: everything before the first `=`.
pub open spec fn pair_key(p: Seq<char>) -> Seq<char> {
    match first_index_of(p, '=') {
        Some(i) => p.subrange(0, i),
        None => p,
    }
}

/// The value of a `key=value` pair: everything after the first `=`, or
/// nothing when there is no `=`.
pub open spec fn pair_value(p: Seq<char>) -> Seq<char> {
    match first_index_of(p, '=') {
        Some(i) => p.subrange(i + 1, p.len() as int),
        None => Seq::<char>::empty(),
    }
}

/// The entries after inserting each pair, decoded, in order.
pub open spec fn query_fold(acc: Entries, pairs: Seq<Seq<char>>) -> Entries
    decreases pairs.len(),
{
    if pairs.len() == 0 {
        acc
    } else {
        query_fold(
            inserted(acc, url_decoded(pair_key(pairs[0])), url_decoded(pair_value(pairs[0]))),
            pairs.drop_first(),
        )
    }
}

/// The parameters of a query string: its `&`-separated pairs, decoded and
/// inserted in order, so that a later pair wins over an earlier one with
/// the same key. The empty query string has no parameters.
pub open spec fn query_entries(qs: Seq<char>) -> Entries {
    if qs.len() == 0 {
        Seq::empty()
    } else {
        query_fold(Seq::empty(), split_parts(qs, '&'))
    }
}

/// Parse a URL-encoded query string into a key-value map.
pub fn parse_query(qs: &str) -> (r: StringMap)
    ensures
        r.entries() == query_entries(qs@),
{
    let mut map = StringMap::new();
    if qs.is_empty() {
        return map;
    }
    let parts = split_char(qs, '&');
    let ghost pv = views(parts@);
    let n = parts.len();
    assert(pv.skip(0) =~= pv);
    let mut i: usize = 0;
    while i < n
        invariant
            i <= n,
            n == parts@.len(),
            pv == views(parts@),
            pv == split_parts(qs@, '&'),
            qs@.len() > 0,
            query_fold(map.entries(), pv.skip(i as int)) == query_entries(qs@),
        decreases n - i,
    {
        let pair = parts[i].as_str();
        assert(pv[i as int] == pair@);
        let plen = pair.unicode_len();
        let (key, value) = match find_char(pair, '=') {
            Some(k) => (pair.substring_char(0, k), pair.substring_char(k + 1, plen)),
            None => (pair, ""),
        };
        proof {
            if first_index_of(pair@, '=') is None {
                reveal_strlit("");
                assert(value@ =~= Seq::<char>::empty());
            }
        }
        assert(key@ == pair_key(pair@) && value@ == pair_value(pair@));
        let dk = url_decode(key);
        let dv = url_decode(value);
        assert(pv.skip(i as int).drop_first() =~= pv.skip(i + 1));
        map.insert(dk, dv);
        i = i + 1;
    }
    map
}

// ---------------------------------------------------------------------------
// The request line
// ---------------------------------------------------------------------------

/// The three parts of a (trimmed) request line: the method, the raw path
/// and the version, separated by the first two spaces; the version is the
/// whole rest of the line. The error is the message that explains which
/// part is missing.
pub open spec fn request_line_parts(t: Seq<char>) -> Result<
    (Seq<char>, Seq<char>, Seq<char>),
    Seq<char>,
> {
    match first_index_of(t, ' ') {
        None => Err("missing path"@),
        Some(i) => {
            let rest = t.subrange(i + 1, t.len() as int);
            match first_index_of(rest, ' ') {
                None => Err("missing HTTP version"@),
                Some(j) => Ok(
                    (t.subrange(0, i), rest.subrange(0, j), rest.subrange(j + 1, rest.len() as int)),
                ),
            }
        },
    }
}

/// The path of a raw path: everything before the first `?`.
pub open spec fn path_part(raw: Seq<char>) -> Seq<char> {
    match first_index_of(raw, '?') {
        Some(k) => raw.subrange(0, k),
        None => raw,
    }
}

/// The query string of a raw path: everything after the first `?`.
pub open spec fn query_part(raw: Seq<char>) -> Seq<char> {
    match first_index_of(raw, '?') {
        Some(k) => raw.subrange(k + 1, raw.len() as int),
        None => Seq::<char>::empty(),
    }
}

/// A request target splits at its first `?` into the path and the query
/// string, both kept exactly as written: the path holds no `?`, and the
/// path, the `?` and the query string give back the target.
pub proof fn lemma_target_splits_at_question_mark(raw: Seq<char>)
    ensures
        !path_part(raw).contains('?'),
        raw.contains('?') ==> raw == path_part(raw) + seq!['?'] + query_part(raw),
        !raw.contains('?') ==> path_part(raw) == raw && query_part(raw).len() == 0,
{
    if raw.contains('?') {
        let j = choose|j: int| 0 <= j < raw.len() && raw[j] == '?';
        lemma_first_index_of_some(raw, '?', j);
        let k = first_index_of(raw, '?')->0;
        assert(exists|m: int| is_first_index(raw, '?', m));
        assert(is_first_index(raw, '?', k));
        assert(raw =~= path_part(raw) + seq!['?'] + query_part(raw));
        assert forall|m: int| 0 <= m < path_part(raw).len() implies path_part(raw)[m] != '?' by {
            assert(path_part(raw)[m] == raw[m]);
        }
    } else {
        lemma_first_index_of_none(raw, '?');
    }
}

/// Each query pair is stored under its decoded key with its decoded value:
/// a query string made of one `key=value` pair has exactly that entry, the
/// key decoded as well as the value.
pub proof fn lemma_query_single_pair(k: Seq<char>, v: Seq<char>)
    requires
        !k.contains('='),
        !k.contains('&'),
        !v.contains('&'),
    ensures
        query_entries(k + seq!['='] + v) == seq![(url_decoded(k), url_decoded(v))],
{
    let p = k + seq!['='] + v;
    assert forall|j: int| 0 <= j < p.len() implies p[j] != '&' by {
        if j < k.len() {
            assert(p[j] == k[j]);
        } else if j > k.len() {
            assert(p[j] == v[j - k.len() - 1]);
        }
    }
    lemma_first_index_of_none(p, '&');
    assert(split_parts(p, '&') == seq![p]);
    assert(is_first_index(p, '=', k.len() as int)) by {
        assert forall|j: int| 0 <= j < k.len() implies p[j] != '=' by {
            assert(p[j] == k[j]);
        }
    }
    lemma_first_index_of(p, '=', k.len() as int);
    assert(pair_key(p) =~= k);
    assert(pair_value(p) =~= v);
    let e = Seq::<(Seq<char>, Seq<char>)>::empty();
    assert(key_index(e, url_decoded(k)) is None);
    let pairs = seq![p];
    assert(pairs[0] == p);
    assert(pairs.drop_first() =~= Seq::<Seq<char>>::empty());
    let first = inserted(e, url_decoded(k), url_decoded(v));
    assert(query_fold(first, pairs.drop_first()) == first);
    assert(query_fold(e, pairs) == first);
    assert(first =~= seq![(url_decoded(k), url_decoded(v))]);
}

// ---------------------------------------------------------------------------
// Header lines
// ---------------------------------------------------------------------------

/// A header line, once trimmed, ends the header block when it is empty.
pub open spec fn ends_headers(line: Seq<char>) -> bool {
    trimmed(line).len() == 0
}

/// The (name, value) a header line carries: the lower-cased, trimmed text
/// before the first `:` and the trimmed text after it. A line without `:`
/// carries nothing.
pub open spec fn header_of_line(line: Seq<char>) -> Option<(Seq<char>, Seq<char>)> {
    let t = trimmed(line);
    match first_index_of(t, ':') {
        Some(c) => Some(
            (
                lower_text(trimmed(t.subrange(0, c))),
                trimmed(t.subrange(c + 1, t.len() as int)),
            ),
        ),
        None => None,
    }
}

/// A header line's value is the text after the line's first `:`, trimmed
/// and otherwise kept exactly as written, case included: a piece of the
/// line that starts after a `:`. Its name is the lower-cased text of a piece
/// of the line before that `:`.
pub proof fn lemma_header_value_as_written(line: Seq<char>)
    ensures
        header_of_line(line) matches Some((name, value)) ==> exists|c: int, i: int, j: int|
            #![trigger line.subrange(i, j), line[c]]
            0 <= c < i <= j <= line.len() && line[c] == ':' && value == line.subrange(i, j)
                && exists|a: int, b: int|
                0 <= a <= b <= c && name == lower_text(#[trigger] line.subrange(a, b)),
{
    let t = trimmed(line);
    if let Some(c) = first_index_of(t, ':') {
        assert(exists|m: int| is_first_index(t, ':', m));
        assert(is_first_index(t, ':', c));
        let (a0, b0) = lemma_trimmed_is_infix(line);
        let before = t.subrange(0, c);
        let after = t.subrange(c + 1, t.len() as int);
        let (a1, b1) = lemma_trimmed_is_infix(before);
        let (a2, b2) = lemma_trimmed_is_infix(after);
        assert(before.subrange(a1, b1) =~= line.subrange(a0 + a1, a0 + b1));
        assert(after.subrange(a2, b2) =~= line.subrange(a0 + c + 1 + a2, a0 + c + 1 + b2));
        assert(line[a0 + c] == t[c]);
        let name = lower_text(trimmed(before));
        let value = trimmed(after);
        assert(name == lower_text(line.subrange(a0 + a1, a0 + b1)));
        assert(value == line.subrange(a0 + c + 1 + a2, a0 + c + 1 + b2));
    }
}

/// The header entries after reading one more header line.
pub open spec fn headers_after_line(h: Entries, line: Seq<char>) -> Entries {
    match header_of_line(line) {
        Some((name, value)) => inserted(h, name, value),
        None => h,
    }
}

// ---------------------------------------------------------------------------
// Requests
// ---------------------------------------------------------------------------

/// A parsed HTTP/1.1 request.
#[derive(Debug)]
pub struct Request {
    /// HTTP method (GET, POST, …).
    pub method: Method,
    /// The request path, e.g. `/users/42`.
    pub path: String,
    /// Raw query string, e.g. `page=1&limit=10`.
    pub query_string: String,
    /// Parsed query parameters.
    pub query_params: StringMap,
    /// HTTP version string, e.g. `HTTP/1.1`.
    pub version: String,
    /// Request headers (lower-cased names).
    pub headers: StringMap,
    /// Route parameters extracted by the router (e.g. `:id` → `"42"`).
    pub params: StringMap,
    /// Raw request body bytes.
    pub body: Vec<u8>,
}

/// `a` and `b` agree on everything but their headers.
pub open spec fn same_but_headers(a: Request, b: Request) -> bool {
    &&& a.method == b.method
    &&& a.path == b.path
    &&& a.query_string == b.query_string
    &&& a.query_params == b.query_params
    &&& a.version == b.version
    &&& a.params == b.params
    &&& a.body == b.body
}

impl Request {
    /// Start a request from its request line (`METHOD PATH VERSION`). The
    /// line is trimmed; the path may carry a query string after `?`, whose
    /// parameters are parsed. Headers, route parameters and body start
    /// empty.
    pub fn from_request_line(line: &str) -> (r: Result<Request, VeloxError>)
        ensures
            match request_line_parts(trimmed(line@)) {
                Err(msg) => r matches Err(VeloxError::ParseError(m)) && m@ == msg,
                Ok((m, raw, version)) => r matches Ok(req) && {
                    &&& req.method@ == method_of(m)
                    &&& req.path@ == path_part(raw)
                    &&& req.query_string@ == query_part(raw)
                    &&& req.query_params.entries() == query_entries(query_part(raw))
                    &&& req.version@ == version
                    &&& req.headers.entries().len() == 0
                    &&& req.params.entries().len() == 0
                    &&& req.body@.len() == 0
                },
            },
    {
        let t = trim(line);
        let tlen = t.unicode_len();
        let i = match find_char(t, ' ') {
            Some(i) => i,
            None => {
                return Err(VeloxError::ParseError(String::from_str("missing path")));
            },
        };
        let method_str = t.substring_char(0, i);
        let rest = t.substring_char(i + 1, tlen);
        let j = match find_char(rest, ' ') {
            Some(j) => j,
            None => {
                return Err(VeloxError::ParseError(String::from_str("missing HTTP version")));
            },
        };
        let raw_path = rest.substring_char(0, j);
        let version = String::from_str(rest.substring_char(j + 1, rest.unicode_len()));
        let method = Method::from_str(method_str);
        let (path, query_string) = match find_char(raw_path, '?') {
            Some(k) => (
                String::from_str(raw_path.substring_char(0, k)),
                String::from_str(raw_path.substring_char(k + 1, raw_path.unicode_len())),
            ),
            None => (String::from_str(raw_path), String::new()),
        };
        let query_params = parse_query(query_string.as_str());
        Ok(
            Request {
                method,
                path,
                query_string,
                query_params,
                version,
                headers: StringMap::new(),
                params: StringMap::new(),
                body: Vec::new(),
            },
        )
    }

    /// Take in one header line. A line that is blank once trimmed ends the
    /// header block: the request is left as it is and `true` is returned.
    /// Otherwise a `name: value` line sets the header (the name lower-cased,
    /// both parts trimmed, a repeated name replacing the earlier value), a
    /// line without `:` is ignored, and `false` is returned.
    pub fn add_header_line(&mut self, line: &str) -> (done: bool)
        ensures
            done == ends_headers(line@),
            same_but_headers(*final(self), *old(self)),
            final(self).headers.entries() == if done {
                old(self).headers.entries()
            } else {
                headers_after_line(old(self).headers.entries(), line@)
            },
    {
        let t = trim(line);
        if t.is_empty() {
            return true;
        }
        let tlen = t.unicode_len();
        match find_char(t, ':') {
            Some(c) => {
                let name = to_lowercase(trim(t.substring_char(0, c)));
                let value = String::from_str(trim(t.substring_char(c + 1, tlen)));
                self.headers.insert(name, value);
            },
            None => {},
        }
        false
    }

    /// The number of body bytes to read after the headers: the value of the
    /// `content-length` header, or zero when there is none. A value that is
    /// not a decimal `usize` is an error.
    pub fn body_length(&self) -> (r: Result<usize, VeloxError>)
        ensures
            match lookup(self.headers.entries(), "content-length"@) {
                None => r matches Ok(n) && n == 0,
                Some(v) => match parsed_usize(v) {
                    Some(n) => r matches Ok(k) && k == n,
                    None => r matches Err(VeloxError::ParseError(m)) && m@
                        == "invalid content-length"@,
                },
            },
    {
        match self.headers.get("content-length") {
            Some(v) => match parse_usize(v) {
                Some(n) => Ok(n),
                None => Err(VeloxError::ParseError(String::from_str("invalid content-length"))),
            },
            None => Ok(0),
        }
    }

    /// Return the body as a UTF-8 string slice (if valid).
    pub fn body_str(&self) -> (r: Option<&str>)
        ensures
            r is Some <==> valid_utf8(self.body@),
            r matches Some(t) ==> t@ == decode_utf8(self.body@),
    {
        utf8_text(self.body.as_slice())
    }

    /// Look up a header by name (case-insensitive).
    pub fn header(&self, name: &str) -> (r: Option<&str>)
        ensures
            match r {
                Some(v) => lookup(self.headers.entries(), lower_text(name@)) == Some(v@),
                None => lookup(self.headers.entries(), lower_text(name@)) is None,
            },
    {
        let key = to_lowercase(name);
        self.headers.get(key.as_str())
    }

    /// Look up a route parameter by name.
    pub fn param(&self, name: &str) -> (r: Option<&str>)
        ensures
            match r {
                Some(v) => lookup(self.params.entries(), name@) == Some(v@),
                None => lookup(self.params.entries(), name@) is None,
            },
    {
        self.params.get(name)
    }

    /// Look up a query parameter by name.
    pub fn query(&self, name: &str) -> (r: Option<&str>)
        ensures
            match r {
                Some(v) => lookup(self.query_params.entries(), name@) == Some(v@),
                None => lookup(self.query_params.entries(), name@) is None,
            },
    {
        self.query_params.get(name)
    }
}

} // verus!
