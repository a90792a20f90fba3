//! Plain request/response records used by the connection loop, and the
//! helper that reads the method word of a request line.
//!
//! Accepting connections and reading from them is done outside this crate's
//! verified part; see the application crate.

use vstd::prelude::*;

use crate::text::{find_char, first_index_of};

verus! {

/// A request as the connection loop records it.
pub struct HttpRequest {
    pub method: String,
    pub path: String,
    pub headers: Vec<(String, String)>,
    pub body: String,
}

/// A response status as the connection loop records it.
pub struct HttpResponse {
    pub status: u16,
}

/// The first word of a line: everything before the first space, or the
/// whole line when it has none.
pub open spec fn first_word(line: Seq<char>) -> Seq<char> {
    match first_index_of(line, ' ') {
        Some(i) => line.subrange(0, i),
        None => line,
    }
}

/// The method word of a request line: its first word. It never fails.
pub fn get_method(line: String) -> (r: Result<String, std::io::Error>)
    ensures
        r matches Ok(m) && m@ == first_word(line@),
{
    let s = line.as_str();
    match find_char(s, ' ') {
        Some(i) => Ok(String::from_str(s.substring_char(0, i))),
        None => Ok(line.clone()),
    }
}

} // verus!
