//! Velox: the building blocks of a small HTTP/1.1 API framework, with their
//! behaviour stated as contracts and proved.
//!
//! | Module | What it gives you |
//! |---|---|
//! | [`text`] | Character-level helpers: trimming, searching, splitting, numbers |
//! | [`map`] | An insertion-ordered map from strings to strings |
//! | [`request`] | Parsing of the request line, header lines and query strings |
//! | [`response`] | Status codes, response builders and serialisation |
//! | [`handler`] | The handler trait and a closure wrapper |
//! | [`middleware`] | The middleware trait and the continuation it receives |
//! | [`router`] | Route registration, matching and dispatch |
//! | [`server`] | Small request helpers used by the connection loop |
//! | [`error`] | Framework error types |

pub mod error;
pub mod handler;
pub mod map;
pub mod middleware;
pub mod request;
pub mod response;
pub mod router;
pub mod server;
pub mod text;
