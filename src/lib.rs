//! Parsing of HTTP/1.x requests from their wire bytes, and serialisation back
//! to wire form, with both directions proved against a byte-level model.
pub mod request;
pub mod parse;
pub mod serialize;
pub mod laws;
pub mod machine;

pub use machine::{ParseState, Step};
pub use parse::{parse_request, StartLine};
pub use request::{parse_version, Header, Headers, ParseError, Request, Version};
pub use serialize::serialize;
