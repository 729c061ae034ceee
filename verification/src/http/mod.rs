//! HTTP messages: request lines, status codes and responses.

pub mod request;
pub mod response;
pub mod roundtrip;
