//! A small multi-threaded echo server together with the HTTP message
//! handling it ships with: request-line parsing, status codes, and the
//! encoding and parsing of responses.

pub mod text;
pub mod http;
pub mod error;
pub mod server;
