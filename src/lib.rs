//! Core of a minimal HTTP/1.1 server: request parsing from raw bytes,
//! header lookup, path routing and response framing.
pub mod handler;
pub mod request;
pub mod response;
pub mod text;
