//! A minimal HTTP/1.1 request parser and response builder with machine-checked
//! contracts, plus the small amount of text rendering needed to share a file by
//! QR code.
//!
//! The crate performs no I/O: callers read bytes from a connection and hand them
//! in, and write out the bytes they are handed back.

pub mod error;
pub mod message;
pub mod parser;
pub mod qr;
pub mod reply;
pub mod request;
pub mod server;
pub mod text;
