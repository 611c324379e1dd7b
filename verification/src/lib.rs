//! An HTTP/1.1 wire-format codec with machine-checked contracts.
//!
//! The crate turns the bytes that arrive on a connection into a structured
//! message (start line, header collection, body) and renders a structured
//! message back into the exact bytes sent on the wire. Every function states
//! its result over a mathematical model of the wire grammar.
pub mod ascii;
pub mod chunked;
pub mod error;
pub mod framing;
pub mod grammar;
pub mod header;
pub mod lines;
pub mod message;
pub mod parser;
pub mod serializer;
pub mod start_line;
pub mod theorems;
