//! Verified core of a small music-streaming HTTP server.
//!
//! The library holds the wire-protocol logic: percent-codec, request
//! parsing, response rendering, routing, the chunk protocol, the index
//! file format, and the worker-pool bookkeeping.  All I/O lives outside.

pub mod ascii;
pub mod connection;
pub mod dict;
pub mod endpoint;
pub mod index;
pub mod logger;
pub mod pool;
pub mod response;
pub mod router;
pub mod util;
