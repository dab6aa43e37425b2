//! An append-only message board with live fan-out.
//!
//! The library holds the verified core: the post history (`state::Log`), the
//! broadcast bus with bounded per-subscriber queues (`bus::Bus`), the JSON
//! encoding and parsing of posts (`json`), and the compute part of the three
//! HTTP handlers (`router`). The surrounding process — sockets, the async
//! runtime, configuration — lives outside the library.

pub mod bus;
pub mod errors;
pub mod json;
pub mod router;
pub mod state;
