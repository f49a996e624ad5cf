//! Core engine of a small HTTP/1.x application server: a request/response
//! codec (incremental parsing and serialization, with a proved round-trip
//! law against a conforming client), a per-connection worker state machine
//! with keep-alive, a sharded worker-pool scheduler model, an access-log
//! record, and the error taxonomy. All protocol logic is verified; socket
//! and file I/O live outside this crate and drive it with plain byte
//! buffers and events.
pub mod bytes;
pub mod errors;
pub mod codec;
pub mod request;
pub mod response;
pub mod roundtrip;
pub mod worker;
pub mod pool;
pub mod logger;
