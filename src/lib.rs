//! An in-memory key-value server's core: a codec for a length-prefixed, type-tagged wire
//! protocol, a command engine (PING, ECHO, SET, GET), the store it runs against, and the
//! per-connection logic that ties them together.

pub mod value;
pub mod number;
pub mod decode;
pub mod encode;
pub mod store;
pub mod engine;
pub mod session;
pub mod laws;
