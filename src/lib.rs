//! A local DNS responder for one top-level suffix: the message codec, the
//! hostname table and its text format, the resolution engine, and the
//! decisions of the serving loop, each with its contract proved by Verus.

pub mod text;
pub mod ipv4;
pub mod records;
pub mod protocol;
pub mod resolve;
pub mod server;
pub mod wire;
pub mod buffer;
pub mod codec;
pub mod laws;
pub mod config;
pub mod breaker;
