//! A verified core for a small file-serving catalogue.
//!
//! The library owns the logic of the server: the JSON codec for the
//! `config.json` mapping file, the identifier-to-path table it yields, and
//! the per-request routing and retrieval decisions. All file, network and
//! environment I/O lives outside, and hands the library plain values.

pub mod json;
pub mod mapping;
pub mod roundtrip;
pub mod server;
