//! A small table-driven protobuf library: wire-format primitives, message
//! tables, a has-bit object model, decoding, encoding and reflection.
pub mod wire;
pub mod containers;
pub mod base;
pub mod descriptor;
pub mod tables;
pub mod decoding;
pub mod encoding;
pub mod roundtrip;
pub mod reflection;
pub mod locality;
pub mod streaming;
pub mod samples;
pub mod arena;
pub mod wellknown;
pub mod json;
pub mod json_read;
pub mod table_json;
pub mod json_law;
