//! Decoder for ANS-104 binary bundles: byte-level parsing of bundled Arweave
//! transactions into validated lists of signed data items, together with the
//! on-disk transaction cache and the fetch decisions of the command-line tool.

pub mod avro;
pub mod base64url;
pub mod bundle;
pub mod cache;
pub mod cli;
pub mod client;
pub mod json;
pub mod text;
pub mod utils;
