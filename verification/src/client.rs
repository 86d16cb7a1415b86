//! The client-side model: decoded bundles and the types fetched from a node.

pub mod base64;
pub mod bundle;
pub mod currency;
pub mod network;
pub mod tags;
pub mod tx;
