//! Network information returned by a node's info endpoint.

use vstd::prelude::*;

verus! {

/// The node-reported state of the network.
#[derive(Debug, Clone, PartialEq, Eq)]
pub struct Network {
    pub network: String,
    pub version: u32,
    pub release: u32,
    pub height: u32,
    pub current: String,
    pub blocks: u32,
    pub peers: u32,
    pub queue_length: u32,
    pub node_state_latency: u32,
}

} // verus!
