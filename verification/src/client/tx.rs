//! A fetched bundle transaction with its decoded payload.

use vstd::prelude::*;
use crate::client::bundle::Bundle;
use crate::client::tags::Base64Tags;

verus! {

/// A bundle transaction as assembled by the client: the parent transaction's
/// fields together with the decoded bundle its payload held.
#[derive(Debug)]
pub struct BundleTx {
    pub format: u8,
    pub id: String,
    pub last_tx: String,
    pub owner: String,
    pub tags: Base64Tags,
    pub target: String,
    pub data: Bundle,
    pub data_root: String,
    pub data_size: String,
    pub reward: String,
    pub signature: String,
}

} // verus!
