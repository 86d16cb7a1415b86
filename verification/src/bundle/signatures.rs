//! The registry of supported signature schemes.

use std::collections::HashMap;
use vstd::prelude::*;

verus! {

broadcast use vstd::std_specs::hash::group_hash_axioms;

/// The wire layout of one signature scheme: its name and the byte lengths of
/// a signature and of an owner public key.
pub struct SigConfig {
    pub sig_name: &'static str,
    pub sig_length: u32,
    pub pub_length: u32,
}

/// The signature and public-key lengths of a supported signature type.
pub open spec fn sig_lengths(sig_type: u64) -> Option<(u32, u32)> {
    if sig_type == 1 {
        Some((512u32, 512u32))
    } else if sig_type == 2 {
        Some((64u32, 32u32))
    } else if sig_type == 3 {
        Some((65u32, 65u32))
    } else if sig_type == 4 {
        Some((64u32, 32u32))
    } else {
        None
    }
}

/// The name of a supported signature type.
pub open spec fn sig_name(sig_type: u64) -> Seq<char> {
    if sig_type == 1 {
        "arweave"@
    } else if sig_type == 2 {
        "ed25519"@
    } else if sig_type == 3 {
        "ethereum"@
    } else {
        "solana"@
    }
}

/// Look up the configuration of a signature type; `None` exactly for the
/// unsupported ones.
pub fn sig_config(sig_type: u64) -> (r: Option<SigConfig>)
    ensures
        match r {
            Some(c) => sig_lengths(sig_type) == Some((c.sig_length, c.pub_length)) && c.sig_name@
                == sig_name(sig_type),
            None => sig_lengths(sig_type) is None,
        },
{
    if sig_type == 1 {
        Some(SigConfig { sig_name: "arweave", sig_length: 512, pub_length: 512 })
    } else if sig_type == 2 {
        Some(SigConfig { sig_name: "ed25519", sig_length: 64, pub_length: 32 })
    } else if sig_type == 3 {
        Some(SigConfig { sig_name: "ethereum", sig_length: 65, pub_length: 65 })
    } else if sig_type == 4 {
        Some(SigConfig { sig_name: "solana", sig_length: 64, pub_length: 32 })
    } else {
        None
    }
}

/// The registry as a map: one entry per supported signature type.
pub fn get_sig_types() -> (m: HashMap<u64, SigConfig>)
    ensures
        forall|t: u64| m@.contains_key(t) <==> sig_lengths(t) is Some,
        forall|t: u64| #[trigger] m@.contains_key(t) ==> sig_lengths(t) == Some(
            ((m@[t]).sig_length, (m@[t]).pub_length),
        ) && (m@[t]).sig_name@ == sig_name(t),
{
    let mut m: HashMap<u64, SigConfig> = HashMap::new();
    m.insert(1, SigConfig { sig_name: "arweave", sig_length: 512, pub_length: 512 });
    m.insert(2, SigConfig { sig_name: "ed25519", sig_length: 64, pub_length: 32 });
    m.insert(3, SigConfig { sig_name: "ethereum", sig_length: 65, pub_length: 65 });
    m.insert(4, SigConfig { sig_name: "solana", sig_length: 64, pub_length: 32 });
    m
}

} // verus!
