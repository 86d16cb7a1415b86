//! The bundle-side data model: the signature registry, decoded tags, and the
//! validated parent transaction.

pub mod signatures;
pub mod tags;
pub mod tx;
