//! Kademlia-style distributed hash table engine: proof-of-work identities,
//! a binary routing trie with bounded buckets, closest-contact lookup and
//! the signed request/response envelope.

use vstd::prelude::*;

pub mod auction;
pub mod bits;
pub mod crypto;
pub mod kad;
pub mod kademlia;
pub mod key;
pub mod ledger;
pub mod lookup;
pub mod node;
pub mod protocol;
pub mod rtable;
pub mod signatures;
pub mod util;

verus! {

/// Capacity of a bucket, and the number of contacts a lookup returns.
pub const K_MAX_ENTRIES: usize = 5;

/// Leading zero bits that the hash of an identifier must have.
pub const C1: u32 = 8;

/// Leading zero bits that the hash of identifier and nonce must have.
pub const C2: u32 = 16;

} // verus!
