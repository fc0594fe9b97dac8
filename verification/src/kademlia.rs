//! The messages of the protocol as plain values: what travels besides the
//! header. Identifiers and hashes travel as byte strings, prices and
//! amounts as the bit patterns of single-precision numbers.

use vstd::prelude::*;

verus! {

/// A contact as it travels.
#[derive(Debug, Clone, PartialEq, Eq)]
pub struct Kcontact {
    pub uid: Vec<u8>,
    pub address: String,
    pub pub_key: Vec<u8>,
}

/// The announcement of an auction as it travels.
#[derive(Debug, Clone, PartialEq, Eq)]
pub struct AuctionData {
    pub auction_id: Vec<u8>,
    pub title: String,
    pub seller: Vec<u8>,
    pub buyer: Vec<u8>,
    pub price: u32,
    pub status: bool,
}

/// A transaction as it travels.
#[derive(Debug, Clone, PartialEq, Eq)]
pub struct Transaction {
    pub seller: Vec<u8>,
    pub buyer: Vec<u8>,
    pub amout: u32,
    pub auction_id: Vec<u8>,
}

/// A block as it travels.
#[derive(Debug, Clone, PartialEq, Eq)]
pub struct Gblock {
    pub id: u64,
    pub nonce: u64,
    pub prev_hash: Vec<u8>,
    pub current_hash: Vec<u8>,
    pub timestamp: i64,
    pub data: Option<Transaction>,
}

/// What a broadcast carries.
#[derive(Debug, Clone, PartialEq, Eq)]
pub enum Rdata {
    Block(Gblock),
    Transaction(Transaction),
}

/// A broadcast.
#[derive(Debug, Clone, PartialEq, Eq)]
pub struct BroadcastReq {
    pub timestamp: u64,
    pub rdata: Option<Rdata>,
}

} // verus!
