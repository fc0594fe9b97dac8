//! Small helpers of the protocol layer: addresses, signed payloads, and
//! the passage between the messages and the values they stand for.

use vstd::prelude::*;
use vstd::string::StringExecFns;
use crate::auction::{AuctionGossip, AuctionState, GossipView};
use crate::crypto::{append_bytes, random_u64};
use crate::kademlia::{AuctionData, BroadcastReq, Gblock, Kcontact, Rdata, Transaction};
use crate::key::NodeID;
use crate::ledger::{Block, Data};
use crate::node::{Contact, LastSeen};

verus! {

/// The URL under which the peer at `address` is dialled.
pub fn format_address(address: String) -> (url: String)
    ensures
        url@ == "http://"@ + address@,
{
    let mut url = String::from_str("http://");
    url.append(address.as_str());
    url
}

/// A copy of a byte string.
pub fn bytes_of(src: &[u8]) -> (out: Vec<u8>)
    ensures
        out@ == src@,
{
    let mut out: Vec<u8> = Vec::new();
    append_bytes(&mut out, src);
    assert(out@ =~= src@);
    out
}

/// The 32 bytes of `src` as a hash, if `src` has 32 bytes.
pub fn hash_of(src: &[u8]) -> (hash: Option<[u8; 32]>)
    ensures
        src@.len() == 32 ==> hash is Some && hash->0@ == src@,
        src@.len() != 32 ==> hash is None,
{
    match NodeID::from_slice(src) {
        Some(id) => Some(id.0),
        None => None,
    }
}

/// A contact as it travels.
pub fn format_kcontact(contact: &Contact) -> (k: Kcontact)
    ensures
        k.uid@ == contact@.uid@,
        k.address@ == contact@.address,
        k.pub_key@ == contact@.pub_key,
{
    Kcontact {
        uid: bytes_of(contact.uid.as_bytes()),
        address: contact.address.clone(),
        pub_key: bytes_of(contact.get_pubkey()),
    }
}

/// The contact that a message names, never heard from so far; nothing
/// where its identifier does not have 32 bytes.
pub fn to_contact(k: &Kcontact) -> (contact: Option<Contact>)
    ensures
        k.uid@.len() != 32 ==> contact is None,
        k.uid@.len() == 32 ==> contact is Some && contact->0@.uid@ == k.uid@ && contact->0@.address
            == k.address@ && contact->0@.pub_key == k.pub_key@ && contact->0@.last_seen
            == LastSeen::Never,
{
    match NodeID::from_slice(k.uid.as_slice()) {
        Some(uid) => Some(Contact::new(uid, k.address.clone(), bytes_of(k.pub_key.as_slice()))),
        None => None,
    }
}

/// The contacts that a list of messages names, in their order; nothing
/// where one of the identifiers does not have 32 bytes.
pub fn contact_list(kcontact_list: &Vec<Kcontact>) -> (contacts: Option<Vec<Contact>>)
    ensures
        contacts is Some <==> (forall|i: int|
            0 <= i < kcontact_list@.len() ==> (#[trigger] kcontact_list@[i]).uid@.len() == 32),
        contacts matches Some(list) ==> list@.len() == kcontact_list@.len() && forall|i: int|
            0 <= i < list@.len() ==> {
                &&& (#[trigger] list@[i])@.uid@ == kcontact_list@[i].uid@
                &&& list@[i]@.address == kcontact_list@[i].address@
                &&& list@[i]@.pub_key == kcontact_list@[i].pub_key@
                &&& list@[i]@.last_seen == LastSeen::Never
            },
{
    let mut list: Vec<Contact> = Vec::new();
    let mut i: usize = 0;
    while i < kcontact_list.len()
        invariant
            0 <= i <= kcontact_list@.len(),
            list@.len() == i,
            forall|m: int| 0 <= m < i ==> (#[trigger] kcontact_list@[m]).uid@.len() == 32,
            forall|m: int|
                0 <= m < i ==> {
                    &&& (#[trigger] list@[m])@.uid@ == kcontact_list@[m].uid@
                    &&& list@[m]@.address == kcontact_list@[m].address@
                    &&& list@[m]@.pub_key == kcontact_list@[m].pub_key@
                    &&& list@[m]@.last_seen == LastSeen::Never
                },
        decreases kcontact_list@.len() - i,
    {
        match to_contact(&kcontact_list[i]) {
            Some(contact) => {
                list.push(contact);
            },
            None => {
                return None;
            },
        }
        i += 1;
    }
    Some(list)
}

/// Whether an announcement as it travels stands for `g`.
pub open spec fn is_data_of(auction: AuctionData, g: GossipView) -> bool {
    &&& auction.auction_id@ == g.auction_id
    &&& auction.title@ == g.title
    &&& auction.seller@ == g.seller@
    &&& auction.buyer@ == g.buyer@
    &&& auction.price == g.current_price
    &&& auction.status == (g.state == AuctionState::ONGOING)
}

/// Whether the identifiers of an announcement all have 32 bytes.
pub open spec fn data_ok(auction: AuctionData) -> bool {
    auction.auction_id@.len() == 32 && auction.buyer@.len() == 32 && auction.seller@.len() == 32
}

/// The announcement that a message stands for; nothing where one of its
/// identifiers does not have 32 bytes.
pub fn to_gossip(auction: &AuctionData) -> (gossip: Option<AuctionGossip>)
    ensures
        gossip is Some <==> data_ok(*auction),
        gossip matches Some(g) ==> is_data_of(*auction, g@),
{
    let id = match hash_of(auction.auction_id.as_slice()) {
        Some(id) => id,
        None => {
            return None;
        },
    };
    let buyer = match NodeID::from_slice(auction.buyer.as_slice()) {
        Some(buyer) => buyer,
        None => {
            return None;
        },
    };
    let seller = match NodeID::from_slice(auction.seller.as_slice()) {
        Some(seller) => seller,
        None => {
            return None;
        },
    };
    let state = if auction.status {
        AuctionState::ONGOING
    } else {
        AuctionState::FINISHED
    };
    Some(AuctionGossip::new(id, auction.title.clone(), buyer, auction.price, state, seller))
}

/// The announcements that a list of messages stands for, in their order;
/// nothing where one of them is malformed.
pub fn to_gossip_vec(auctions: &Vec<AuctionData>) -> (gossips: Option<Vec<AuctionGossip>>)
    ensures
        gossips is Some <==> (forall|i: int|
            0 <= i < auctions@.len() ==> data_ok(#[trigger] auctions@[i])),
        gossips matches Some(list) ==> list@.len() == auctions@.len() && forall|i: int|
            0 <= i < list@.len() ==> is_data_of(auctions@[i], (#[trigger] list@[i])@),
{
    let mut list: Vec<AuctionGossip> = Vec::new();
    let mut i: usize = 0;
    while i < auctions.len()
        invariant
            0 <= i <= auctions@.len(),
            list@.len() == i,
            forall|m: int| 0 <= m < i ==> data_ok(#[trigger] auctions@[m]),
            forall|m: int| 0 <= m < i ==> is_data_of(auctions@[m], (#[trigger] list@[m])@),
        decreases auctions@.len() - i,
    {
        match to_gossip(&auctions[i]) {
            Some(g) => {
                list.push(g);
            },
            None => {
                return None;
            },
        }
        i += 1;
    }
    Some(list)
}

/// An announcement as it travels.
pub fn to_auction_data(gossip: &AuctionGossip) -> (auction: AuctionData)
    ensures
        is_data_of(auction, gossip@),
        data_ok(auction),
{
    AuctionData {
        auction_id: bytes_of(gossip.get_auction_id().as_slice()),
        title: gossip.get_title(),
        seller: bytes_of(gossip.get_seller().as_bytes()),
        buyer: bytes_of(gossip.get_buyer().as_bytes()),
        price: gossip.get_price(),
        status: gossip.get_bool_state(),
    }
}

/// A list of announcements as it travels.
pub fn to_auction_data_vec(gossips: &Vec<AuctionGossip>) -> (auctions: Vec<AuctionData>)
    ensures
        auctions@.len() == gossips@.len(),
        forall|i: int|
            0 <= i < auctions@.len() ==> is_data_of(#[trigger] auctions@[i], gossips@[i]@),
{
    let mut auctions: Vec<AuctionData> = Vec::new();
    let mut i: usize = 0;
    while i < gossips.len()
        invariant
            0 <= i <= gossips@.len(),
            auctions@.len() == i,
            forall|m: int| 0 <= m < i ==> is_data_of(#[trigger] auctions@[m], gossips@[m]@),
        decreases gossips@.len() - i,
    {
        auctions.push(to_auction_data(&gossips[i]));
        i += 1;
    }
    auctions
}

/// The payload of a STORE request as its signature binds it: the encoded
/// value followed by the key.
pub fn encode_store(value: &[u8], key: NodeID) -> (databuf: Vec<u8>)
    ensures
        databuf@ == value@ + key@,
{
    let mut databuf: Vec<u8> = Vec::new();
    append_bytes(&mut databuf, value);
    append_bytes(&mut databuf, key.as_bytes());
    assert(databuf@ =~= value@ + key@);
    databuf
}

/// The payload of a FIND_VALUE reply as its signature binds it: the encoded
/// value or contact list followed by the key.
pub fn encode_fvalue(value: &[u8], key: NodeID) -> (databuf: Vec<u8>)
    ensures
        databuf@ == value@ + key@,
{
    encode_store(value, key)
}

/// A random number to stamp a ping with.
pub fn gen_cookie() -> u64 {
    random_u64()
}

/// Whether a transaction as it travels stands for `d`.
pub open spec fn is_transaction_of(t: Transaction, d: Data) -> bool {
    &&& t.seller@ == d.seller@
    &&& t.buyer@ == d.buyer@
    &&& t.amout == d.amount
    &&& t.auction_id@ == d.auction_id@
}

/// Whether a block as it travels stands for `b`.
pub open spec fn is_gblock_of(g: Gblock, b: Block) -> bool {
    &&& g.id == b.id
    &&& g.nonce == b.nonce
    &&& g.prev_hash@ == b.prev_hash@
    &&& g.current_hash@ == b.hash@
    &&& g.timestamp == b.timestamp
    &&& g.data is Some
    &&& is_transaction_of(g.data->0, b.data)
}

/// Whether the hashes and identifiers of a transaction have 32 bytes.
pub open spec fn transaction_ok(t: Transaction) -> bool {
    t.buyer@.len() == 32 && t.seller@.len() == 32 && t.auction_id@.len() == 32
}

/// Whether a block as it travels carries a transaction, and its hashes
/// and identifiers have 32 bytes.
pub open spec fn gblock_ok(g: Gblock) -> bool {
    g.prev_hash@.len() == 32 && g.current_hash@.len() == 32 && g.data is Some && transaction_ok(
        g.data->0,
    )
}

/// A block as it travels.
pub fn grpc_block(block: &Block) -> (g: Gblock)
    ensures
        is_gblock_of(g, *block),
        gblock_ok(g),
{
    Gblock {
        id: block.id,
        nonce: block.nonce,
        prev_hash: bytes_of(block.prev_hash.as_slice()),
        current_hash: bytes_of(block.hash.as_slice()),
        timestamp: block.timestamp,
        data: Some(grpc_transaction(&block.data)),
    }
}

/// A transaction as it travels.
pub fn grpc_transaction(data: &Data) -> (t: Transaction)
    ensures
        is_transaction_of(t, *data),
        transaction_ok(t),
{
    Transaction {
        seller: bytes_of(data.get_seller().as_bytes()),
        buyer: bytes_of(data.get_buyer().as_bytes()),
        amout: data.get_amount(),
        auction_id: bytes_of(data.get_auction_id().as_slice()),
    }
}

/// The block that a message stands for; nothing where it carries no
/// transaction or one of its hashes or identifiers does not have 32 bytes.
pub fn to_block(block: &Gblock) -> (b: Option<Block>)
    ensures
        b is Some <==> gblock_ok(*block),
        b matches Some(made) ==> is_gblock_of(*block, made),
{
    let prev_hash = match hash_of(block.prev_hash.as_slice()) {
        Some(h) => h,
        None => {
            return None;
        },
    };
    let hash = match hash_of(block.current_hash.as_slice()) {
        Some(h) => h,
        None => {
            return None;
        },
    };
    let data = match &block.data {
        Some(t) => match to_data(t) {
            Some(d) => d,
            None => {
                return None;
            },
        },
        None => {
            return None;
        },
    };
    Some(Block::new(block.id, block.nonce, prev_hash, hash, block.timestamp, data))
}

/// The transaction that a message stands for; nothing where one of its
/// hashes or identifiers does not have 32 bytes.
pub fn to_data(data: &Transaction) -> (d: Option<Data>)
    ensures
        d is Some <==> transaction_ok(*data),
        d matches Some(made) ==> is_transaction_of(*data, made),
{
    let buyer = match NodeID::from_slice(data.buyer.as_slice()) {
        Some(id) => id,
        None => {
            return None;
        },
    };
    let seller = match NodeID::from_slice(data.seller.as_slice()) {
        Some(id) => id,
        None => {
            return None;
        },
    };
    let auction_id = match hash_of(data.auction_id.as_slice()) {
        Some(h) => h,
        None => {
            return None;
        },
    };
    Some(Data::new(buyer, seller, data.amout, auction_id))
}

/// The broadcast that passes `data` on under the number `timestamp`.
pub fn build_brequest(timestamp: u64, data: Rdata) -> (request: BroadcastReq)
    ensures
        request.timestamp == timestamp,
        request.rdata == Some(data),
{
    BroadcastReq { timestamp, rdata: Some(data) }
}

} // verus!
