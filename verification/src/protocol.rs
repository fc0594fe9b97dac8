//! The handlers of the protocol: what an incoming request does to the
//! node, and what the node answers.
//!
//! Every handler validates the header first. A request that fails leaves
//! the node exactly as it was. A request that passes makes its sender
//! known to the routing table, and only then does what it asks for.
//!
//! An offer to the routing table may need to know whether the head of a
//! full bucket is alive (`KadNode::ping_candidate` names it): the caller
//! pings and hands the outcome in as `head_alive`, together with the time.

use vstd::prelude::*;
use vstd::string::StringSliceAdditionalSpecFns;
use crate::auction::{gossip_views, AuctionGossip};
use crate::crypto::{rsa_block_len, CryptoError};
use crate::kad::{is_fresh, store_after, store_outcome, synced, KadNode, StoreOutcome};
use crate::kademlia::{BroadcastReq, Rdata};
use crate::key::NodeID;
use crate::ledger::{follows, Block, Data, LedgerError, Miner};
use crate::node::{contents, nearest_of, trie_insert, views, Contact, ContactView, LastSeen};
use crate::signatures::{
    header_verdict, key_error, signed_input, Header, InvalidMessage, Signer,
};
use crate::util::{
    bytes_of, encode_store, gblock_ok, is_gblock_of, is_transaction_of, to_block, to_data,
    transaction_ok,
};
use crate::K_MAX_ENTRIES;

verus! {

/// Why a request got no reply.
#[derive(Debug, Clone, Copy, PartialEq, Eq, Structural)]
pub enum Refusal {
    /// The request was invalid; the node is as it was.
    Invalid(InvalidMessage),
    /// The request was handled, but the reply could not be signed to the
    /// public key that the requester gave.
    Unsigned(CryptoError),
}

/// What the node holds for a key: the values stored under it, or else the
/// contacts nearest to it.
#[derive(Debug)]
pub enum HasValue {
    Auction(Vec<AuctionGossip>),
    Node(Vec<Contact>),
}

/// What became of a broadcast.
#[derive(Debug, Clone, Copy, PartialEq, Eq)]
pub enum Broadcasted {
    /// The broadcast was seen before: nothing was recorded, and it is not
    /// to be passed on.
    Stale,
    /// The broadcast is new, but its payload is missing or malformed:
    /// nothing was recorded.
    Unreadable,
    /// The block waits to be validated: the chain holds no block to follow.
    BlockWaits,
    /// The block was held against the chain's last block, and appended if
    /// it was accepted.
    Block(Result<(), LedgerError>),
    /// The transaction waits for the next block.
    Transaction,
}

/// What a broadcast records at the miner: nothing where it is not fresh or
/// its payload cannot be read; else the transaction or the block that the
/// payload stands for.
pub open spec fn recorded(
    before: Miner,
    after: Miner,
    fresh: bool,
    rdata: Option<Rdata>,
    r: Broadcasted,
) -> bool {
    if !fresh {
        r == Broadcasted::Stale && miner_unchanged(before, after)
    } else {
        match rdata {
            Some(Rdata::Block(g)) => if gblock_ok(g) {
                exists|b: Block| #[trigger] is_gblock_of(g, b) && block_recorded(before, after, b, r)
            } else {
                r == Broadcasted::Unreadable && miner_unchanged(before, after)
            },
            Some(Rdata::Transaction(t)) => if transaction_ok(t) {
                exists|d: Data|
                    {
                        &&& #[trigger] is_transaction_of(t, d)
                        &&& r == Broadcasted::Transaction
                        &&& after.spec_transactions() == before.spec_transactions().push(d)
                        &&& after.spec_waiting() == before.spec_waiting()
                        &&& after.spec_chain() == before.spec_chain()
                    }
            } else {
                r == Broadcasted::Unreadable && miner_unchanged(before, after)
            },
            None => r == Broadcasted::Unreadable && miner_unchanged(before, after),
        }
    }
}

/// The miner holds what it held.
pub open spec fn miner_unchanged(before: Miner, after: Miner) -> bool {
    &&& after.spec_transactions() == before.spec_transactions()
    &&& after.spec_waiting() == before.spec_waiting()
    &&& after.spec_chain() == before.spec_chain()
}

/// The block `b` was recorded: it waits where the chain holds no block; else
/// it was appended to the chain if it is accepted behind the last block.
pub open spec fn block_recorded(before: Miner, after: Miner, b: Block, r: Broadcasted) -> bool {
    &&& after.spec_transactions() == before.spec_transactions()
    &&& if before.spec_chain().len() == 0 {
        &&& r == Broadcasted::BlockWaits
        &&& after.spec_waiting() == before.spec_waiting().push(b)
        &&& after.spec_chain() == before.spec_chain()
    } else if follows(b, before.spec_chain().last()) {
        &&& r == Broadcasted::Block(Ok(()))
        &&& after.spec_waiting() == before.spec_waiting()
        &&& after.spec_chain() == before.spec_chain().push(b)
    } else {
        &&& r == Broadcasted::Block(Err(LedgerError::InvalidBlock))
        &&& after.spec_waiting() == before.spec_waiting()
        &&& after.spec_chain() == before.spec_chain()
    }
}

/// The identifier with the bytes `bytes`.
pub open spec fn id_of(bytes: Seq<u8>) -> NodeID {
    choose|id: NodeID| id@ == bytes
}

/// The contact that a header makes known: its sender, at the address and
/// with the key that the header names.
pub open spec fn sender_of(header: Header) -> ContactView {
    ContactView {
        uid: id_of(header.my_id@),
        address: header.address@,
        last_seen: LastSeen::Never,
        pub_key: header.pub_key@,
    }
}

/// `reply` is a header of `node` with the timestamp `timestamp`.
pub open spec fn is_header_of(reply: Header, node: KadNode, timestamp: u64) -> bool {
    &&& reply.my_id@ == node.spec_uid()@
    &&& reply.address@ == node.spec_address()
    &&& reply.pub_key@ == node.spec_validator().spec_pub_key()
    &&& reply.nonce == node.spec_validator().spec_nonce()
    &&& reply.timestamp == timestamp
}

/// What a reply to the holder of `pub_key` is: a header of `node` with the
/// timestamp `timestamp` and a signature as long as the key's modulus, or
/// else the reason why the reply could not be signed.
pub open spec fn is_reply_of(
    r: Result<Header, Refusal>,
    node: KadNode,
    timestamp: u64,
    pub_key: Seq<u8>,
) -> bool {
    match r {
        Ok(reply) => is_header_of(reply, node, timestamp) && reply.signature@.len()
            == rsa_block_len(pub_key),
        Err(e) => e == Refusal::Unsigned(key_error(pub_key)),
    }
}

/// The node after the sender of an accepted header was offered to its
/// routing table: nothing else has changed.
pub open spec fn learned(
    before: KadNode,
    after: KadNode,
    header: Header,
    head_alive: bool,
    now: i64,
) -> bool {
    &&& after.spec_rtable()@ == trie_insert(
        before.spec_rtable()@,
        sender_of(header),
        before.spec_validator().spec_node_id(),
        0,
        head_alive,
        now,
    )
    &&& after.spec_validator() == before.spec_validator()
    &&& after.spec_uid() == before.spec_uid()
    &&& after.spec_address() == before.spec_address()
    &&& after.spec_last_broadcast() == before.spec_last_broadcast()
    &&& after.spec_miner() == before.spec_miner()
    &&& after.wf()
}

/// An identifier is determined by its bytes.
proof fn lemma_id_of(id: NodeID)
    ensures
        id_of(id@) == id,
{
    let other = id_of(id@);
    assert(other@ == id@);
    assert(other.0 =~= id.0);
}

/// The handlers of one node.
#[derive(Debug)]
pub struct KademliaProtocol {
    pub node: KadNode,
}

impl KademliaProtocol {
    pub fn new(node: KadNode) -> (protocol: KademliaProtocol)
        ensures
            protocol.node == node,
    {
        KademliaProtocol { node }
    }

    /// The contacts of the routing table that are nearest to `key`.
    pub fn lookup(&self, key: NodeID) -> (k_closest: Vec<Contact>)
        requires
            self.node.wf(),
        ensures
            nearest_of(
                views(k_closest@),
                contents(self.node.spec_rtable()@),
                key,
                K_MAX_ENTRIES as int,
            ),
    {
        self.node.lookup(key)
    }

    /// Makes the sender of an accepted header known to the routing table.
    fn insert_update(&mut self, header: &Header, id: NodeID, head_alive: bool, now: i64)
        requires
            old(self).node.wf(),
            id@ == header.my_id@,
        ensures
            learned(old(self).node, final(self).node, *header, head_alive, now),
            final(self).node.spec_store() == old(self).node.spec_store(),
            final(self).node.spec_timestamp() == old(self).node.spec_timestamp(),
    {
        proof {
            lemma_id_of(id);
        }
        let con = Contact::new(id, header.address.clone(), bytes_of(header.pub_key.as_slice()));
        self.node.insert_at(con, head_alive, now);
    }

    /// A header of this node with the given timestamp and signature.
    fn own_header(&self, timestamp: u64, signature: Vec<u8>) -> (reply: Header)
        ensures
            is_header_of(reply, self.node, timestamp),
            reply.signature == signature,
    {
        Header {
            my_id: bytes_of(self.node.get_uid().as_bytes()),
            address: self.own_address(),
            pub_key: self.node.get_pubkey(),
            nonce: self.node.get_nonce(),
            timestamp,
            signature,
        }
    }

    /// The address that this node listens on.
    pub fn own_address(&self) -> (address: String)
        ensures
            address@ == self.node.spec_address(),
    {
        self.node.get_address()
    }

    /// The header of a reply without payload to the request with the
    /// digest `req_hash`, signed to the requester's key `pub_key`.
    pub fn weak_reply(&self, timestamp: u64, pub_key: &[u8], req_hash: &[u8]) -> (r: Result<
        Header,
        Refusal,
    >)
        ensures
            is_reply_of(r, self.node, timestamp, pub_key@),
    {
        let address = self.own_address();
        match Signer::sign_weak_header_rep(timestamp, pub_key, address.as_str(), req_hash) {
            Ok(signature) => Ok(self.own_header(timestamp, signature)),
            Err(e) => Err(Refusal::Unsigned(e)),
        }
    }

    /// The header of a reply with the payload `data` to the request with
    /// the digest `req_hash`, signed to the requester's key `pub_key`.
    pub fn strong_reply(&self, timestamp: u64, pub_key: &[u8], data: &[u8], req_hash: &[u8]) -> (r:
        Result<Header, Refusal>)
        ensures
            is_reply_of(r, self.node, timestamp, pub_key@),
    {
        let address = self.own_address();
        match Signer::sign_strong_header_rep(timestamp, pub_key, address.as_str(), data, req_hash) {
            Ok(signature) => Ok(self.own_header(timestamp, signature)),
            Err(e) => Err(Refusal::Unsigned(e)),
        }
    }

    /// PING: a valid request makes its sender known and is answered with a
    /// header that carries `cookie` as its timestamp.
    pub fn ping(
        &mut self,
        header: &Header,
        remote_addr: &str,
        head_alive: bool,
        now: i64,
        cookie: u64,
    ) -> (r: Result<Header, Refusal>)
        requires
            old(self).node.wf(),
        ensures
            final(self).node.wf(),
            match header_verdict(
                old(self).node.spec_validator().spec_priv_key(),
                header.my_id@,
                header.nonce,
                header.signature@,
                signed_input(
                    header.timestamp,
                    remote_addr.spec_bytes(),
                    Seq::<u8>::empty(),
                    Seq::<u8>::empty(),
                ),
            ) {
                Err(e) => r == Err::<Header, Refusal>(Refusal::Invalid(e)) && final(self).node
                    == old(self).node,
                Ok(_) => {
                    &&& learned(old(self).node, final(self).node, *header, head_alive, now)
                    &&& final(self).node.spec_store() == old(self).node.spec_store()
                    &&& final(self).node.spec_timestamp() == old(self).node.spec_timestamp()
                    &&& is_reply_of(r, final(self).node, cookie, header.pub_key@)
                },
            },
    {
        match Signer::validate_weak_req(self.node.get_validator(), header, remote_addr) {
            Err(e) => Err(Refusal::Invalid(e)),
            Ok(req_hash) => {
                match NodeID::from_slice(header.my_id.as_slice()) {
                    Some(id) => {
                        self.insert_update(header, id, head_alive, now);
                    },
                    None => {},
                }
                self.weak_reply(cookie, header.pub_key.as_slice(), req_hash.as_slice())
            },
        }
    }

    /// STORE: a valid request makes its sender known and lets the counter
    /// see its timestamp; its value is stored only if the timestamp is
    /// fresh, so that after a request with one timestamp a request with
    /// that timestamp or an older one changes nothing in the store. `value` is the payload and `value_bytes` its encoding, which
    /// the signature binds together with the key `target_id`.
    pub fn store(
        &mut self,
        header: &Header,
        remote_addr: &str,
        target_id: &[u8],
        value_bytes: &[u8],
        value: AuctionGossip,
        head_alive: bool,
        now: i64,
    ) -> (r: Result<(Header, StoreOutcome), Refusal>)
        requires
            old(self).node.wf(),
        ensures
            final(self).node.wf(),
            target_id@.len() != 32 ==> r == Err::<(Header, StoreOutcome), Refusal>(
                Refusal::Invalid(InvalidMessage::Malformed),
            ) && final(self).node == old(self).node,
            target_id@.len() == 32 ==> match header_verdict(
                old(self).node.spec_validator().spec_priv_key(),
                header.my_id@,
                header.nonce,
                header.signature@,
                signed_input(
                    header.timestamp,
                    remote_addr.spec_bytes(),
                    value_bytes@ + target_id@,
                    Seq::<u8>::empty(),
                ),
            ) {
                Err(e) => r == Err::<(Header, StoreOutcome), Refusal>(Refusal::Invalid(e))
                    && final(self).node == old(self).node,
                Ok(_) => {
                    &&& learned(old(self).node, final(self).node, *header, head_alive, now)
                    &&& final(self).node.spec_timestamp() == synced(
                        old(self).node.spec_timestamp(),
                        header.timestamp,
                    )
                    &&& final(self).node.spec_store() == store_after(
                        old(self).node.spec_store(),
                        old(self).node.spec_timestamp(),
                        id_of(target_id@),
                        value@,
                        header.timestamp,
                    )
                    &&& match r {
                        Ok((reply, outcome)) => {
                            &&& is_reply_of(
                                Ok::<Header, Refusal>(reply),
                                final(self).node,
                                final(self).node.spec_timestamp(),
                                header.pub_key@,
                            )
                            &&& outcome == store_outcome(
                                old(self).node.spec_store(),
                                old(self).node.spec_timestamp(),
                                value@,
                                header.timestamp,
                            )
                        },
                        Err(e) => e == Refusal::Unsigned(key_error(header.pub_key@)),
                    }
                },
            },
    {
        let key = match NodeID::from_slice(target_id) {
            Some(key) => key,
            None => {
                return Err(Refusal::Invalid(InvalidMessage::Malformed));
            },
        };
        proof {
            lemma_id_of(key);
        }
        let databuf = encode_store(value_bytes, key);
        match Signer::validate_strong_req(
            self.node.get_validator(),
            header,
            remote_addr,
            databuf.as_slice(),
        ) {
            Err(e) => Err(Refusal::Invalid(e)),
            Ok(req_hash) => {
                match NodeID::from_slice(header.my_id.as_slice()) {
                    Some(id) => {
                        self.insert_update(header, id, head_alive, now);
                    },
                    None => {},
                }
                let (outcome, timestamp) = self.node.handle_store(key, value, header.timestamp);
                match self.weak_reply(timestamp, header.pub_key.as_slice(), req_hash.as_slice()) {
                    Ok(reply) => Ok((reply, outcome)),
                    Err(e) => Err(e),
                }
            },
        }
    }

    /// FIND_NODE: a valid request is answered with the contacts nearest to
    /// `target_id` as the table held them before it learned of the sender;
    /// then the sender is made known and the counter sees the timestamp.
    /// Returns the contacts, the timestamp for the reply and the request's
    /// digest: the reply is signed with `strong_reply` over the encoded
    /// contacts.
    pub fn find_node(
        &mut self,
        header: &Header,
        remote_addr: &str,
        target_id: &[u8],
        head_alive: bool,
        now: i64,
    ) -> (r: Result<(Vec<Contact>, u64, Vec<u8>), Refusal>)
        requires
            old(self).node.wf(),
        ensures
            final(self).node.wf(),
            target_id@.len() != 32 ==> r == Err::<(Vec<Contact>, u64, Vec<u8>), Refusal>(
                Refusal::Invalid(InvalidMessage::Malformed),
            ) && final(self).node == old(self).node,
            target_id@.len() == 32 ==> match header_verdict(
                old(self).node.spec_validator().spec_priv_key(),
                header.my_id@,
                header.nonce,
                header.signature@,
                signed_input(
                    header.timestamp,
                    remote_addr.spec_bytes(),
                    Seq::<u8>::empty(),
                    Seq::<u8>::empty(),
                ),
            ) {
                Err(e) => r == Err::<(Vec<Contact>, u64, Vec<u8>), Refusal>(Refusal::Invalid(e))
                    && final(self).node == old(self).node,
                Ok(digest) => {
                    &&& learned(old(self).node, final(self).node, *header, head_alive, now)
                    &&& final(self).node.spec_store() == old(self).node.spec_store()
                    &&& final(self).node.spec_timestamp() == synced(
                        old(self).node.spec_timestamp(),
                        header.timestamp,
                    )
                    &&& r is Ok
                    &&& nearest_of(
                        views(r->Ok_0.0@),
                        contents(old(self).node.spec_rtable()@),
                        id_of(target_id@),
                        K_MAX_ENTRIES as int,
                    )
                    &&& r->Ok_0.1 == final(self).node.spec_timestamp()
                    &&& r->Ok_0.2@ == digest
                },
            },
    {
        let lookup_key = match NodeID::from_slice(target_id) {
            Some(key) => key,
            None => {
                return Err(Refusal::Invalid(InvalidMessage::Malformed));
            },
        };
        proof {
            lemma_id_of(lookup_key);
        }
        match Signer::validate_weak_req(self.node.get_validator(), header, remote_addr) {
            Err(e) => Err(Refusal::Invalid(e)),
            Ok(req_hash) => {
                let k_closest = self.lookup(lookup_key);
                match NodeID::from_slice(header.my_id.as_slice()) {
                    Some(id) => {
                        self.insert_update(header, id, head_alive, now);
                    },
                    None => {},
                }
                let timestamp = self.node.compare(header.timestamp);
                Ok((k_closest, timestamp, req_hash))
            },
        }
    }

    /// FIND_VALUE: a valid request makes its sender known and is answered
    /// with the values stored under `key_bytes`, or else with the contacts
    /// nearest to it; the counter sees the timestamp. Returns the answer,
    /// the timestamp for the reply and the request's digest: the reply is
    /// signed with `strong_reply` over the encoded answer and the key.
    pub fn find_value(
        &mut self,
        header: &Header,
        remote_addr: &str,
        key_bytes: &[u8],
        head_alive: bool,
        now: i64,
    ) -> (r: Result<(HasValue, u64, Vec<u8>), Refusal>)
        requires
            old(self).node.wf(),
        ensures
            final(self).node.wf(),
            key_bytes@.len() != 32 ==> r == Err::<(HasValue, u64, Vec<u8>), Refusal>(
                Refusal::Invalid(InvalidMessage::Malformed),
            ) && final(self).node == old(self).node,
            key_bytes@.len() == 32 ==> match header_verdict(
                old(self).node.spec_validator().spec_priv_key(),
                header.my_id@,
                header.nonce,
                header.signature@,
                signed_input(
                    header.timestamp,
                    remote_addr.spec_bytes(),
                    key_bytes@,
                    Seq::<u8>::empty(),
                ),
            ) {
                Err(e) => r == Err::<(HasValue, u64, Vec<u8>), Refusal>(Refusal::Invalid(e))
                    && final(self).node == old(self).node,
                Ok(digest) => {
                    &&& learned(old(self).node, final(self).node, *header, head_alive, now)
                    &&& final(self).node.spec_store() == old(self).node.spec_store()
                    &&& final(self).node.spec_timestamp() == synced(
                        old(self).node.spec_timestamp(),
                        header.timestamp,
                    )
                    &&& r is Ok
                    &&& match r->Ok_0.0 {
                        HasValue::Auction(list) => old(self).node.spec_store().dom().contains(
                            id_of(key_bytes@),
                        ) && gossip_views(list@) == old(self).node.spec_store()[id_of(key_bytes@)],
                        HasValue::Node(k_closest) => !old(self).node.spec_store().dom().contains(
                            id_of(key_bytes@),
                        ) && nearest_of(
                            views(k_closest@),
                            contents(final(self).node.spec_rtable()@),
                            id_of(key_bytes@),
                            K_MAX_ENTRIES as int,
                        ),
                    }
                    &&& r->Ok_0.1 == final(self).node.spec_timestamp()
                    &&& r->Ok_0.2@ == digest
                },
            },
    {
        let lookup_key = match NodeID::from_slice(key_bytes) {
            Some(key) => key,
            None => {
                return Err(Refusal::Invalid(InvalidMessage::Malformed));
            },
        };
        proof {
            lemma_id_of(lookup_key);
        }
        match Signer::validate_strong_req(
            self.node.get_validator(),
            header,
            remote_addr,
            key_bytes,
        ) {
            Err(e) => Err(Refusal::Invalid(e)),
            Ok(req_hash) => {
                match NodeID::from_slice(header.my_id.as_slice()) {
                    Some(id) => {
                        self.insert_update(header, id, head_alive, now);
                    },
                    None => {},
                }
                let has_value = match self.node.retrieve(lookup_key) {
                    Some(val) => HasValue::Auction(val),
                    None => HasValue::Node(self.lookup(lookup_key)),
                };
                let timestamp = self.node.compare(header.timestamp);
                Ok((has_value, timestamp, req_hash))
            },
        }
    }

    /// BROADCAST: lets the broadcast counter see the number of the
    /// broadcast. One that was seen before is neither recorded nor to be
    /// passed on. Of a new one the payload is recorded: a transaction waits
    /// for the next block; a block is appended to the chain if it is
    /// accepted behind the chain's last block, and waits where the chain
    /// holds no block. A payload that is missing or malformed records
    /// nothing.
    pub fn broadcast(&mut self, request: &BroadcastReq) -> (r: Broadcasted)
        ensures
            final(self).node.spec_last_broadcast() == synced(
                old(self).node.spec_last_broadcast(),
                request.timestamp,
            ),
            final(self).node.spec_timestamp() == old(self).node.spec_timestamp(),
            final(self).node.spec_store() == old(self).node.spec_store(),
            final(self).node.spec_rtable() == old(self).node.spec_rtable(),
            final(self).node.spec_validator() == old(self).node.spec_validator(),
            final(self).node.spec_uid() == old(self).node.spec_uid(),
            final(self).node.spec_address() == old(self).node.spec_address(),
            final(self).node.wf() == old(self).node.wf(),
            recorded(
                old(self).node.spec_miner(),
                final(self).node.spec_miner(),
                is_fresh(old(self).node.spec_last_broadcast(), request.timestamp),
                request.rdata,
                r,
            ),
    {
        let before = self.node.get_last_broadcast();
        let _ = self.node.compare_broadcast(request.timestamp);
        if !(before <= request.timestamp && request.timestamp < u64::MAX) {
            return Broadcasted::Stale;
        }
        let ghost miner = self.node.spec_miner();
        match &request.rdata {
            Some(Rdata::Block(g)) => match to_block(g) {
                Some(block) => {
                    self.node.store_block(block);
                    if self.node.chain_height() == 0 {
                        Broadcasted::BlockWaits
                    } else {
                        let verdict = self.node.validate_blocks();
                        proof {
                            assert(miner.spec_waiting().push(block).drop_last()
                                =~= miner.spec_waiting());
                            assert(miner.spec_waiting().push(block).last() == block);
                        }
                        Broadcasted::Block(verdict)
                    }
                },
                None => Broadcasted::Unreadable,
            },
            Some(Rdata::Transaction(t)) => match to_data(t) {
                Some(data) => {
                    self.node.store_transaction(data);
                    Broadcasted::Transaction
                },
                None => Broadcasted::Unreadable,
            },
            None => Broadcasted::Unreadable,
        }
    }

    /// The chain request: a valid request lets the counter see its
    /// timestamp; the chain itself is the ledger's to send.
    pub fn req_chain(&mut self, header: &Header, remote_addr: &str) -> (r: Result<(), Refusal>)
        ensures
            match header_verdict(
                old(self).node.spec_validator().spec_priv_key(),
                header.my_id@,
                header.nonce,
                header.signature@,
                signed_input(
                    header.timestamp,
                    remote_addr.spec_bytes(),
                    Seq::<u8>::empty(),
                    Seq::<u8>::empty(),
                ),
            ) {
                Err(e) => r == Err::<(), Refusal>(Refusal::Invalid(e)) && final(self).node == old(self).node,
                Ok(_) => r == Ok::<(), Refusal>(()) && final(self).node.spec_timestamp() == synced(
                    old(self).node.spec_timestamp(),
                    header.timestamp,
                ) && final(self).node.spec_store() == old(self).node.spec_store()
                    && final(self).node.spec_rtable() == old(self).node.spec_rtable()
                    && final(self).node.wf() == old(self).node.wf(),
            },
    {
        match Signer::validate_weak_req(self.node.get_validator(), header, remote_addr) {
            Err(e) => Err(Refusal::Invalid(e)),
            Ok(_) => {
                let _ = self.node.compare(header.timestamp);
                Ok(())
            },
        }
    }
}

} // verus!
