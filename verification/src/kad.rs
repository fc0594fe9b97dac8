//! The local node: its identity, its routing table, its Lamport counters
//! and the values it stores for the network.

use vstd::prelude::*;
use crate::auction::{
    gossip_views, holds_auction, list_holds, list_outbids, outbid_in, replace_in, replaced,
    AuctionGossip, GossipView,
};
use crate::key::{NodeID, NodeValidator};
use crate::ledger::{
    block_hash, follows, is_last_shortest, work_holds, Block, Chain, Data, LedgerError, Miner,
};
use crate::node::{
    contents, nearest_of, ping_target, trie_insert, utc_now, views, Contact, ContactView,
    LastSeen,
};
use crate::rtable::Rtable;
use crate::K_MAX_ENTRIES;

verus! {

/// A value was refused because the store holds a higher price for the same
/// auction.
#[derive(Debug, Copy, Clone, PartialEq, Eq, Structural)]
pub struct StoreRejected {}

/// What became of a STORE request.
#[derive(Debug, Copy, Clone, PartialEq, Eq, Structural)]
pub enum StoreOutcome {
    /// The value was stored.
    Applied,
    /// The request's timestamp was not newer than the last one seen: the
    /// store was left as it was.
    Stale,
    /// The request was fresh, but the store holds a better value.
    Rejected,
}

/// Some list of the store holds the auction of `v` at a higher price.
pub open spec fn outbid(store: Map<NodeID, Seq<GossipView>>, v: GossipView) -> bool {
    exists|k: NodeID| store.dom().contains(k) && outbid_in(#[trigger] store[k], v)
}

/// The store after `v` was stored under `key`: `v` replaces what the list
/// of `key`, and every other list that knows the auction, held of it; a
/// key that is new gets a list of its own.
pub open spec fn stored(store: Map<NodeID, Seq<GossipView>>, key: NodeID, v: GossipView) -> Map<
    NodeID,
    Seq<GossipView>,
> {
    Map::new(
        |k: NodeID| store.dom().contains(k) || k == key,
        |k: NodeID|
            if store.dom().contains(k) {
                if k == key || holds_auction(store[k], v.auction_id) {
                    replaced(store[k], v)
                } else {
                    store[k]
                }
            } else {
                seq![v]
            },
    )
}

/// A timestamp is fresh for a counter if it is not below the counter, which
/// stands one above the latest timestamp seen, and leaves room for the
/// counter to pass it: the last timestamp of the range is never fresh.
pub open spec fn is_fresh(counter: u64, other: u64) -> bool {
    counter <= other < u64::MAX
}

/// The counter after it has seen the timestamp `other`: unchanged if the
/// timestamp is below it, and else one above the timestamp, or at the end
/// of its range where the timestamp stands there.
pub open spec fn synced(counter: u64, other: u64) -> u64 {
    if counter <= other {
        if other == u64::MAX {
            u64::MAX
        } else {
            (other + 1) as u64
        }
    } else {
        counter
    }
}

/// What becomes of a STORE request with the timestamp `timestamp` and the
/// value `v` at a node whose counter stands at `counter`.
pub open spec fn store_outcome(
    store: Map<NodeID, Seq<GossipView>>,
    counter: u64,
    v: GossipView,
    timestamp: u64,
) -> StoreOutcome {
    if !is_fresh(counter, timestamp) {
        StoreOutcome::Stale
    } else if outbid(store, v) {
        StoreOutcome::Rejected
    } else {
        StoreOutcome::Applied
    }
}

/// The store after a STORE request with the timestamp `timestamp` for
/// `key` and `v`: changed only where the request is applied.
pub open spec fn store_after(
    store: Map<NodeID, Seq<GossipView>>,
    counter: u64,
    key: NodeID,
    v: GossipView,
    timestamp: u64,
) -> Map<NodeID, Seq<GossipView>> {
    if store_outcome(store, counter, v, timestamp) == StoreOutcome::Applied {
        stored(store, key, v)
    } else {
        store
    }
}

/// The counter after it has handed out a timestamp.
pub open spec fn ticked(counter: u64) -> u64 {
    if counter == u64::MAX {
        0
    } else {
        (counter + 1) as u64
    }
}

/// Once the counter has seen a timestamp, that timestamp and every older
/// one are stale: a request that arrives late or twice is not applied.
pub proof fn lemma_older_is_stale(counter: u64, seen: u64, older: u64)
    requires
        older <= seen,
    ensures
        !is_fresh(synced(counter, seen), older),
{
}

/// After a STORE request with the timestamp `seen`, whatever became of
/// it, a request with that timestamp or an older one leaves the store as
/// it is, whatever its key and value.
pub proof fn lemma_late_store_changes_nothing(
    store: Map<NodeID, Seq<GossipView>>,
    counter: u64,
    key: NodeID,
    v: GossipView,
    seen: u64,
    late_key: NodeID,
    late: GossipView,
    older: u64,
)
    requires
        older <= seen,
    ensures
        store_outcome(
            store_after(store, counter, key, v, seen),
            synced(counter, seen),
            late,
            older,
        ) == StoreOutcome::Stale,
        store_after(
            store_after(store, counter, key, v, seen),
            synced(counter, seen),
            late_key,
            late,
            older,
        ) == store_after(store, counter, key, v, seen),
{
    lemma_older_is_stale(counter, seen, older);
}

/// The entries hold a list for `key`.
pub open spec fn has_key(entries: Seq<(NodeID, Vec<AuctionGossip>)>, key: NodeID) -> bool {
    exists|i: int| 0 <= i < entries.len() && (#[trigger] entries[i]).0 == key
}

/// The place of the entry of `key`.
pub open spec fn key_index(entries: Seq<(NodeID, Vec<AuctionGossip>)>, key: NodeID) -> int {
    choose|i: int| 0 <= i < entries.len() && (#[trigger] entries[i]).0 == key
}

/// No key stands twice among the entries.
pub open spec fn keys_distinct(entries: Seq<(NodeID, Vec<AuctionGossip>)>) -> bool {
    forall|i: int, j: int|
        0 <= i < j < entries.len() ==> (#[trigger] entries[i]).0 != (#[trigger] entries[j]).0
}

/// The map that a list of entries with distinct keys stands for.
pub open spec fn entries_map(entries: Seq<(NodeID, Vec<AuctionGossip>)>) -> Map<
    NodeID,
    Seq<GossipView>,
> {
    Map::new(
        |k: NodeID| has_key(entries, k),
        |k: NodeID| gossip_views(entries[key_index(entries, k)].1@),
    )
}

proof fn lemma_key_index(entries: Seq<(NodeID, Vec<AuctionGossip>)>, i: int)
    requires
        keys_distinct(entries),
        0 <= i < entries.len(),
    ensures
        has_key(entries, entries[i].0),
        key_index(entries, entries[i].0) == i,
        entries_map(entries).dom().contains(entries[i].0),
        entries_map(entries)[entries[i].0] == gossip_views(entries[i].1@),
{
    let j = key_index(entries, entries[i].0);
    if j < i {
        assert(entries[j].0 != entries[i].0);
    } else if i < j {
        assert(entries[i].0 != entries[j].0);
    }
}

/// The local node.
#[derive(Debug)]
pub struct KadNode {
    pub uid: NodeID,
    pub address: String,
    pub join_date: i64,
    timestamp: u64,
    last_broadcast: u64,
    validator: NodeValidator,
    rtable: Rtable,
    data_store: Vec<(NodeID, Vec<AuctionGossip>)>,
    miner: Miner,
}

impl KadNode {
    /// The values that the node stores, by key.
    pub closed spec fn spec_store(&self) -> Map<NodeID, Seq<GossipView>> {
        entries_map(self.data_store@)
    }

    /// The counter by which requests are stamped and ordered.
    pub closed spec fn spec_timestamp(&self) -> u64 {
        self.timestamp
    }

    /// The counter by which broadcasts are told apart.
    pub closed spec fn spec_last_broadcast(&self) -> u64 {
        self.last_broadcast
    }

    pub closed spec fn spec_uid(&self) -> NodeID {
        self.uid
    }

    pub closed spec fn spec_address(&self) -> Seq<char> {
        self.address@
    }

    pub closed spec fn spec_validator(&self) -> NodeValidator {
        self.validator
    }

    pub closed spec fn spec_rtable(&self) -> Rtable {
        self.rtable
    }

    pub closed spec fn spec_miner(&self) -> Miner {
        self.miner
    }

    /// Everything but the miner is the same in both nodes.
    pub open spec fn same_but_miner(&self, other: &KadNode) -> bool {
        &&& self.spec_rtable() == other.spec_rtable()
        &&& self.spec_store() == other.spec_store()
        &&& self.spec_timestamp() == other.spec_timestamp()
        &&& self.spec_last_broadcast() == other.spec_last_broadcast()
        &&& self.spec_validator() == other.spec_validator()
        &&& self.spec_uid() == other.spec_uid()
        &&& self.spec_address() == other.spec_address()
        &&& self.wf() == other.wf()
    }

    /// The routing table is well formed and the store holds each key once.
    pub closed spec fn wf(&self) -> bool {
        self.rtable.wf() && keys_distinct(self.data_store@)
    }

    /// A node with the identity `validator` that listens on `addr`: an
    /// empty routing table, an empty store, counters at zero. The join date
    /// is read from the clock.
    pub fn new(addr: String, validator: NodeValidator, miner: Miner) -> (node: KadNode)
        ensures
            node.wf(),
            node.spec_miner() == miner,
            node.spec_uid() == validator.spec_node_id(),
            node.spec_address() == addr@,
            node.spec_validator() == validator,
            node.spec_timestamp() == 0,
            node.spec_last_broadcast() == 0,
            node.spec_store() == Map::<NodeID, Seq<GossipView>>::empty(),
            contents(node.spec_rtable()@).len() == 0,
    {
        let date = utc_now();
        let node = KadNode {
            uid: validator.get_nodeid(),
            address: addr,
            rtable: Rtable::new(),
            join_date: date,
            timestamp: 0,
            last_broadcast: 0,
            data_store: Vec::new(),
            validator,
            miner,
        };
        assert(node.spec_store() =~= Map::<NodeID, Seq<GossipView>>::empty());
        node
    }

    /// The contacts of the routing table that are nearest to `id`.
    pub fn lookup(&self, id: NodeID) -> (closest: Vec<Contact>)
        requires
            self.wf(),
        ensures
            nearest_of(
                views(closest@),
                contents(self.spec_rtable()@),
                id,
                K_MAX_ENTRIES as int,
            ),
    {
        self.rtable.lookup(id)
    }

    /// This node as a contact that others may keep.
    pub fn as_contact(&self) -> (contact: Contact)
        ensures
            contact@ == (ContactView {
                uid: self.spec_uid(),
                address: self.spec_address(),
                last_seen: LastSeen::Never,
                pub_key: self.spec_validator().spec_pub_key(),
            }),
    {
        Contact::new(self.uid, self.address.clone(), self.validator.get_pubkey())
    }

    /// The contact that has to be pinged before `uid` is offered to the
    /// routing table, if there is one.
    pub fn ping_candidate(&self, uid: &NodeID) -> (head: Option<Contact>)
        requires
            self.wf(),
        ensures
            match head {
                Some(c) => ping_target(
                    self.spec_rtable()@,
                    *uid,
                    self.spec_validator().spec_node_id(),
                    0,
                ) == Some(c@),
                None => ping_target(
                    self.spec_rtable()@,
                    *uid,
                    self.spec_validator().spec_node_id(),
                    0,
                ) is None,
            },
    {
        self.rtable.ping_candidate(uid, &self.validator)
    }

    /// Offers a contact to the routing table at time `now`.
    pub fn insert_at(&mut self, contact: Contact, head_alive: bool, now: i64)
        requires
            old(self).wf(),
        ensures
            final(self).wf(),
            final(self).spec_rtable()@ == trie_insert(
                old(self).spec_rtable()@,
                contact@,
                old(self).spec_validator().spec_node_id(),
                0,
                head_alive,
                now,
            ),
            final(self).spec_store() == old(self).spec_store(),
            final(self).spec_timestamp() == old(self).spec_timestamp(),
            final(self).spec_last_broadcast() == old(self).spec_last_broadcast(),
            final(self).spec_validator() == old(self).spec_validator(),
            final(self).spec_uid() == old(self).spec_uid(),
            final(self).spec_address() == old(self).spec_address(),
            final(self).spec_miner() == old(self).spec_miner(),
    {
        self.rtable.insert_at(contact, &self.validator, head_alive, now);
    }

    /// Offers a contact to the routing table, at the time the clock gives.
    pub fn insert(&mut self, contact: Contact, head_alive: bool)
        requires
            old(self).wf(),
        ensures
            final(self).wf(),
            exists|now: i64|
                final(self).spec_rtable()@ == #[trigger] trie_insert(
                    old(self).spec_rtable()@,
                    contact@,
                    old(self).spec_validator().spec_node_id(),
                    0,
                    head_alive,
                    now,
                ),
            final(self).spec_store() == old(self).spec_store(),
            final(self).spec_timestamp() == old(self).spec_timestamp(),
            final(self).spec_last_broadcast() == old(self).spec_last_broadcast(),
            final(self).spec_validator() == old(self).spec_validator(),
            final(self).spec_uid() == old(self).spec_uid(),
            final(self).spec_address() == old(self).spec_address(),
            final(self).spec_miner() == old(self).spec_miner(),
    {
        let now = utc_now();
        self.insert_at(contact, head_alive, now);
    }

    /// Whether some list of the store holds the auction of `value` at a
    /// higher price.
    fn any_outbids(&self, value: &AuctionGossip) -> (r: bool)
        requires
            self.wf(),
        ensures
            r == outbid(self.spec_store(), value@),
    {
        let mut i: usize = 0;
        while i < self.data_store.len()
            invariant
                0 <= i <= self.data_store@.len(),
                self.wf(),
                forall|m: int|
                    0 <= m < i ==> !outbid_in(
                        gossip_views((#[trigger] self.data_store@[m]).1@),
                        value@,
                    ),
            decreases self.data_store@.len() - i,
        {
            if list_outbids(&self.data_store[i].1, value) {
                proof {
                    lemma_key_index(self.data_store@, i as int);
                    let k = self.data_store@[i as int].0;
                    assert(self.spec_store().dom().contains(k) && outbid_in(
                        self.spec_store()[k],
                        value@,
                    ));
                }
                return true;
            }
            i += 1;
        }
        proof {
            if outbid(self.spec_store(), value@) {
                let k = choose|k: NodeID|
                    self.spec_store().dom().contains(k) && outbid_in(
                        #[trigger] self.spec_store()[k],
                        value@,
                    );
                let m = key_index(self.data_store@, k);
                lemma_key_index(self.data_store@, m);
                assert(!outbid_in(gossip_views(self.data_store@[m].1@), value@));
            }
        }
        false
    }

    /// Stores `value` under `key`. Where a list of the store holds the same
    /// auction at a higher price, the value is refused and nothing changes.
    /// Otherwise the value replaces what the list of `key`, and every other
    /// list that knows the auction, held of it.
    pub fn store_value(&mut self, key: NodeID, value: AuctionGossip) -> (r: Result<
        (),
        StoreRejected,
    >)
        requires
            old(self).wf(),
        ensures
            final(self).wf(),
            outbid(old(self).spec_store(), value@) ==> r is Err && final(self).spec_store() == old(self).spec_store(),
            !outbid(old(self).spec_store(), value@) ==> r is Ok && final(self).spec_store()
                == stored(old(self).spec_store(), key, value@),
            final(self).spec_rtable() == old(self).spec_rtable(),
            final(self).spec_timestamp() == old(self).spec_timestamp(),
            final(self).spec_last_broadcast() == old(self).spec_last_broadcast(),
            final(self).spec_validator() == old(self).spec_validator(),
            final(self).spec_uid() == old(self).spec_uid(),
            final(self).spec_address() == old(self).spec_address(),
            final(self).spec_miner() == old(self).spec_miner(),
    {
        if self.any_outbids(&value) {
            return Err(StoreRejected {  });
        }
        let ghost before = self.data_store@;
        let ghost v = value@;
        let mut found = false;
        let mut i: usize = 0;
        while i < self.data_store.len()
            invariant
                0 <= i <= before.len(),
                self.data_store@.len() == before.len(),
                keys_distinct(before),
                v == value@,
                self.rtable == old(self).rtable,
                self.timestamp == old(self).timestamp,
                self.last_broadcast == old(self).last_broadcast,
                self.validator == old(self).validator,
                self.uid == old(self).uid,
                self.address == old(self).address,
                self.miner == old(self).miner,
                found == (exists|m: int| 0 <= m < i && (#[trigger] before[m]).0 == key),
                forall|m: int|
                    0 <= m < before.len() ==> (#[trigger] self.data_store@[m]).0 == before[m].0,
                forall|m: int|
                    i <= m < before.len() ==> gossip_views((#[trigger] self.data_store@[m]).1@)
                        == gossip_views(before[m].1@),
                forall|m: int|
                    0 <= m < i ==> gossip_views((#[trigger] self.data_store@[m]).1@) == (if before[m].0
                        == key || holds_auction(gossip_views(before[m].1@), v.auction_id) {
                        replaced(gossip_views(before[m].1@), v)
                    } else {
                        gossip_views(before[m].1@)
                    }),
            decreases before.len() - i,
        {
            let ghost cur = self.data_store@;
            let is_key = self.data_store[i].0.same(&key);
            let knows = list_holds(&self.data_store[i].1, &value);
            if is_key || knows {
                replace_in(&mut self.data_store[i].1, value.clone());
            }
            if is_key {
                found = true;
            }
            proof {
                assert forall|m: int| 0 <= m < before.len() implies (
                #[trigger] self.data_store@[m]).0 == before[m].0 by {
                    assert(cur[m].0 == before[m].0);
                }
                assert forall|m: int| i + 1 <= m < before.len() implies gossip_views(
                    (#[trigger] self.data_store@[m]).1@,
                ) == gossip_views(before[m].1@) by {
                    assert(gossip_views(cur[m].1@) == gossip_views(before[m].1@));
                }
                assert forall|m: int| 0 <= m < i + 1 implies gossip_views(
                    (#[trigger] self.data_store@[m]).1@,
                ) == (if before[m].0 == key || holds_auction(
                    gossip_views(before[m].1@),
                    v.auction_id,
                ) {
                    replaced(gossip_views(before[m].1@), v)
                } else {
                    gossip_views(before[m].1@)
                }) by {
                    if m < i {
                        assert(gossip_views(cur[m].1@) == (if before[m].0 == key || holds_auction(
                            gossip_views(before[m].1@),
                            v.auction_id,
                        ) {
                            replaced(gossip_views(before[m].1@), v)
                        } else {
                            gossip_views(before[m].1@)
                        }));
                    } else {
                        assert(gossip_views(cur[m].1@) == gossip_views(before[m].1@));
                    }
                }
            }
            i += 1;
        }
        let ghost updated = self.data_store@;
        if !found {
            let mut list: Vec<AuctionGossip> = Vec::new();
            list.push(value);
            assert(gossip_views(list@) =~= seq![v]);
            self.data_store.push((key, list));
        }
        proof {
            let after = self.data_store@;
            assert forall|a: int, b: int| 0 <= a < b < after.len() implies (#[trigger] after[a]).0
                != (#[trigger] after[b]).0 by {
                if b < before.len() {
                    assert(after[a] == updated[a] && after[b] == updated[b]);
                    assert(updated[a].0 == before[a].0 && updated[b].0 == before[b].0);
                } else {
                    assert(after[a] == updated[a]);
                    assert(updated[a].0 == before[a].0);
                    assert(after[b].0 == key);
                }
            }
            let want = stored(entries_map(before), key, v);
            let got = entries_map(after);
            assert forall|k: NodeID| want.dom().contains(k) == got.dom().contains(k) by {
                if has_key(before, k) {
                    let m = key_index(before, k);
                    assert(after[m].0 == updated[m].0);
                    assert(updated[m].0 == before[m].0);
                }
                if has_key(after, k) {
                    let m = key_index(after, k);
                    if m < before.len() {
                        assert(after[m] == updated[m]);
                        assert(updated[m].0 == before[m].0);
                    }
                }
                if k == key {
                    if found {
                        let m = choose|m: int| 0 <= m < before.len() && (#[trigger] before[m]).0 == key;
                        assert(after[m].0 == updated[m].0);
                        assert(updated[m].0 == before[m].0);
                    } else {
                        assert(after[before.len() as int].0 == key);
                    }
                }
            }
            assert forall|k: NodeID| want.dom().contains(k) implies want[k] == got[k] by {
                let m = key_index(after, k);
                lemma_key_index(after, m);
                if m < before.len() {
                    assert(after[m] == updated[m]);
                    assert(updated[m].0 == before[m].0);
                    lemma_key_index(before, m);
                } else {
                    assert(!has_key(before, k)) by {
                        if has_key(before, k) {
                            let j = key_index(before, k);
                            assert(before[j].0 == key);
                        }
                    }
                }
            }
            assert(want =~= got);
        }
        Ok(())
    }

    /// The values stored under `key`, if the store knows the key.
    pub fn retrieve(&self, key: NodeID) -> (found: Option<Vec<AuctionGossip>>)
        requires
            self.wf(),
        ensures
            match found {
                Some(list) => self.spec_store().dom().contains(key) && gossip_views(list@)
                    == self.spec_store()[key],
                None => !self.spec_store().dom().contains(key),
            },
    {
        let mut i: usize = 0;
        while i < self.data_store.len()
            invariant
                0 <= i <= self.data_store@.len(),
                self.wf(),
                forall|m: int| 0 <= m < i ==> (#[trigger] self.data_store@[m]).0 != key,
            decreases self.data_store@.len() - i,
        {
            if self.data_store[i].0.same(&key) {
                proof {
                    lemma_key_index(self.data_store@, i as int);
                }
                let mut list: Vec<AuctionGossip> = Vec::new();
                let mut j: usize = 0;
                while j < self.data_store[i].1.len()
                    invariant
                        i < self.data_store@.len(),
                        0 <= j <= self.data_store@[i as int].1@.len(),
                        list@.len() == j,
                        forall|m: int|
                            0 <= m < j ==> list@[m]@ == self.data_store@[i as int].1@[m]@,
                    decreases self.data_store@[i as int].1@.len() - j,
                {
                    list.push(self.data_store[i].1[j].clone());
                    j += 1;
                }
                assert(gossip_views(list@) =~= gossip_views(self.data_store@[i as int].1@));
                return Some(list);
            }
            i += 1;
        }
        None
    }

    /// Keeps a transaction for the next block.
    pub fn store_transaction(&mut self, t: Data)
        ensures
            final(self).same_but_miner(old(self)),
            final(self).spec_miner().spec_transactions() == old(self).spec_miner().spec_transactions().push(t),
            final(self).spec_miner().spec_waiting() == old(self).spec_miner().spec_waiting(),
            final(self).spec_miner().spec_chain() == old(self).spec_miner().spec_chain(),
    {
        self.miner.store_transaction(t)
    }

    /// Keeps a block to be validated.
    pub fn store_block(&mut self, block: Block)
        ensures
            final(self).same_but_miner(old(self)),
            final(self).spec_miner().spec_waiting() == old(self).spec_miner().spec_waiting().push(
                block,
            ),
            final(self).spec_miner().spec_transactions() == old(self).spec_miner().spec_transactions(),
            final(self).spec_miner().spec_chain() == old(self).spec_miner().spec_chain(),
    {
        self.miner.store_block(block)
    }

    /// How many transactions wait for a block.
    pub fn pending_transactions(&self) -> (n: usize)
        ensures
            n == self.spec_miner().spec_transactions().len(),
    {
        self.miner.pending()
    }

    /// How many blocks the chain holds.
    pub fn chain_height(&self) -> (n: usize)
        ensures
            n == self.spec_miner().spec_chain().len(),
    {
        self.miner.height()
    }

    /// A copy of the chain.
    pub fn get_chain(&self) -> (chain: Chain)
        ensures
            chain.blocks@ == self.spec_miner().spec_chain(),
    {
        self.miner.get_chain()
    }

    /// Takes the block that was stored last and appends it to the chain if
    /// it is accepted behind the chain's last block.
    pub fn validate_blocks(&mut self) -> (r: Result<(), LedgerError>)
        requires
            old(self).spec_miner().spec_chain().len() > 0,
        ensures
            final(self).same_but_miner(old(self)),
            final(self).spec_miner().spec_transactions() == old(self).spec_miner().spec_transactions(),
            old(self).spec_miner().spec_waiting().len() == 0 ==> r == Err::<(), LedgerError>(
                LedgerError::NoBlock,
            ) && final(self).spec_miner().spec_waiting() == old(self).spec_miner().spec_waiting()
                && final(self).spec_miner().spec_chain() == old(self).spec_miner().spec_chain(),
            old(self).spec_miner().spec_waiting().len() > 0 ==> {
                &&& final(self).spec_miner().spec_waiting() == old(self).spec_miner().spec_waiting().drop_last()
                &&& if follows(
                    old(self).spec_miner().spec_waiting().last(),
                    old(self).spec_miner().spec_chain().last(),
                ) {
                    r == Ok::<(), LedgerError>(()) && final(self).spec_miner().spec_chain() == old(self).spec_miner().spec_chain().push(old(self).spec_miner().spec_waiting().last())
                } else {
                    r == Err::<(), LedgerError>(LedgerError::InvalidBlock) && final(self).spec_miner().spec_chain() == old(self).spec_miner().spec_chain()
                }
            },
    {
        self.miner.validate_blocks()
    }

    /// Mines a block with the transaction that was stored last, behind the
    /// chain's last block and under its number, within `attempts` draws, and
    /// hands it out to be broadcast. Without a nonce within these draws, and
    /// so without any draw, nothing changes.
    pub fn mine(&mut self, attempts: u64) -> (mined: Option<Block>)
        requires
            old(self).spec_miner().spec_transactions().len() > 0,
            old(self).spec_miner().spec_chain().len() > 0,
        ensures
            final(self).same_but_miner(old(self)),
            final(self).spec_miner().spec_waiting() == old(self).spec_miner().spec_waiting(),
            match mined {
                Some(b) => {
                    &&& final(self).spec_miner().spec_transactions() == old(
                        self,
                    ).spec_miner().spec_transactions().drop_last()
                    &&& final(self).spec_miner().spec_chain() == old(
                        self,
                    ).spec_miner().spec_chain().push(b)
                    &&& b.data == old(self).spec_miner().spec_transactions().last()
                    &&& b.id == old(self).spec_miner().spec_chain().last().id
                    &&& b.prev_hash == old(self).spec_miner().spec_chain().last().hash
                    &&& b.hash@ == block_hash(b.prev_hash@, b.data)
                    &&& work_holds(b.hash@, b.nonce)
                },
                None => final(self).spec_miner().spec_transactions() == old(
                    self,
                ).spec_miner().spec_transactions() && final(self).spec_miner().spec_chain() == old(
                    self,
                ).spec_miner().spec_chain(),
            },
            attempts == 0 ==> mined is None,
    {
        self.miner.mine(attempts)
    }

    /// Puts the last of the shortest of the chains that peers sent in the
    /// place of the chain.
    pub fn choose_chain(&mut self, chains: Vec<Vec<Block>>)
        requires
            chains@.len() > 0,
        ensures
            final(self).same_but_miner(old(self)),
            exists|i: int|
                is_last_shortest(chains@, i) && final(self).spec_miner().spec_chain() == (
                #[trigger] chains@[i])@,
            final(self).spec_miner().spec_transactions() == old(self).spec_miner().spec_transactions(),
            final(self).spec_miner().spec_waiting() == old(self).spec_miner().spec_waiting(),
    {
        self.miner.choose_chain(chains)
    }

    pub fn get_nonce(&self) -> (nonce: u64)
        ensures
            nonce == self.spec_validator().spec_nonce(),
    {
        self.validator.get_nonce()
    }

    pub fn get_pubkey(&self) -> (key: Vec<u8>)
        ensures
            key@ == self.spec_validator().spec_pub_key(),
    {
        self.validator.get_pubkey()
    }

    pub fn get_validator(&self) -> (validator: &NodeValidator)
        ensures
            *validator == self.spec_validator(),
    {
        &self.validator
    }

    pub fn get_uid(&self) -> (uid: NodeID)
        ensures
            uid == self.spec_uid(),
    {
        self.uid
    }

    pub fn get_address(&self) -> (address: String)
        ensures
            address@ == self.spec_address(),
    {
        self.address.clone()
    }

    pub fn get_last_broadcast(&self) -> (stamp: u64)
        ensures
            stamp == self.spec_last_broadcast(),
    {
        self.last_broadcast
    }

    pub fn get_timestamp(&self) -> (stamp: u64)
        ensures
            stamp == self.spec_timestamp(),
    {
        self.timestamp
    }

    /// Hands out the timestamp for the next request and moves the counter
    /// on by one, wrapping at the end of its range.
    pub fn increment(&mut self) -> (stamp: u64)
        ensures
            stamp == old(self).spec_timestamp(),
            final(self).spec_timestamp() == ticked(stamp),
            final(self).spec_last_broadcast() == old(self).spec_last_broadcast(),
            final(self).spec_store() == old(self).spec_store(),
            final(self).spec_rtable() == old(self).spec_rtable(),
            final(self).spec_validator() == old(self).spec_validator(),
            final(self).spec_uid() == old(self).spec_uid(),
            final(self).spec_address() == old(self).spec_address(),
            final(self).spec_miner() == old(self).spec_miner(),
            final(self).wf() == old(self).wf(),
    {
        let stamp = self.timestamp;
        self.timestamp = if stamp == u64::MAX {
            0
        } else {
            stamp + 1
        };
        stamp
    }

    /// Hands out the number of the next broadcast and moves the counter on
    /// by one, wrapping at the end of its range.
    pub fn increment_broadcast(&mut self) -> (stamp: u64)
        ensures
            stamp == old(self).spec_last_broadcast(),
            final(self).spec_last_broadcast() == ticked(stamp),
            final(self).spec_timestamp() == old(self).spec_timestamp(),
            final(self).spec_store() == old(self).spec_store(),
            final(self).spec_rtable() == old(self).spec_rtable(),
            final(self).spec_validator() == old(self).spec_validator(),
            final(self).spec_uid() == old(self).spec_uid(),
            final(self).spec_address() == old(self).spec_address(),
            final(self).spec_miner() == old(self).spec_miner(),
            final(self).wf() == old(self).wf(),
    {
        let stamp = self.last_broadcast;
        self.last_broadcast = if stamp == u64::MAX {
            0
        } else {
            stamp + 1
        };
        stamp
    }

    /// Lets the broadcast counter see the number `other` of a broadcast
    /// that came in, and returns the counter as it stands then: unchanged
    /// if the number is below it, and else one above the number, or at the
    /// end of its range where the number stands there.
    pub fn compare_broadcast(&mut self, other: u64) -> (now: u64)
        ensures
            now == synced(old(self).spec_last_broadcast(), other),
            final(self).spec_last_broadcast() == now,
            final(self).spec_timestamp() == old(self).spec_timestamp(),
            final(self).spec_store() == old(self).spec_store(),
            final(self).spec_rtable() == old(self).spec_rtable(),
            final(self).spec_validator() == old(self).spec_validator(),
            final(self).spec_uid() == old(self).spec_uid(),
            final(self).spec_address() == old(self).spec_address(),
            final(self).spec_miner() == old(self).spec_miner(),
            final(self).wf() == old(self).wf(),
    {
        if self.last_broadcast <= other {
            self.last_broadcast = if other == u64::MAX {
                u64::MAX
            } else {
                other + 1
            };
        }
        self.last_broadcast
    }

    /// Lets the timestamp counter see the timestamp `other` of a request
    /// that came in, and returns the counter as it stands then: unchanged
    /// if the timestamp is below it, and else one above the timestamp, or
    /// at the end of its range where the timestamp stands there.
    pub fn compare(&mut self, other: u64) -> (now: u64)
        ensures
            now == synced(old(self).spec_timestamp(), other),
            final(self).spec_timestamp() == now,
            final(self).spec_last_broadcast() == old(self).spec_last_broadcast(),
            final(self).spec_store() == old(self).spec_store(),
            final(self).spec_rtable() == old(self).spec_rtable(),
            final(self).spec_validator() == old(self).spec_validator(),
            final(self).spec_uid() == old(self).spec_uid(),
            final(self).spec_address() == old(self).spec_address(),
            final(self).spec_miner() == old(self).spec_miner(),
            final(self).wf() == old(self).wf(),
    {
        if self.timestamp <= other {
            self.timestamp = if other == u64::MAX {
                u64::MAX
            } else {
                other + 1
            };
        }
        self.timestamp
    }

    /// Handles the payload of a STORE request whose header was accepted
    /// and carried the timestamp `timestamp`. The counter sees the
    /// timestamp; the value is stored only if the timestamp is fresh, so a
    /// request that arrives late or twice leaves the store as it was. A
    /// request with the last timestamp of the range is never applied: the
    /// counter moves to the end of its range and every request after it is
    /// stale.
    pub fn handle_store(&mut self, key: NodeID, value: AuctionGossip, timestamp: u64) -> (r: (
        StoreOutcome,
        u64,
    ))
        requires
            old(self).wf(),
        ensures
            final(self).wf(),
            r.1 == synced(old(self).spec_timestamp(), timestamp),
            final(self).spec_timestamp() == r.1,
            r.0 == store_outcome(
                old(self).spec_store(),
                old(self).spec_timestamp(),
                value@,
                timestamp,
            ),
            final(self).spec_store() == store_after(
                old(self).spec_store(),
                old(self).spec_timestamp(),
                key,
                value@,
                timestamp,
            ),
            final(self).spec_rtable() == old(self).spec_rtable(),
            final(self).spec_last_broadcast() == old(self).spec_last_broadcast(),
            final(self).spec_validator() == old(self).spec_validator(),
            final(self).spec_uid() == old(self).spec_uid(),
            final(self).spec_address() == old(self).spec_address(),
            final(self).spec_miner() == old(self).spec_miner(),
    {
        let fresh = self.timestamp <= timestamp && timestamp < u64::MAX;
        let now = self.compare(timestamp);
        if !fresh {
            return (StoreOutcome::Stale, now);
        }
        match self.store_value(key, value) {
            Ok(()) => (StoreOutcome::Applied, now),
            Err(_) => (StoreOutcome::Rejected, now),
        }
    }
}

} // verus!
