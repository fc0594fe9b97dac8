//! The values that the store keeps: announcements of auctions.

use vstd::prelude::*;
use vstd::utf8::encode_utf8;
use crate::crypto::{append_bytes, sha256, sha256_digest};
use crate::key::{h256_from_slice, NodeID};
use crate::ledger::{same_hash, Data};
use crate::node::utc_now_text;

verus! {

/// Whether an auction still takes bids.
#[allow(non_camel_case_types)]
#[derive(Debug, Copy, Clone, PartialEq, Eq, Structural)]
pub enum AuctionState {
    ONGOING,
    FINISHED,
}

/// A bid that does not beat the price that stands.
#[derive(Debug, Copy, Clone, PartialEq, Eq, Structural)]
pub struct BidTooLow {}

/// What an announcement is, as a mathematical value.
pub struct GossipView {
    pub auction_id: Seq<u8>,
    pub title: Seq<char>,
    pub seller: NodeID,
    pub buyer: NodeID,
    pub current_price: u32,
    pub state: AuctionState,
}

/// The announcement of an auction as peers pass it on. Two announcements
/// speak of the same auction when their auction identifiers are equal. The
/// price is a whole number by which bids are ordered.
#[derive(Debug)]
pub struct AuctionGossip {
    auction_id: [u8; 32],
    title: String,
    seller: NodeID,
    buyer: NodeID,
    current_price: u32,
    state: AuctionState,
}

impl View for AuctionGossip {
    type V = GossipView;

    closed spec fn view(&self) -> GossipView {
        GossipView {
            auction_id: self.auction_id@,
            title: self.title@,
            seller: self.seller,
            buyer: self.buyer,
            current_price: self.current_price,
            state: self.state,
        }
    }
}

impl Clone for AuctionGossip {
    fn clone(&self) -> (copy: AuctionGossip)
        ensures
            copy@ == self@,
    {
        AuctionGossip {
            auction_id: self.auction_id,
            title: self.title.clone(),
            seller: self.seller,
            buyer: self.buyer,
            current_price: self.current_price,
            state: self.state,
        }
    }
}

impl AuctionGossip {
    pub fn new(
        auction_id: [u8; 32],
        title: String,
        buyer: NodeID,
        current_price: u32,
        state: AuctionState,
        seller: NodeID,
    ) -> (gossip: AuctionGossip)
        ensures
            gossip@ == (GossipView {
                auction_id: auction_id@,
                title: title@,
                seller,
                buyer,
                current_price,
                state,
            }),
    {
        AuctionGossip { auction_id, state, title, buyer, seller, current_price }
    }

    pub fn get_title(&self) -> (title: String)
        ensures
            title@ == self@.title,
    {
        self.title.clone()
    }

    pub fn get_seller(&self) -> (seller: NodeID)
        ensures
            seller == self@.seller,
    {
        self.seller
    }

    pub fn get_price(&self) -> (price: u32)
        ensures
            price == self@.current_price,
    {
        self.current_price
    }

    pub fn get_auction_id(&self) -> (id: [u8; 32])
        ensures
            id@ == self@.auction_id,
    {
        self.auction_id
    }

    pub fn get_buyer(&self) -> (buyer: NodeID)
        ensures
            buyer == self@.buyer,
    {
        self.buyer
    }

    /// Whether the auction still takes bids.
    pub fn get_bool_state(&self) -> (ongoing: bool)
        ensures
            ongoing == (self@.state == AuctionState::ONGOING),
    {
        match self.state {
            AuctionState::ONGOING => true,
            AuctionState::FINISHED => false,
        }
    }

    /// Whether both announcements speak of the same auction.
    pub fn same_auction(&self, other: &AuctionGossip) -> (same: bool)
        ensures
            same == (self@.auction_id == other@.auction_id),
    {
        let mut i: usize = 0;
        while i < 32
            invariant
                0 <= i <= 32,
                forall|m: int| 0 <= m < i ==> self.auction_id@[m] == other.auction_id@[m],
            decreases 32 - i,
        {
            if self.auction_id[i] != other.auction_id[i] {
                return false;
            }
            i += 1;
        }
        assert(self.auction_id@ =~= other.auction_id@);
        true
    }

    /// Places a bid. A bid that is higher than the price that stands
    /// becomes the price, and `buyer` the buyer; any other bid is refused
    /// and changes nothing.
    pub fn bid(&mut self, bid_amout: u32, buyer: NodeID) -> (r: Result<AuctionGossip, BidTooLow>)
        ensures
            old(self)@.current_price >= bid_amout ==> r is Err && final(self)@ == old(self)@,
            old(self)@.current_price < bid_amout ==> r is Ok && r->Ok_0@ == final(self)@
                && final(self)@ == (GossipView {
                current_price: bid_amout,
                buyer: buyer,
                ..old(self)@
            }),
    {
        if self.current_price >= bid_amout {
            Err(BidTooLow {  })
        } else {
            self.current_price = bid_amout;
            self.buyer = buyer;
            Ok(self.clone())
        }
    }
}

/// What is known of an auction besides its identifier and state. Prices
/// are whole numbers by which bids are ordered; the time that remains is
/// counted in hours.
#[derive(Debug, Clone)]
pub struct AuctionInfo {
    pub title: String,
    pub seller: NodeID,
    pub initial_price: u32,
    pub current_price: u32,
    pub highest_bidder: Option<NodeID>,
    pub starting_time: i64,
    pub time_remaining: i64,
}

impl AuctionInfo {
    pub fn new(
        title: String,
        seller: NodeID,
        starting_time: i64,
        initial_price: u32,
        time: i64,
    ) -> (info: AuctionInfo)
        ensures
            info.title == title,
            info.seller == seller,
            info.initial_price == initial_price,
            info.current_price == initial_price,
            info.highest_bidder is None,
            info.starting_time == starting_time,
            info.time_remaining == time,
    {
        AuctionInfo {
            title,
            seller,
            initial_price,
            current_price: initial_price,
            highest_bidder: None,
            starting_time,
            time_remaining: time,
        }
    }

    pub fn get_title(&self) -> (title: &String)
        ensures
            *title == self.title,
    {
        &self.title
    }
}

/// An auction that the local node runs. Two auctions are the same when
/// their identifiers are.
#[derive(Debug, Clone)]
pub struct Auction {
    pub auction_id: [u8; 32],
    pub state: AuctionState,
    pub info: AuctionInfo,
}

/// What the identifier of an auction is the hash of: the title, the
/// seller, and the starting time as text.
pub open spec fn auction_id_input(title: Seq<char>, seller: NodeID, start: Seq<char>) -> Seq<u8> {
    encode_utf8(title) + seller@ + encode_utf8(start)
}

/// The identifier of the auction with the given title, seller and starting
/// time.
pub fn gen_auction_id(title: &str, seller: NodeID, start: &str) -> (id: [u8; 32])
    ensures
        id@ == sha256(auction_id_input(title@, seller, start@)),
{
    let mut input: Vec<u8> = Vec::new();
    append_bytes(&mut input, title.as_bytes());
    append_bytes(&mut input, seller.as_bytes());
    append_bytes(&mut input, start.as_bytes());
    assert(input@ =~= auction_id_input(title@, seller, start@));
    let digest = sha256_digest(input.as_slice());
    h256_from_slice(digest.as_slice())
}

impl Auction {
    /// An auction of `seller` that starts at `starting_time`, which reads
    /// `start_text` as text, runs for `duration` hours and opens at
    /// `initial_value`.
    pub fn new_at(
        title: String,
        seller: NodeID,
        duration: i64,
        initial_value: u32,
        starting_time: i64,
        start_text: &str,
    ) -> (auction: Auction)
        ensures
            auction.auction_id@ == sha256(auction_id_input(title@, seller, start_text@)),
            auction.state == AuctionState::ONGOING,
            auction.info.title@ == title@,
            auction.info.seller == seller,
            auction.info.initial_price == initial_value,
            auction.info.current_price == initial_value,
            auction.info.highest_bidder is None,
            auction.info.starting_time == starting_time,
            auction.info.time_remaining == duration,
    {
        let auction_id = gen_auction_id(title.as_str(), seller, start_text);
        let info = AuctionInfo::new(title, seller, starting_time, initial_value, duration);
        Auction { auction_id, state: AuctionState::ONGOING, info }
    }

    /// An auction of `seller` that starts now, by the clock.
    pub fn new(title: String, seller: NodeID, duration: i64, initial_value: u32) -> (auction:
        Auction)
        ensures
            exists|start: Seq<char>|
                auction.auction_id@ == sha256(#[trigger] auction_id_input(title@, seller, start)),
            auction.state == AuctionState::ONGOING,
            auction.info.title@ == title@,
            auction.info.seller == seller,
            auction.info.initial_price == initial_value,
            auction.info.current_price == initial_value,
            auction.info.highest_bidder is None,
            auction.info.time_remaining == duration,
    {
        let (starting_time, start_text) = utc_now_text();
        Auction::new_at(title, seller, duration, initial_value, starting_time, start_text.as_str())
    }

    pub fn get_auction_id(&self) -> (id: [u8; 32])
        ensures
            id == self.auction_id,
    {
        self.auction_id
    }

    /// The announcement of this auction.
    pub fn to_gossip(&self) -> (gossip: AuctionGossip)
        ensures
            gossip@ == (GossipView {
                auction_id: self.auction_id@,
                title: self.info.title@,
                seller: self.info.seller,
                buyer: self.info.seller,
                current_price: self.info.current_price,
                state: self.state,
            }),
    {
        AuctionGossip::from_auction(self)
    }
}

impl AuctionGossip {
    /// The announcement of an auction: until somebody bids, the seller
    /// stands as the buyer.
    pub fn from_auction(auction: &Auction) -> (gossip: AuctionGossip)
        ensures
            gossip@ == (GossipView {
                auction_id: auction.auction_id@,
                title: auction.info.title@,
                seller: auction.info.seller,
                buyer: auction.info.seller,
                current_price: auction.info.current_price,
                state: auction.state,
            }),
    {
        AuctionGossip {
            auction_id: auction.auction_id,
            title: auction.info.get_title().clone(),
            seller: auction.info.seller,
            buyer: auction.info.seller,
            current_price: auction.info.current_price,
            state: auction.state,
        }
    }
}

/// The views of a list of announcements.
pub open spec fn gossip_views(s: Seq<AuctionGossip>) -> Seq<GossipView> {
    Seq::new(s.len(), |i: int| s[i]@)
}

/// The list holds an announcement of the auction `id`.
pub open spec fn holds_auction(list: Seq<GossipView>, id: Seq<u8>) -> bool {
    exists|i: int| 0 <= i < list.len() && (#[trigger] list[i]).auction_id == id
}

/// The list holds an announcement of the auction of `v` at a higher price.
pub open spec fn outbid_in(list: Seq<GossipView>, v: GossipView) -> bool {
    exists|i: int|
        0 <= i < list.len() && (#[trigger] list[i]).auction_id == v.auction_id
            && list[i].current_price > v.current_price
}

/// The list without the announcements of the auction `id`.
pub open spec fn without_auction(list: Seq<GossipView>, id: Seq<u8>) -> Seq<GossipView>
    decreases list.len(),
{
    if list.len() == 0 {
        list
    } else {
        let rest = without_auction(list.drop_last(), id);
        if list.last().auction_id == id {
            rest
        } else {
            rest.push(list.last())
        }
    }
}

/// The list after `v` took the place of what it held of the same auction:
/// `v` stands last.
pub open spec fn replaced(list: Seq<GossipView>, v: GossipView) -> Seq<GossipView> {
    without_auction(list, v.auction_id).push(v)
}

/// Whether a list holds an announcement of the auction of `value`.
pub fn list_holds(list: &Vec<AuctionGossip>, value: &AuctionGossip) -> (r: bool)
    ensures
        r == holds_auction(gossip_views(list@), value@.auction_id),
{
    let mut i: usize = 0;
    while i < list.len()
        invariant
            0 <= i <= list@.len(),
            forall|m: int|
                0 <= m < i ==> (#[trigger] gossip_views(list@)[m]).auction_id
                    != value@.auction_id,
        decreases list@.len() - i,
    {
        if list[i].same_auction(value) {
            assert(gossip_views(list@)[i as int].auction_id == value@.auction_id);
            return true;
        }
        i += 1;
    }
    false
}

/// Whether a list holds the auction of `value` at a higher price.
pub fn list_outbids(list: &Vec<AuctionGossip>, value: &AuctionGossip) -> (r: bool)
    ensures
        r == outbid_in(gossip_views(list@), value@),
{
    let mut i: usize = 0;
    while i < list.len()
        invariant
            0 <= i <= list@.len(),
            forall|m: int|
                0 <= m < i ==> !((#[trigger] gossip_views(list@)[m]).auction_id
                    == value@.auction_id && gossip_views(list@)[m].current_price
                    > value@.current_price),
        decreases list@.len() - i,
    {
        if list[i].same_auction(value) && list[i].get_price() > value.get_price() {
            assert(gossip_views(list@)[i as int].auction_id == value@.auction_id);
            return true;
        }
        i += 1;
    }
    false
}

/// Puts `value` in the place of what the list holds of its auction.
pub fn replace_in(list: &mut Vec<AuctionGossip>, value: AuctionGossip)
    ensures
        gossip_views(final(list)@) == replaced(gossip_views(old(list)@), value@),
{
    let ghost before = gossip_views(list@);
    let ghost id = value@.auction_id;
    let mut kept: Vec<AuctionGossip> = Vec::new();
    let mut i: usize = 0;
    assert(before.take(0) =~= Seq::<GossipView>::empty());
    assert(gossip_views(kept@) =~= Seq::<GossipView>::empty());
    while i < list.len()
        invariant
            0 <= i <= list@.len(),
            before == gossip_views(list@),
            id == value@.auction_id,
            gossip_views(kept@) == without_auction(before.take(i as int), id),
        decreases list@.len() - i,
    {
        let ghost so_far = gossip_views(kept@);
        proof {
            assert(before.take(i + 1).drop_last() =~= before.take(i as int));
            assert(before.take(i + 1).last() == before[i as int]);
        }
        if !list[i].same_auction(&value) {
            let copy = list[i].clone();
            kept.push(copy);
            assert(gossip_views(kept@) =~= so_far.push(before[i as int]));
        }
        i += 1;
    }
    assert(before.take(i as int) =~= before);
    let ghost stay = gossip_views(kept@);
    kept.push(value);
    assert(gossip_views(kept@) =~= stay.push(value@));
    *list = kept;
}

/// Where in `s` the first announcement of the auction `id` stands; the
/// length of `s` where none does.
pub open spec fn first_slot(s: Seq<GossipView>, id: Seq<u8>) -> int
    decreases s.len(),
{
    if s.len() == 0 {
        0
    } else {
        let before = first_slot(s.drop_last(), id);
        if before < s.len() - 1 {
            before
        } else if s.last().auction_id == id {
            s.len() - 1
        } else {
            s.len() as int
        }
    }
}

/// The numbered announcements after `g` was recorded: it takes the place of
/// the first announcement of its auction, or the next free number.
pub open spec fn slot_insert(s: Seq<GossipView>, g: GossipView) -> Seq<GossipView> {
    let at = first_slot(s, g.auction_id);
    if at < s.len() {
        s.update(at, g)
    } else {
        s.push(g)
    }
}

/// The numbered announcements after those of `found` were recorded one
/// after the other.
pub open spec fn recorded(s: Seq<GossipView>, found: Seq<GossipView>) -> Seq<GossipView>
    decreases found.len(),
{
    if found.len() == 0 {
        s
    } else {
        slot_insert(recorded(s, found.drop_last()), found.last())
    }
}

/// The announcements of `aucts` whose auction `list` holds, in their
/// order.
pub open spec fn held_of(aucts: Seq<GossipView>, list: Seq<GossipView>) -> Seq<GossipView>
    decreases aucts.len(),
{
    if aucts.len() == 0 {
        aucts
    } else {
        let rest = held_of(aucts.drop_last(), list);
        if holds_auction(list, aucts.last().auction_id) {
            rest.push(aucts.last())
        } else {
            rest
        }
    }
}

/// The views of what is followed, key by key.
pub open spec fn followed_views(s: Seq<(NodeID, Vec<AuctionGossip>)>) -> Seq<
    (NodeID, Seq<GossipView>),
> {
    Seq::new(s.len(), |i: int| (s[i].0, gossip_views(s[i].1@)))
}

/// Where in `s` the first entry of `key` stands; the length of `s` where
/// none does.
pub open spec fn first_key(s: Seq<(NodeID, Seq<GossipView>)>, key: NodeID) -> int
    decreases s.len(),
{
    if s.len() == 0 {
        0
    } else {
        let before = first_key(s.drop_last(), key);
        if before < s.len() - 1 {
            before
        } else if s.last().0 == key {
            s.len() - 1
        } else {
            s.len() as int
        }
    }
}

/// What is followed after `v` was followed under `key`: `v` takes the place
/// of what the first entry of `key` held of its auction; a key that is new
/// gets an entry of its own.
pub open spec fn subscribed(s: Seq<(NodeID, Seq<GossipView>)>, key: NodeID, v: GossipView) -> Seq<
    (NodeID, Seq<GossipView>),
> {
    let at = first_key(s, key);
    if at < s.len() {
        s.update(at, (key, replaced(s[at].1, v)))
    } else {
        s.push((key, seq![v]))
    }
}

/// Once an auction is found at `at`, longer prefixes find it there too.
proof fn lemma_first_slot_grows(s: Seq<GossipView>, id: Seq<u8>, at: int, n: int)
    requires
        0 <= at < n <= s.len(),
        first_slot(s.take(at + 1), id) == at,
    ensures
        first_slot(s.take(n), id) == at,
    decreases n,
{
    if n > at + 1 {
        lemma_first_slot_grows(s, id, at, n - 1);
        assert(s.take(n).drop_last() =~= s.take(n - 1));
    }
}

/// Once a key is found at `at`, longer prefixes find it there too.
proof fn lemma_first_key_grows(s: Seq<(NodeID, Seq<GossipView>)>, key: NodeID, at: int, n: int)
    requires
        0 <= at < n <= s.len(),
        first_key(s.take(at + 1), key) == at,
    ensures
        first_key(s.take(n), key) == at,
    decreases n,
{
    if n > at + 1 {
        lemma_first_key_grows(s, key, at, n - 1);
        assert(s.take(n).drop_last() =~= s.take(n - 1));
    }
}

/// The auctions that the local node has heard of, each under a number:
/// the numbers run from 0 in the order in which the auctions came.
#[derive(Debug, Clone)]
pub struct Slotmap {
    slots: Vec<AuctionGossip>,
}

impl View for Slotmap {
    type V = Seq<GossipView>;

    closed spec fn view(&self) -> Seq<GossipView> {
        gossip_views(self.slots@)
    }
}

impl Slotmap {
    pub fn new() -> (map: Slotmap)
        ensures
            map@ == Seq::<GossipView>::empty(),
    {
        let map = Slotmap { slots: Vec::new() };
        assert(map@ =~= Seq::<GossipView>::empty());
        map
    }

    /// How many auctions are numbered.
    pub fn len(&self) -> (n: usize)
        ensures
            n == self@.len(),
    {
        self.slots.len()
    }

    /// The announcement under the number `index`.
    pub fn get(&self, index: i32) -> (slot: Option<&AuctionGossip>)
        ensures
            match slot {
                Some(g) => 0 <= index < self@.len() && g@ == self@[index as int],
                None => !(0 <= index < self@.len()),
            },
    {
        if index < 0 || index as usize >= self.slots.len() {
            None
        } else {
            Some(&self.slots[index as usize])
        }
    }

    /// The announcement under the number `index`, to be changed in place.
    pub fn get_mut(&mut self, index: i32) -> (slot: Option<&mut AuctionGossip>)
        ensures
            match slot {
                Some(g) => 0 <= index < old(self)@.len() && g@ == old(self)@[index as int]
                    && final(self)@ == old(self)@.update(index as int, final(g)@),
                None => !(0 <= index < old(self)@.len()) && final(self)@ == old(self)@,
            },
    {
        if index < 0 || index as usize >= self.slots.len() {
            None
        } else {
            let ghost before = self.slots@;
            let slot = &mut self.slots[index as usize];
            proof {
                assert(gossip_views(before.update(index as int, *final(slot))) =~= gossip_views(
                    before,
                ).update(index as int, final(slot)@));
            }
            Some(slot)
        }
    }

    /// Records an announcement and returns its number: the number of the
    /// auction where it is known, whose announcement is replaced, and the
    /// next free number where it is new.
    pub fn insert(&mut self, gossip: AuctionGossip) -> (index: i32)
        requires
            old(self)@.len() < i32::MAX,
        ensures
            index == first_slot(old(self)@, gossip@.auction_id),
            final(self)@ == slot_insert(old(self)@, gossip@),
            final(self)@.len() <= old(self)@.len() + 1,
    {
        let ghost before = self@;
        let ghost id = gossip@.auction_id;
        let mut count: usize = 0;
        assert(before.take(0) =~= Seq::<GossipView>::empty());
        while count < self.slots.len()
            invariant
                0 <= count <= self.slots@.len(),
                before == self@,
                before == old(self)@,
                id == gossip@.auction_id,
                before.len() < i32::MAX,
                first_slot(before.take(count as int), id) == count,
            decreases self.slots@.len() - count,
        {
            proof {
                assert(before.take(count + 1).drop_last() =~= before.take(count as int));
                assert(before.take(count + 1).last() == before[count as int]);
            }
            if self.slots[count].same_auction(&gossip) {
                proof {
                    lemma_first_slot_grows(before, id, count as int, before.len() as int);
                    assert(before.take(before.len() as int) =~= before);
                }
                let ghost g = gossip@;
                self.slots[count] = gossip;
                assert(self@ =~= before.update(count as int, g));
                return count as i32;
            }
            count += 1;
        }
        proof {
            assert(before.take(count as int) =~= before);
        }
        let ghost g = gossip@;
        self.slots.push(gossip);
        assert(self@ =~= before.push(g));
        count as i32
    }
}

/// The auctions of one participant: those it follows, those it runs, and
/// those it has heard of.
#[derive(Debug, Clone)]
pub struct AuctionPeer {
    subscribed_auctions: Vec<(NodeID, Vec<AuctionGossip>)>,
    my_auctions: Vec<([u8; 32], Vec<NodeID>)>,
    known_auctions: Slotmap,
}

impl AuctionPeer {
    /// The auctions that the participant has heard of, by number.
    pub closed spec fn spec_known(&self) -> Seq<GossipView> {
        self.known_auctions@
    }

    /// The identifiers of the auctions that the participant runs.
    pub closed spec fn spec_mine(&self) -> Seq<Seq<u8>> {
        Seq::new(self.my_auctions@.len(), |i: int| self.my_auctions@[i].0@)
    }

    /// The sellers that the participant follows, with the announcements
    /// that it follows of each.
    pub closed spec fn spec_subscribed(&self) -> Seq<(NodeID, Seq<GossipView>)> {
        followed_views(self.subscribed_auctions@)
    }

    pub fn new() -> (peer: AuctionPeer)
        ensures
            peer.spec_known() == Seq::<GossipView>::empty(),
            peer.spec_mine() == Seq::<Seq<u8>>::empty(),
            peer.spec_subscribed() == Seq::<(NodeID, Seq<GossipView>)>::empty(),
    {
        let peer = AuctionPeer {
            subscribed_auctions: Vec::new(),
            my_auctions: Vec::new(),
            known_auctions: Slotmap::new(),
        };
        assert(peer.spec_mine() =~= Seq::<Seq<u8>>::empty());
        assert(peer.spec_subscribed() =~= Seq::<(NodeID, Seq<GossipView>)>::empty());
        peer
    }

    /// How many auctions the participant has heard of.
    pub fn known_len(&self) -> (n: usize)
        ensures
            n == self.spec_known().len(),
    {
        self.known_auctions.len()
    }

    /// The announcement under the number `index`, if there is one.
    pub fn known(&self, index: i32) -> (slot: Option<&AuctionGossip>)
        ensures
            match slot {
                Some(g) => 0 <= index < self.spec_known().len() && g@ == self.spec_known()[index as int],
                None => !(0 <= index < self.spec_known().len()),
            },
    {
        self.known_auctions.get(index)
    }

    /// Whether the participant runs the auction `id`.
    pub fn runs(&self, id: &[u8; 32]) -> (r: bool)
        ensures
            r == self.spec_mine().contains(id@),
    {
        let mut i: usize = 0;
        while i < self.my_auctions.len()
            invariant
                0 <= i <= self.my_auctions@.len(),
                forall|m: int| 0 <= m < i ==> self.spec_mine()[m] != id@,
            decreases self.my_auctions@.len() - i,
        {
            if same_hash(&self.my_auctions[i].0, id) {
                assert(self.spec_mine()[i as int] == id@);
                return true;
            }
            i += 1;
        }
        false
    }

    /// The transaction that settles the auction under the number `index`,
    /// if the participant has heard of that auction and runs it.
    pub fn fulfill_transaction(&self, index: i32) -> (data: Option<Data>)
        ensures
            match data {
                Some(d) => {
                    &&& 0 <= index < self.spec_known().len()
                    &&& self.spec_mine().contains(self.spec_known()[index as int].auction_id)
                    &&& d.buyer == self.spec_known()[index as int].seller
                    &&& d.seller == self.spec_known()[index as int].seller
                    &&& d.amount == self.spec_known()[index as int].current_price
                    &&& d.auction_id@ == self.spec_known()[index as int].auction_id
                },
                None => !(0 <= index < self.spec_known().len()) || !self.spec_mine().contains(
                    self.spec_known()[index as int].auction_id,
                ),
            },
    {
        match self.known_auctions.get(index) {
            Some(known) => {
                let id = known.get_auction_id();
                if self.runs(&id) {
                    Some(Data::from_auction(known))
                } else {
                    None
                }
            },
            None => None,
        }
    }

    /// Opens an auction of `seller` and hands out the announcement that is
    /// to be spread. The auction counts as run by the participant, with no
    /// subscriber yet.
    pub fn new_auction(
        &mut self,
        title: String,
        seller: NodeID,
        duration: i64,
        initial_value: u32,
    ) -> (gossip: AuctionGossip)
        ensures
            final(self).spec_mine() == old(self).spec_mine().push(gossip@.auction_id),
            final(self).spec_known() == old(self).spec_known(),
            final(self).spec_subscribed() == old(self).spec_subscribed(),
            gossip@.title == title@,
            gossip@.seller == seller,
            gossip@.buyer == seller,
            gossip@.current_price == initial_value,
            gossip@.state == AuctionState::ONGOING,
    {
        let auction = Auction::new(title, seller, duration, initial_value);
        let gossip = auction.to_gossip();
        self.my_auctions.push((auction.get_auction_id(), Vec::new()));
        assert(self.spec_mine() =~= old(self).spec_mine().push(gossip@.auction_id));
        gossip
    }

    /// Records the announcements that the network returned, each under the
    /// number of its auction.
    pub fn record_available(&mut self, found: Vec<AuctionGossip>)
        requires
            old(self).spec_known().len() + found@.len() < i32::MAX,
        ensures
            final(self).spec_mine() == old(self).spec_mine(),
            final(self).spec_subscribed() == old(self).spec_subscribed(),
            final(self).spec_known() == recorded(old(self).spec_known(), gossip_views(found@)),
    {
        let ghost start = self.spec_known();
        let ghost all = gossip_views(found@);
        let mut i: usize = 0;
        assert(all.take(0) =~= Seq::<GossipView>::empty());
        while i < found.len()
            invariant
                0 <= i <= found@.len(),
                all == gossip_views(found@),
                start == old(self).spec_known(),
                self.spec_mine() == old(self).spec_mine(),
                self.spec_subscribed() == old(self).spec_subscribed(),
                self.spec_known().len() <= start.len() + i,
                start.len() + found@.len() < i32::MAX,
                self.spec_known() == recorded(start, all.take(i as int)),
            decreases found@.len() - i,
        {
            proof {
                assert(all.take(i + 1).drop_last() =~= all.take(i as int));
                assert(all.take(i + 1).last() == all[i as int]);
            }
            let _ = self.known_auctions.insert(found[i].clone());
            i += 1;
        }
        assert(all.take(i as int) =~= all);
    }

    /// Bids `bid` in the name of `bidder` on the auction under the number
    /// `index`. Where the number is known and the bid beats the price that
    /// stands, the announcement takes the bid, is followed from now on under
    /// its seller, and is handed out to be spread.
    pub fn bid_auction(&mut self, index: i32, bid: u32, bidder: NodeID) -> (bidded: Option<
        AuctionGossip,
    >)
        ensures
            final(self).spec_mine() == old(self).spec_mine(),
            match bidded {
                Some(g) => {
                    &&& 0 <= index < old(self).spec_known().len()
                    &&& old(self).spec_known()[index as int].current_price < bid
                    &&& g@ == (GossipView {
                        current_price: bid,
                        buyer: bidder,
                        ..old(self).spec_known()[index as int]
                    })
                    &&& final(self).spec_known() == old(self).spec_known().update(index as int, g@)
                    &&& final(self).spec_subscribed() == subscribed(
                        old(self).spec_subscribed(),
                        g@.seller,
                        g@,
                    )
                },
                None => {
                    &&& !(0 <= index < old(self).spec_known().len()) || old(
                        self,
                    ).spec_known()[index as int].current_price >= bid
                    &&& final(self).spec_known() == old(self).spec_known()
                    &&& final(self).spec_subscribed() == old(self).spec_subscribed()
                },
            },
    {
        let bidded = match self.known_auctions.get_mut(index) {
            Some(gossip) => match gossip.bid(bid, bidder) {
                Ok(bidded_gossip) => Some(bidded_gossip),
                Err(_) => None,
            },
            None => None,
        };
        match bidded {
            Some(g) => {
                self.insert_subscribe(g.get_seller(), g.clone());
                Some(g)
            },
            None => {
                assert(self.spec_known() =~= old(self).spec_known());
                None
            },
        }
    }

    /// Where the first entry of `key` stands among what is followed.
    fn find_key(&self, key: &NodeID) -> (at: usize)
        ensures
            at == first_key(self.spec_subscribed(), *key),
            at <= self.spec_subscribed().len(),
            self.spec_subscribed().len() == self.subscribed_auctions@.len(),
            at < self.spec_subscribed().len() ==> self.spec_subscribed()[at as int].0 == *key,
    {
        let ghost subs = self.spec_subscribed();
        let mut i: usize = 0;
        assert(subs.take(0) =~= Seq::<(NodeID, Seq<GossipView>)>::empty());
        while i < self.subscribed_auctions.len()
            invariant
                0 <= i <= self.subscribed_auctions@.len(),
                subs == self.spec_subscribed(),
                subs.len() == self.subscribed_auctions@.len(),
                first_key(subs.take(i as int), *key) == i,
            decreases self.subscribed_auctions@.len() - i,
        {
            proof {
                assert(subs.take(i + 1).drop_last() =~= subs.take(i as int));
                assert(subs.take(i + 1).last() == subs[i as int]);
            }
            if self.subscribed_auctions[i].0.same(key) {
                proof {
                    lemma_first_key_grows(subs, *key, i as int, subs.len() as int);
                    assert(subs.take(subs.len() as int) =~= subs);
                }
                return i;
            }
            i += 1;
        }
        assert(subs.take(i as int) =~= subs);
        i
    }

    /// Follows an announcement under `key`: it takes the place of what was
    /// followed of the same auction under that key.
    pub fn insert_subscribe(&mut self, key: NodeID, value: AuctionGossip)
        ensures
            final(self).spec_mine() == old(self).spec_mine(),
            final(self).spec_known() == old(self).spec_known(),
            final(self).spec_subscribed() == subscribed(old(self).spec_subscribed(), key, value@),
    {
        let ghost before = self.spec_subscribed();
        let ghost v = value@;
        let at = self.find_key(&key);
        if at < self.subscribed_auctions.len() {
            let ghost raw = self.subscribed_auctions@;
            replace_in(&mut self.subscribed_auctions[at].1, value);
            proof {
                let now = self.subscribed_auctions@;
                assert(now.len() == raw.len());
                assert(now[at as int].0 == raw[at as int].0);
                assert forall|m: int| 0 <= m < now.len() && m != at implies now[m] == raw[m] by {}
                assert(before[at as int].0 == key);
            }
            assert(self.spec_subscribed() =~= before.update(
                at as int,
                (key, replaced(before[at as int].1, v)),
            ));
        } else {
            let mut list: Vec<AuctionGossip> = Vec::new();
            list.push(value);
            assert(gossip_views(list@) =~= seq![v]);
            self.subscribed_auctions.push((key, list));
            assert(self.spec_subscribed() =~= before.push((key, seq![v])));
        }
        assert(self.spec_mine() =~= old(self).spec_mine());
    }

    /// The keys under which the participant follows announcements, in the
    /// order in which it began to follow them.
    pub fn followed_keys(&self) -> (keys: Vec<NodeID>)
        ensures
            keys@.len() == self.spec_subscribed().len(),
            forall|i: int| 0 <= i < keys@.len() ==> keys@[i] == self.spec_subscribed()[i].0,
    {
        let mut keys: Vec<NodeID> = Vec::new();
        let mut i: usize = 0;
        while i < self.subscribed_auctions.len()
            invariant
                0 <= i <= self.subscribed_auctions@.len(),
                keys@.len() == i,
                forall|m: int| 0 <= m < i ==> keys@[m] == self.subscribed_auctions@[m].0,
            decreases self.subscribed_auctions@.len() - i,
        {
            keys.push(self.subscribed_auctions[i].0);
            i += 1;
        }
        keys
    }

    /// Of the announcements that the network holds under `key`, those of
    /// auctions that the participant follows under that key.
    pub fn interesting(&self, key: NodeID, aucts: &Vec<AuctionGossip>) -> (kept: Vec<AuctionGossip>)
        ensures
            first_key(self.spec_subscribed(), key) >= self.spec_subscribed().len() ==> kept@.len()
                == 0,
            first_key(self.spec_subscribed(), key) < self.spec_subscribed().len() ==> gossip_views(
                kept@,
            ) == held_of(
                gossip_views(aucts@),
                self.spec_subscribed()[first_key(self.spec_subscribed(), key)].1,
            ),
    {
        let mut kept: Vec<AuctionGossip> = Vec::new();
        let at = self.find_key(&key);
        if at >= self.subscribed_auctions.len() {
            return kept;
        }
        let ghost all = gossip_views(aucts@);
        let ghost list = self.spec_subscribed()[at as int].1;
        let mut a: usize = 0;
        assert(all.take(0) =~= Seq::<GossipView>::empty());
        assert(gossip_views(kept@) =~= Seq::<GossipView>::empty());
        while a < aucts.len()
            invariant
                0 <= a <= aucts@.len(),
                at < self.subscribed_auctions@.len(),
                all == gossip_views(aucts@),
                list == gossip_views(self.subscribed_auctions@[at as int].1@),
                gossip_views(kept@) == held_of(all.take(a as int), list),
            decreases aucts@.len() - a,
        {
            let ghost so_far = gossip_views(kept@);
            proof {
                assert(all.take(a + 1).drop_last() =~= all.take(a as int));
                assert(all.take(a + 1).last() == all[a as int]);
            }
            if list_holds(&self.subscribed_auctions[at].1, &aucts[a]) {
                let copy = aucts[a].clone();
                kept.push(copy);
                assert(gossip_views(kept@) =~= so_far.push(all[a as int]));
            }
            a += 1;
        }
        assert(all.take(a as int) =~= all);
        kept
    }
}

} // verus!
