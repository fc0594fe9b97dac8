use kad_dht::auction::{
    gen_auction_id, list_holds, list_outbids, replace_in, Auction, AuctionGossip, AuctionInfo,
    AuctionPeer, AuctionState, Slotmap,
};
use kad_dht::key::NodeID;
use sha2::{Digest, Sha256};

fn auction_node(first: u8) -> NodeID {
    let mut bytes = [0u8; 32];
    bytes[0] = first;
    NodeID(bytes)
}

fn notice(auction: u8, price: u32) -> AuctionGossip {
    AuctionGossip::new(
        [auction; 32],
        format!("lot {}", auction),
        auction_node(1),
        price,
        AuctionState::ONGOING,
        auction_node(2),
    )
}

fn summary(list: &[AuctionGossip]) -> Vec<(u8, u32)> {
    list.iter().map(|g| (g.get_auction_id()[0], g.get_price())).collect()
}

#[test]
fn auction_id_is_the_hash_of_title_seller_and_start() {
    let seller = auction_node(9);
    let mut hasher = Sha256::new();
    hasher.update(b"chair");
    hasher.update(seller.0);
    hasher.update(b"2024-01-01 00:00:00 UTC");
    let expected = hasher.finalize().to_vec();
    assert_eq!(gen_auction_id("chair", seller, "2024-01-01 00:00:00 UTC").to_vec(), expected);
    assert_ne!(gen_auction_id("chair", seller, "2024-01-01 00:00:01 UTC").to_vec(), expected);
}

#[test]
fn auction_starts_ongoing_at_the_initial_price() {
    let seller = auction_node(9);
    let a = Auction::new_at("chair".to_string(), seller, 24, 150, 1_700_000_000, "then");
    assert_eq!(a.get_auction_id(), gen_auction_id("chair", seller, "then"));
    assert_eq!(a.state, AuctionState::ONGOING);
    assert_eq!(a.info.get_title(), "chair");
    assert_eq!(a.info.seller, seller);
    assert_eq!(a.info.initial_price, 150);
    assert_eq!(a.info.current_price, 150);
    assert_eq!(a.info.highest_bidder, None);
    assert_eq!(a.info.starting_time, 1_700_000_000);
    assert_eq!(a.info.time_remaining, 24);
    let g = a.to_gossip();
    assert_eq!(g.get_auction_id(), a.auction_id);
    assert_eq!(g.get_title(), "chair");
    assert_eq!(g.get_seller(), seller);
    assert_eq!(g.get_buyer(), seller);
    assert_eq!(g.get_price(), 150);
    assert!(g.get_bool_state());
    let h = AuctionGossip::from_auction(&a);
    assert!(h.same_auction(&g));
    let info = AuctionInfo::new("t".to_string(), seller, 5, 6, 7);
    assert_eq!(info.current_price, 6);
}

#[test]
fn auction_by_the_clock_differs_by_title() {
    let seller = auction_node(9);
    let a = Auction::new("chair".to_string(), seller, 24, 150);
    let b = Auction::new("table".to_string(), seller, 24, 150);
    assert_ne!(a.auction_id, b.auction_id);
    assert!(a.info.starting_time > 1_500_000_000);
}

#[test]
fn list_helpers() {
    let mut list = vec![notice(1, 10), notice(2, 20)];
    assert!(list_holds(&list, &notice(2, 0)));
    assert!(!list_holds(&list, &notice(3, 0)));
    assert!(list_outbids(&list, &notice(2, 19)));
    assert!(!list_outbids(&list, &notice(2, 20)));
    assert!(!list_outbids(&list, &notice(3, 0)));
    replace_in(&mut list, notice(1, 11));
    assert_eq!(summary(&list), vec![(2, 20), (1, 11)]);
    replace_in(&mut list, notice(3, 5));
    assert_eq!(summary(&list), vec![(2, 20), (1, 11), (3, 5)]);
}

#[test]
fn slotmap_numbers_auctions_in_order() {
    let mut map = Slotmap::new();
    assert_eq!(map.len(), 0);
    assert!(map.get(0).is_none());
    assert!(map.get(-1).is_none());
    assert_eq!(map.insert(notice(5, 1)), 0);
    assert_eq!(map.insert(notice(6, 1)), 1);
    assert_eq!(map.insert(notice(5, 9)), 0);
    assert_eq!(map.insert(notice(7, 1)), 2);
    assert_eq!(map.len(), 3);
    assert_eq!(map.get(0).unwrap().get_price(), 9);
    assert_eq!(map.get(1).unwrap().get_auction_id(), [6u8; 32]);
    assert!(map.get(3).is_none());
    map.get_mut(1).unwrap().bid(50, auction_node(4)).unwrap();
    assert_eq!(map.get(1).unwrap().get_price(), 50);
    assert!(map.get_mut(3).is_none());
    assert!(map.get_mut(-1).is_none());
}

#[test]
fn peer_records_and_bids() {
    let mut peer = AuctionPeer::new();
    peer.record_available(vec![notice(1, 10), notice(2, 20), notice(1, 15)]);
    assert!(peer.bid_auction(5, 100, auction_node(7)).is_none());
    assert!(peer.bid_auction(0, 15, auction_node(7)).is_none());
    let bidded = peer.bid_auction(0, 16, auction_node(7)).expect("a bid");
    assert_eq!(bidded.get_price(), 16);
    assert_eq!(bidded.get_buyer(), auction_node(7));
    assert_eq!(bidded.get_auction_id(), [1u8; 32]);
    let found = vec![notice(1, 99), notice(2, 98)];
    let kept = peer.interesting(auction_node(2), &found);
    assert_eq!(summary(&kept), vec![(1, 99)]);
    assert!(peer.interesting(auction_node(3), &found).is_empty());
    peer.insert_subscribe(auction_node(2), notice(2, 1));
    peer.insert_subscribe(auction_node(2), notice(1, 1));
    assert_eq!(summary(&peer.interesting(auction_node(2), &found)), vec![(1, 99), (2, 98)]);
    peer.insert_subscribe(auction_node(5), notice(9, 1));
    assert_eq!(peer.followed_keys(), vec![auction_node(2), auction_node(5)]);
    assert_eq!(peer.known_len(), 2);
    assert_eq!(peer.known(1).unwrap().get_price(), 20);
}

#[test]
fn peer_settles_only_its_own_auctions() {
    let mut peer = AuctionPeer::new();
    let seller = auction_node(9);
    let mine = peer.new_auction("chair".to_string(), seller, 24, 150);
    assert_eq!(mine.get_seller(), seller);
    assert_eq!(mine.get_price(), 150);
    assert!(peer.runs(&mine.get_auction_id()));
    assert!(!peer.runs(&[1u8; 32]));
    peer.record_available(vec![notice(1, 10), mine.clone()]);
    assert!(peer.fulfill_transaction(0).is_none());
    assert!(peer.fulfill_transaction(2).is_none());
    assert!(peer.fulfill_transaction(-1).is_none());
    let data = peer.fulfill_transaction(1).expect("a transaction");
    assert_eq!(data.seller, seller);
    assert_eq!(data.buyer, seller);
    assert_eq!(data.amount, 150);
    assert_eq!(data.auction_id, mine.get_auction_id());
}
