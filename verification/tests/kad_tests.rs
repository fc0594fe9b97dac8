use kad_dht::auction::{AuctionGossip, AuctionState, BidTooLow};
use kad_dht::kad::{KadNode, StoreOutcome, StoreRejected};
use kad_dht::key::{NodeID, NodeValidator};
use kad_dht::ledger::{Block, Chain, Data, LedgerError, Miner};
use kad_dht::node::Contact;
use kad_dht::util::{encode_fvalue, encode_store, format_address, gen_cookie};

fn kad_id(first: u8) -> NodeID {
    let mut bytes = [0u8; 32];
    bytes[0] = first;
    NodeID(bytes)
}

fn gossip(auction: u8, price: u32) -> AuctionGossip {
    AuctionGossip::new(
        [auction; 32],
        format!("lot {}", auction),
        kad_id(1),
        price,
        AuctionState::ONGOING,
        kad_id(2),
    )
}

fn new_node() -> KadNode {
    let validator = NodeValidator::from_parts(kad_id(0x80), vec![4, 5], vec![], 9);
    let miner = Miner::new(1_000_000).expect("a genesis block");
    KadNode::new("127.0.0.1:5000".to_string(), validator, miner)
}

fn prices(list: &[AuctionGossip]) -> Vec<(u8, u32)> {
    list.iter().map(|g| (g.get_auction_id()[0], g.get_price())).collect()
}

#[test]
fn new_node_is_empty() {
    let node = new_node();
    assert_eq!(node.get_uid(), kad_id(0x80));
    assert_eq!(node.uid, kad_id(0x80));
    assert_eq!(node.address, "127.0.0.1:5000");
    assert!(node.join_date > 1_500_000_000);
    assert_eq!(node.get_timestamp(), 0);
    assert_eq!(node.get_nonce(), 9);
    assert_eq!(node.get_pubkey(), vec![4, 5]);
    assert_eq!(node.get_validator().get_nodeid(), kad_id(0x80));
    assert!(node.retrieve(kad_id(1)).is_none());
    assert!(node.lookup(kad_id(1)).is_empty());
}

#[test]
fn node_is_its_own_contact() {
    let node = new_node();
    let me = node.as_contact();
    assert_eq!(me.uid, kad_id(0x80));
    assert_eq!(me.address, "127.0.0.1:5000");
    assert_eq!(me.get_pubkey(), &[4u8, 5][..]);
    assert_eq!(node.get_address(), "127.0.0.1:5000");
    assert_eq!(node.pending_transactions(), 0);
    assert_eq!(node.chain_height(), 1);
}

#[test]
fn node_inserts_and_looks_up() {
    let mut node = new_node();
    node.insert_at(Contact::new(kad_id(3), "a".to_string(), vec![]), true, 5);
    node.insert(Contact::new(kad_id(1), "b".to_string(), vec![]), true);
    let found = node.lookup(kad_id(0));
    assert_eq!(found.len(), 2);
    assert_eq!(found[0].uid, kad_id(1));
    assert_eq!(found[1].uid, kad_id(3));
    assert!(node.ping_candidate(&kad_id(7)).is_none());
}

#[test]
fn store_and_retrieve() {
    let mut node = new_node();
    assert_eq!(node.store_value(kad_id(1), gossip(7, 100)), Ok(()));
    assert_eq!(node.store_value(kad_id(1), gossip(8, 50)), Ok(()));
    let list = node.retrieve(kad_id(1)).expect("a list");
    assert_eq!(prices(&list), vec![(7, 100), (8, 50)]);
    assert!(node.retrieve(kad_id(2)).is_none());
}

#[test]
fn store_replaces_the_same_auction() {
    let mut node = new_node();
    node.store_value(kad_id(1), gossip(7, 100)).unwrap();
    node.store_value(kad_id(1), gossip(8, 50)).unwrap();
    node.store_value(kad_id(2), gossip(7, 100)).unwrap();
    assert_eq!(node.store_value(kad_id(3), gossip(7, 120)), Ok(()));
    assert_eq!(prices(&node.retrieve(kad_id(1)).unwrap()), vec![(8, 50), (7, 120)]);
    assert_eq!(prices(&node.retrieve(kad_id(2)).unwrap()), vec![(7, 120)]);
    assert_eq!(prices(&node.retrieve(kad_id(3)).unwrap()), vec![(7, 120)]);
    assert_eq!(node.store_value(kad_id(1), gossip(7, 120)), Ok(()));
    assert_eq!(prices(&node.retrieve(kad_id(1)).unwrap()), vec![(8, 50), (7, 120)]);
}

#[test]
fn store_rejects_a_lower_price() {
    let mut node = new_node();
    node.store_value(kad_id(1), gossip(7, 100)).unwrap();
    assert_eq!(node.store_value(kad_id(2), gossip(7, 99)), Err(StoreRejected {}));
    assert!(node.retrieve(kad_id(2)).is_none());
    assert_eq!(prices(&node.retrieve(kad_id(1)).unwrap()), vec![(7, 100)]);
    assert_eq!(node.store_value(kad_id(2), gossip(9, 1)), Ok(()));
}

#[test]
fn stale_store_rejected() {
    let mut node = new_node();
    let t: u64 = 40;
    let (first, counter) = node.handle_store(kad_id(1), gossip(7, 100), t);
    assert_eq!(first, StoreOutcome::Applied);
    assert_eq!(counter, t + 1);
    assert_eq!(prices(&node.retrieve(kad_id(1)).unwrap()), vec![(7, 100)]);
    let (second, counter) = node.handle_store(kad_id(1), gossip(7, 500), t - 1);
    assert_eq!(second, StoreOutcome::Stale);
    assert_eq!(counter, t + 1);
    assert_eq!(prices(&node.retrieve(kad_id(1)).unwrap()), vec![(7, 100)]);
    let (again, _) = node.handle_store(kad_id(5), gossip(9, 1), t);
    assert_eq!(again, StoreOutcome::Stale);
    assert!(node.retrieve(kad_id(5)).is_none());
    let (next, counter) = node.handle_store(kad_id(1), gossip(7, 500), t + 1);
    assert_eq!(next, StoreOutcome::Applied);
    assert_eq!(counter, t + 2);
    assert_eq!(prices(&node.retrieve(kad_id(1)).unwrap()), vec![(7, 500)]);
    let (worse, counter) = node.handle_store(kad_id(1), gossip(7, 400), t + 10);
    assert_eq!(worse, StoreOutcome::Rejected);
    assert_eq!(counter, t + 11);
    assert_eq!(prices(&node.retrieve(kad_id(1)).unwrap()), vec![(7, 500)]);
}

#[test]
fn the_last_timestamp_is_never_applied() {
    let mut node = new_node();
    let (first, counter) = node.handle_store(kad_id(1), gossip(7, 100), u64::MAX);
    assert_eq!(first, StoreOutcome::Stale);
    assert_eq!(counter, u64::MAX);
    assert!(node.retrieve(kad_id(1)).is_none());
    let (second, counter) = node.handle_store(kad_id(1), gossip(7, 100), u64::MAX - 1);
    assert_eq!(second, StoreOutcome::Stale);
    assert_eq!(counter, u64::MAX);
    assert!(node.retrieve(kad_id(1)).is_none());
    let mut other = new_node();
    assert_eq!(other.compare(u64::MAX), u64::MAX);
    let mut third = new_node();
    let (applied, counter) = third.handle_store(kad_id(1), gossip(7, 100), u64::MAX - 1);
    assert_eq!(applied, StoreOutcome::Applied);
    assert_eq!(counter, u64::MAX);
    let (again, _) = third.handle_store(kad_id(2), gossip(8, 1), u64::MAX - 1);
    assert_eq!(again, StoreOutcome::Stale);
    assert!(third.retrieve(kad_id(2)).is_none());
}

#[test]
fn counters_tick_and_sync() {
    let mut node = new_node();
    assert_eq!(node.increment(), 0);
    assert_eq!(node.increment(), 1);
    assert_eq!(node.get_timestamp(), 2);
    assert_eq!(node.compare(1), 2);
    assert_eq!(node.compare(2), 3);
    assert_eq!(node.compare(10), 11);
    assert_eq!(node.compare(10), 11);
    assert_eq!(node.compare(u64::MAX - 1), u64::MAX);
    assert_eq!(node.compare(u64::MAX), u64::MAX);
    assert_eq!(node.compare(5), u64::MAX);
    assert_eq!(node.increment(), u64::MAX);
    assert_eq!(node.get_timestamp(), 0);
    assert_eq!(node.increment_broadcast(), 0);
    assert_eq!(node.compare_broadcast(0), 1);
    assert_eq!(node.compare_broadcast(5), 6);
    assert_eq!(node.compare_broadcast(3), 6);
    assert_eq!(node.increment_broadcast(), 6);
}

#[test]
fn bid_must_beat_the_price() {
    let mut g = gossip(1, 100);
    assert_eq!(g.bid(100, kad_id(9)).err(), Some(BidTooLow {}));
    assert_eq!(g.bid(50, kad_id(9)).err(), Some(BidTooLow {}));
    assert_eq!(g.get_price(), 100);
    assert_eq!(g.get_buyer(), kad_id(1));
    let after = g.bid(101, kad_id(9)).expect("accepted");
    assert_eq!(after.get_price(), 101);
    assert_eq!(after.get_buyer(), kad_id(9));
    assert_eq!(g.get_price(), 101);
    assert_eq!(g.get_buyer(), kad_id(9));
    assert_eq!(g.get_seller(), kad_id(2));
    assert_eq!(g.get_title(), "lot 1");
    assert!(g.get_bool_state());
    assert!(g.same_auction(&gossip(1, 5)));
    assert!(!g.same_auction(&gossip(2, 5)));
    let done = AuctionGossip::new([1; 32], "x".to_string(), kad_id(1), 1, AuctionState::FINISHED, kad_id(2));
    assert!(!done.get_bool_state());
}

#[test]
fn addresses_and_payloads() {
    assert_eq!(format_address("10.1.2.3:80".to_string()), "http://10.1.2.3:80");
    assert_eq!(format_address(String::new()), "http://");
    let key = kad_id(0xab);
    let mut expected = vec![1u8, 2, 3];
    expected.extend_from_slice(&key.0);
    assert_eq!(encode_store(&[1, 2, 3], key), expected);
    assert_eq!(encode_fvalue(&[1, 2, 3], key), expected);
    assert_eq!(encode_store(&[], key), key.0.to_vec());
    let a = gen_cookie();
    let b = gen_cookie();
    let c = gen_cookie();
    assert!(a != b || b != c);
}

#[test]
fn node_keeps_a_ledger() {
    let mut node = new_node();
    let genesis = node.get_chain().blocks[0];
    assert_eq!(genesis.id, 0);
    assert_eq!(node.validate_blocks(), Err(LedgerError::NoBlock));
    let data = Data::new(kad_id(1), kad_id(2), 7, [3u8; 32]);
    let wrong = Block::new(5, 0, [9u8; 32], [1u8; 32], 0, data);
    node.store_block(wrong);
    assert_eq!(node.validate_blocks(), Err(LedgerError::InvalidBlock));
    let next = Block::new(1, 0, genesis.hash, [1u8; 32], 0, data);
    node.store_block(next);
    assert_eq!(node.validate_blocks(), Ok(()));
    assert_eq!(node.get_chain().blocks.len(), 2);
    node.store_transaction(data);
    assert!(node.mine(0).is_none());
    assert_eq!(node.pending_transactions(), 1);
    assert_eq!(node.get_chain().blocks.len(), 2);
    let mined = node.mine(1_000_000).expect("a block");
    assert_eq!(mined.data, data);
    assert_eq!(mined.prev_hash, next.hash);
    assert_eq!(mined.id, next.id);
    assert_eq!(node.pending_transactions(), 0);
    assert_eq!(node.get_chain().blocks.len(), 3);
    node.choose_chain(vec![vec![genesis, next], vec![genesis], vec![genesis, next, mined]]);
    assert_eq!(node.get_chain().blocks, vec![genesis]);
    let chain = Chain { blocks: vec![genesis] };
    assert_eq!(chain.get_chain().blocks.len(), 1);
}
