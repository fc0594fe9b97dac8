use kad_dht::auction::{AuctionGossip, AuctionState};
use kad_dht::kademlia::{AuctionData, BroadcastReq, Gblock, Kcontact, Rdata, Transaction};
use kad_dht::key::NodeID;
use kad_dht::ledger::{Block, Data};
use kad_dht::node::{Contact, LastSeen};
use kad_dht::util::{
    build_brequest, bytes_of, contact_list, format_kcontact, grpc_block, grpc_transaction,
    hash_of, to_auction_data, to_auction_data_vec, to_block, to_contact, to_data, to_gossip,
    to_gossip_vec,
};

fn wire_id(first: u8) -> NodeID {
    let mut bytes = [0u8; 32];
    bytes[0] = first;
    NodeID(bytes)
}

fn wire_auction(first: u8, price: u32, status: bool) -> AuctionData {
    AuctionData {
        auction_id: vec![first; 32],
        title: "lamp".to_string(),
        seller: wire_id(1).0.to_vec(),
        buyer: wire_id(2).0.to_vec(),
        price,
        status,
    }
}

#[test]
fn bytes_and_hashes_are_copied() {
    assert_eq!(bytes_of(&[1, 2, 3]), vec![1, 2, 3]);
    assert_eq!(bytes_of(&[]), Vec::<u8>::new());
    assert_eq!(hash_of(&[7u8; 32]), Some([7u8; 32]));
    assert_eq!(hash_of(&[7u8; 31]), None);
    assert_eq!(hash_of(&[7u8; 33]), None);
}

#[test]
fn contacts_travel_and_return() {
    let mut c = Contact::new(wire_id(5), "10.0.0.5:1".to_string(), vec![9, 9]);
    c.see_at(77);
    let k = format_kcontact(&c);
    assert_eq!(k, Kcontact { uid: wire_id(5).0.to_vec(), address: "10.0.0.5:1".to_string(), pub_key: vec![9, 9] });
    assert_eq!(c.as_kcontact(), k);
    let back = to_contact(&k).expect("a contact");
    assert_eq!(back.uid, wire_id(5));
    assert_eq!(back.address, "10.0.0.5:1");
    assert_eq!(back.get_pubkey(), &[9u8, 9][..]);
    assert_eq!(back.last_seen, LastSeen::Never);
    let mut short = k.clone();
    short.uid.pop();
    assert!(to_contact(&short).is_none());
}

#[test]
fn contact_list_is_all_or_nothing() {
    let a = Kcontact { uid: wire_id(1).0.to_vec(), address: "a".to_string(), pub_key: vec![1] };
    let b = Kcontact { uid: wire_id(2).0.to_vec(), address: "b".to_string(), pub_key: vec![2] };
    let list = contact_list(&vec![a.clone(), b.clone()]).expect("contacts");
    assert_eq!(list.len(), 2);
    assert_eq!(list[0].uid, wire_id(1));
    assert_eq!(list[1].uid, wire_id(2));
    assert_eq!(list[1].address, "b");
    assert_eq!(contact_list(&Vec::new()).expect("contacts").len(), 0);
    let bad = Kcontact { uid: vec![1, 2, 3], address: "c".to_string(), pub_key: vec![] };
    assert!(contact_list(&vec![a, bad, b]).is_none());
}

#[test]
fn announcements_travel_and_return() {
    let wire = wire_auction(4, 250, true);
    let g = to_gossip(&wire).expect("an announcement");
    assert_eq!(g.get_auction_id(), [4u8; 32]);
    assert_eq!(g.get_title(), "lamp");
    assert_eq!(g.get_seller(), wire_id(1));
    assert_eq!(g.get_buyer(), wire_id(2));
    assert_eq!(g.get_price(), 250);
    assert!(g.get_bool_state());
    assert_eq!(to_auction_data(&g), wire);
    let done = to_gossip(&wire_auction(4, 250, false)).expect("an announcement");
    assert!(!done.get_bool_state());
    assert!(!to_auction_data(&done).status);
    let mut bad = wire_auction(4, 1, true);
    bad.seller.push(0);
    assert!(to_gossip(&bad).is_none());
    let mut bad = wire_auction(4, 1, true);
    bad.auction_id.clear();
    assert!(to_gossip(&bad).is_none());
    let mut bad = wire_auction(4, 1, true);
    bad.buyer.pop();
    assert!(to_gossip(&bad).is_none());
}

#[test]
fn announcement_lists_travel_and_return() {
    let wires = vec![wire_auction(1, 10, true), wire_auction(2, 20, false)];
    let gossips = to_gossip_vec(&wires).expect("announcements");
    assert_eq!(gossips.len(), 2);
    assert_eq!(gossips[1].get_price(), 20);
    assert_eq!(to_auction_data_vec(&gossips), wires);
    let mut bad = wire_auction(3, 1, true);
    bad.buyer.clear();
    assert!(to_gossip_vec(&vec![wire_auction(1, 10, true), bad]).is_none());
    assert_eq!(to_gossip_vec(&Vec::new()).expect("none").len(), 0);
    let g = AuctionGossip::new([1; 32], "x".to_string(), wire_id(1), 1, AuctionState::ONGOING, wire_id(2));
    assert_eq!(to_auction_data_vec(&vec![g]).len(), 1);
}

#[test]
fn blocks_travel_and_return() {
    let data = Data::new(wire_id(1), wire_id(2), 55, [3u8; 32]);
    let block = Block::new(4, 99, [1u8; 32], [2u8; 32], 1234, data);
    let t = grpc_transaction(&data);
    assert_eq!(
        t,
        Transaction {
            seller: wire_id(2).0.to_vec(),
            buyer: wire_id(1).0.to_vec(),
            amout: 55,
            auction_id: vec![3u8; 32],
        }
    );
    assert_eq!(to_data(&t), Some(data));
    let g = grpc_block(&block);
    assert_eq!(g.id, 4);
    assert_eq!(g.nonce, 99);
    assert_eq!(g.prev_hash, vec![1u8; 32]);
    assert_eq!(g.current_hash, vec![2u8; 32]);
    assert_eq!(g.timestamp, 1234);
    assert_eq!(g.data, Some(t.clone()));
    assert_eq!(to_block(&g), Some(block));
    let empty = Gblock { data: None, ..g.clone() };
    assert_eq!(to_block(&empty), None);
    let mut short = g.clone();
    short.prev_hash.pop();
    assert_eq!(to_block(&short), None);
    let mut short = g.clone();
    short.current_hash.push(1);
    assert_eq!(to_block(&short), None);
    let mut bad = t.clone();
    bad.auction_id.pop();
    assert_eq!(to_data(&bad), None);
    assert_eq!(to_block(&Gblock { data: Some(bad), ..g }), None);
}

#[test]
fn broadcast_requests_carry_their_data() {
    let data = grpc_transaction(&Data::new(wire_id(1), wire_id(2), 55, [3u8; 32]));
    let request = build_brequest(17, Rdata::Transaction(data.clone()));
    assert_eq!(request, BroadcastReq { timestamp: 17, rdata: Some(Rdata::Transaction(data)) });
}
