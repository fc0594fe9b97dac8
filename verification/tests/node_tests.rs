use kad_dht::key::{NodeID, NodeValidator};
use kad_dht::node::{Bucket, Contact, LastSeen, Node};
use kad_dht::rtable::Rtable;
use kad_dht::K_MAX_ENTRIES;

fn node_id(first: u8, last: u8) -> NodeID {
    let mut bytes = [0u8; 32];
    bytes[0] = first;
    bytes[31] = last;
    NodeID(bytes)
}

fn peer(first: u8, last: u8) -> Contact {
    Contact::new(node_id(first, last), format!("10.0.{}.{}:3000", first, last), vec![first, last])
}

fn local_with(first: u8) -> NodeValidator {
    NodeValidator::from_parts(node_id(first, 0), vec![], vec![], 0)
}

fn bucket_ids(bucket: &Bucket) -> Vec<NodeID> {
    bucket.get_sorted(NodeID([0u8; 32])).iter().map(|c| c.uid).collect()
}

fn leaf_ids(node: &Node) -> Vec<NodeID> {
    let mut ids = bucket_ids(node.get_bucket().expect("a leaf"));
    ids.sort();
    ids
}

fn max_bucket(node: &Node) -> usize {
    match node.get_bucket() {
        Some(b) => b.len(),
        None => {
            let l = node.get_left().map(|n| max_bucket(n)).unwrap_or(0);
            let r = node.get_right().map(|n| max_bucket(n)).unwrap_or(0);
            l.max(r)
        }
    }
}

fn count_contacts(node: &Node) -> usize {
    match node.get_bucket() {
        Some(b) => b.len(),
        None => {
            node.get_left().map(|n| count_contacts(n)).unwrap_or(0)
                + node.get_right().map(|n| count_contacts(n)).unwrap_or(0)
        }
    }
}

fn shape_ok(node: &Node) -> bool {
    match node.get_bucket() {
        Some(_) => node.get_left().is_none() && node.get_right().is_none(),
        None => match (node.get_left(), node.get_right()) {
            (Some(l), Some(r)) => shape_ok(l) && shape_ok(r),
            _ => false,
        },
    }
}

#[test]
fn contact_starts_unseen() {
    let c = peer(1, 2);
    assert_eq!(c.last_seen, LastSeen::Never);
    assert_eq!(c.get_pubkey(), &[1u8, 2][..]);
    assert_eq!(c.address, "10.0.1.2:3000");
}

#[test]
fn see_at_never_goes_back() {
    let mut c = peer(1, 2);
    c.see_at(100);
    assert_eq!(c.last_seen, LastSeen::Seen(100));
    c.see_at(50);
    assert_eq!(c.last_seen, LastSeen::Seen(100));
    c.see_at(150);
    assert_eq!(c.last_seen, LastSeen::Seen(150));
}

#[test]
fn see_reads_a_clock_after_the_epoch() {
    let mut c = peer(1, 2);
    c.see();
    match c.last_seen {
        LastSeen::Seen(t) => assert!(t > 1_500_000_000),
        LastSeen::Never => panic!("not seen"),
    }
}

#[test]
fn bucket_appends_in_order() {
    let mut b = Bucket::new();
    assert_eq!(b.len(), 0);
    assert!(!b.is_full());
    assert!(b.head().is_none());
    b.insert(peer(1, 1), 10);
    b.insert(peer(2, 2), 11);
    b.insert(peer(3, 3), 12);
    assert_eq!(b.len(), 3);
    assert_eq!(b.head().unwrap().uid, node_id(1, 1));
    assert_eq!(b.head().unwrap().last_seen, LastSeen::Seen(10));
    assert!(b.contains(&node_id(2, 2)));
    assert!(!b.contains(&node_id(2, 3)));
}

#[test]
fn bucket_refresh_moves_to_tail() {
    let mut b = Bucket::new();
    b.insert(peer(1, 1), 10);
    b.insert(peer(2, 2), 11);
    b.insert(peer(3, 3), 12);
    b.insert(peer(1, 1), 20);
    assert_eq!(b.len(), 3);
    assert_eq!(b.head().unwrap().uid, node_id(2, 2));
    b.insert_full(false, peer(9, 9), 30);
    b.insert_full(false, peer(8, 8), 31);
    assert_eq!(b.head().unwrap().uid, node_id(1, 1));
    assert_eq!(b.head().unwrap().last_seen, LastSeen::Seen(20));
}

#[test]
fn bucket_never_grows_past_capacity() {
    let mut b = Bucket::new();
    for i in 0..20u8 {
        b.insert(peer(i, i), i as i64);
        assert!(b.len() <= K_MAX_ENTRIES);
    }
    assert!(b.is_full());
    assert_eq!(b.len(), K_MAX_ENTRIES);
    assert_eq!(b.head().unwrap().uid, node_id(0, 0));
    assert!(!b.contains(&node_id(5, 5)));
}

#[test]
fn bucket_remove_and_move_to_tail() {
    let mut b = Bucket::new();
    b.insert(peer(1, 1), 10);
    b.insert(peer(2, 2), 11);
    b.insert(peer(3, 3), 12);
    b.move_to_tail(&peer(1, 1));
    assert_eq!(b.head().unwrap().uid, node_id(2, 2));
    b.remove(&peer(2, 2));
    assert_eq!(b.len(), 2);
    assert_eq!(b.head().unwrap().uid, node_id(3, 3));
    b.remove(&peer(7, 7));
    assert_eq!(b.len(), 2);
    b.move_to_tail(&peer(7, 7));
    assert_eq!(b.head().unwrap().uid, node_id(3, 3));
    b.remove(&peer(3, 3));
    assert_eq!(b.head().unwrap().uid, node_id(1, 1));
    assert_eq!(b.head().unwrap().last_seen, LastSeen::Seen(10));
}

#[test]
fn bucket_sorts_by_distance() {
    let mut b = Bucket::new();
    b.insert(peer(0x10, 0), 1);
    b.insert(peer(0x80, 0), 2);
    b.insert(peer(0x01, 0), 3);
    b.insert(peer(0x40, 0), 4);
    let sorted = b.get_sorted(node_id(0, 0));
    let firsts: Vec<u8> = sorted.iter().map(|c| c.uid.0[0]).collect();
    assert_eq!(firsts, vec![0x01, 0x10, 0x40, 0x80]);
    let sorted = b.get_sorted(node_id(0x80, 0));
    let firsts: Vec<u8> = sorted.iter().map(|c| c.uid.0[0]).collect();
    assert_eq!(firsts, vec![0x80, 0x01, 0x10, 0x40]);
    assert_eq!(b.len(), 4);
}

#[test]
fn bucket_split_parts_by_bit() {
    let mut b = Bucket::new();
    b.insert(peer(0x80, 1), 1);
    b.insert(peer(0x00, 2), 2);
    b.insert(peer(0xc0, 3), 3);
    b.insert(peer(0x40, 4), 4);
    let (differ, agree) = b.split(node_id(0x80, 0), 0, 0);
    assert_eq!(b.len(), 0);
    let d: Vec<u8> = bucket_ids(&differ).iter().map(|i| i.0[31]).collect();
    let a: Vec<u8> = bucket_ids(&agree).iter().map(|i| i.0[31]).collect();
    assert_eq!(d.len(), 2);
    assert!(d.contains(&2) && d.contains(&4));
    assert_eq!(a.len(), 2);
    assert!(a.contains(&1) && a.contains(&3));
    assert_eq!(agree.head().unwrap().uid, node_id(0x80, 1));
    assert_eq!(differ.head().unwrap().uid, node_id(0x00, 2));
    assert_eq!(agree.head().unwrap().last_seen, LastSeen::Seen(1));
}

#[test]
fn bucket_count_with_bit_counts() {
    let mut b = Bucket::new();
    b.insert(peer(0x80, 1), 1);
    b.insert(peer(0x00, 2), 2);
    b.insert(peer(0xc0, 3), 3);
    assert_eq!(b.count_with_bit(0, 0, true), 2);
    assert_eq!(b.count_with_bit(0, 0, false), 1);
    assert_eq!(b.count_with_bit(1, 0, true), 1);
    assert_eq!(b.count_with_bit(7, 31, true), 2);
}

#[test]
fn bucket_split() {
    let local = local_with(0x80);
    let mut table = Rtable::new();
    for i in 0..K_MAX_ENTRIES as u8 {
        table.insert_at(peer(0x80 | (i << 4), i), &local, true, i as i64);
    }
    assert!(table.head.get_bucket().is_some());
    assert_eq!(table.head.get_bucket().unwrap().len(), K_MAX_ENTRIES);
    assert!(table.ping_candidate(&node_id(0x88, 9), &local).is_none());
    table.insert_at(peer(0x88, 9), &local, true, 100);
    assert!(table.head.get_bucket().is_none());
    let left = table.head.get_left().expect("a left child");
    let right = table.head.get_right().expect("a right child");
    assert_eq!(left.get_bucket().expect("left is a leaf").len(), 0);
    assert!(right.get_bucket().is_none());
    let zero_side = right.get_left().expect("children of the right child");
    let one_side = right.get_right().expect("children of the right child");
    let mut expect_zero: Vec<NodeID> = vec![
        node_id(0x80, 0),
        node_id(0x90, 1),
        node_id(0xa0, 2),
        node_id(0xb0, 3),
        node_id(0x88, 9),
    ];
    expect_zero.sort();
    let expect_one: Vec<NodeID> = vec![node_id(0xc0, 4)];
    assert_eq!(leaf_ids(zero_side), expect_zero);
    assert_eq!(leaf_ids(one_side), expect_one);
    assert_eq!(count_contacts(&table.head), K_MAX_ENTRIES + 1);
    assert!(shape_ok(&table.head));
    assert!(max_bucket(&table.head) <= K_MAX_ENTRIES);
}

#[test]
fn split_stops_where_the_contact_leaves_the_local_range() {
    let local = local_with(0x80);
    let mut table = Rtable::new();
    for i in 0..K_MAX_ENTRIES as u8 {
        table.insert_at(peer(0x80 | (i << 4), i), &local, true, i as i64);
    }
    let head = table.ping_candidate(&node_id(0xf0, 9), &local).expect("a head to ping");
    assert_eq!(head.uid, node_id(0x80, 0));
    table.insert_at(peer(0xf0, 9), &local, false, 100);
    assert!(table.head.get_bucket().is_none());
    let right = table.head.get_right().expect("a right child");
    let mut expect: Vec<NodeID> = vec![
        node_id(0x90, 1),
        node_id(0xa0, 2),
        node_id(0xb0, 3),
        node_id(0xc0, 4),
        node_id(0xf0, 9),
    ];
    expect.sort();
    assert_eq!(leaf_ids(right), expect);
    assert_eq!(table.head.get_left().unwrap().get_bucket().unwrap().len(), 0);
}

#[test]
fn bucket_split_by_the_first_bit() {
    let local = local_with(0x80);
    let mut table = Rtable::new();
    table.insert_at(peer(0x80, 1), &local, true, 1);
    table.insert_at(peer(0x10, 2), &local, true, 2);
    table.insert_at(peer(0x90, 3), &local, true, 3);
    table.insert_at(peer(0x20, 4), &local, true, 4);
    table.insert_at(peer(0xa0, 5), &local, true, 5);
    table.insert_at(peer(0xb0, 6), &local, true, 6);
    assert!(table.head.get_bucket().is_none());
    let mut zeros = vec![node_id(0x10, 2), node_id(0x20, 4)];
    zeros.sort();
    let mut ones = vec![node_id(0x80, 1), node_id(0x90, 3), node_id(0xa0, 5), node_id(0xb0, 6)];
    ones.sort();
    assert_eq!(leaf_ids(table.head.get_left().unwrap()), zeros);
    assert_eq!(leaf_ids(table.head.get_right().unwrap()), ones);
}

#[test]
fn ping_gated_eviction() {
    let local = local_with(0x80);
    let mut table = Rtable::new();
    for i in 0..K_MAX_ENTRIES as u8 {
        table.insert_at(peer(0x10 + i, i), &local, true, i as i64);
    }
    let head = table.ping_candidate(&node_id(0x70, 9), &local).expect("a head to ping");
    assert_eq!(head.uid, node_id(0x10, 0));

    let mut unreachable = Rtable::new();
    for i in 0..K_MAX_ENTRIES as u8 {
        unreachable.insert_at(peer(0x10 + i, i), &local, true, i as i64);
    }
    unreachable.insert_at(peer(0x70, 9), &local, false, 50);
    let bucket = unreachable.head.get_bucket().expect("still a leaf");
    assert_eq!(bucket.len(), K_MAX_ENTRIES);
    assert!(!bucket.contains(&node_id(0x10, 0)));
    assert!(bucket.contains(&node_id(0x70, 9)));
    assert_eq!(bucket.head().unwrap().uid, node_id(0x11, 1));
    let mut tail = unreachable.head.get_bucket().unwrap().clone();
    for i in 1..K_MAX_ENTRIES as u8 {
        tail.remove(&peer(0x10 + i, i));
    }
    assert_eq!(tail.len(), 1);
    assert_eq!(tail.head().unwrap().uid, node_id(0x70, 9));
    assert_eq!(tail.head().unwrap().last_seen, LastSeen::Seen(50));

    table.insert_at(peer(0x70, 9), &local, true, 50);
    let bucket = table.head.get_bucket().expect("still a leaf");
    assert_eq!(bucket.len(), K_MAX_ENTRIES);
    assert!(!bucket.contains(&node_id(0x70, 9)));
    assert_eq!(bucket.head().unwrap().uid, node_id(0x10, 0));
    for i in 0..K_MAX_ENTRIES as u8 {
        assert!(bucket.contains(&node_id(0x10 + i, i)));
    }
    let order: Vec<u8> = {
        let mut b = bucket.clone();
        let mut seen = Vec::new();
        while let Some(h) = b.head() {
            seen.push(h.uid.0[31]);
            b.remove(&h);
        }
        seen
    };
    assert_eq!(order, vec![0, 1, 2, 3, 4]);
}

#[test]
fn known_contact_in_full_bucket_is_refreshed_without_ping() {
    let local = local_with(0x80);
    let mut table = Rtable::new();
    for i in 0..K_MAX_ENTRIES as u8 {
        table.insert_at(peer(0x10 + i, i), &local, true, i as i64);
    }
    assert!(table.ping_candidate(&node_id(0x10, 0), &local).is_none());
    table.insert_at(peer(0x10, 0), &local, true, 99);
    let bucket = table.head.get_bucket().unwrap();
    assert_eq!(bucket.len(), K_MAX_ENTRIES);
    assert_eq!(bucket.head().unwrap().uid, node_id(0x11, 1));
    assert!(bucket.contains(&node_id(0x10, 0)));
}

#[test]
fn buckets_stay_within_capacity() {
    let local = local_with(0xa5);
    let mut table = Rtable::new();
    let mut x: u32 = 12345;
    for round in 0..600u32 {
        x = x.wrapping_mul(1664525).wrapping_add(1013904223);
        let first = (x >> 24) as u8;
        let last = (x >> 8) as u8;
        table.insert_at(peer(first, last), &local, round % 3 == 0, round as i64);
        assert!(max_bucket(&table.head) <= K_MAX_ENTRIES);
        assert!(shape_ok(&table.head));
    }
    assert!(count_contacts(&table.head) > K_MAX_ENTRIES);
}

#[test]
fn traversal_reaches_the_leaf_that_holds_the_contact() {
    let local = local_with(0xa5);
    let mut table = Rtable::new();
    let mut x: u32 = 777;
    let mut offered: Vec<NodeID> = Vec::new();
    for round in 0..300u32 {
        x = x.wrapping_mul(1664525).wrapping_add(1013904223);
        let c = peer((x >> 24) as u8, (x >> 8) as u8);
        offered.push(c.uid);
        table.insert_at(c, &local, false, round as i64);
    }
    let mut found = 0;
    for id in offered.iter() {
        let leaf = table.head.lookup(*id, 0, 0).expect("a leaf");
        let everywhere = table.lookup(*id);
        if everywhere.iter().any(|c| c.uid == *id) {
            assert!(leaf.contains(id));
            found += 1;
        } else {
            assert!(!leaf.contains(id));
        }
    }
    assert!(found > K_MAX_ENTRIES);
}

#[test]
fn insert_with_the_clock_stamps_the_contact() {
    let local = local_with(0x80);
    let mut table = Rtable::new();
    table.insert(peer(1, 1), &local, true);
    let head = table.head.get_bucket().unwrap().head().unwrap();
    match head.last_seen {
        LastSeen::Seen(t) => assert!(t > 1_500_000_000),
        LastSeen::Never => panic!("not seen"),
    }
}

#[test]
fn node_setters_and_getters() {
    let mut n = Node::new();
    assert!(n.get_left().is_none());
    assert!(n.get_right().is_none());
    assert_eq!(n.get_bucket().unwrap().len(), 0);
    n.get_mut_bucket().unwrap().insert(peer(1, 1), 5);
    assert_eq!(n.get_bucket().unwrap().len(), 1);
    n.set_left(Node::new());
    n.set_right(Node::default());
    assert!(n.get_left().is_some());
    assert!(n.get_right().is_some());
    let copy = n.clone();
    assert_eq!(copy.get_bucket().unwrap().len(), 1);
}
