use kad_dht::key::{NodeID, NodeValidator};
use kad_dht::lookup::{
    contains_uid, insert_closest, lookup_over, Answer, FNodeManager, PARALLEL_LOOKUPS,
};
use kad_dht::node::Contact;
use kad_dht::rtable::Rtable;
use kad_dht::K_MAX_ENTRIES;

fn short_id(first: u8) -> NodeID {
    let mut bytes = [0u8; 32];
    bytes[0] = first;
    NodeID(bytes)
}

fn short_peer(first: u8) -> Contact {
    Contact::new(short_id(first), format!("n{}", first), vec![first])
}

fn firsts(list: &[Contact]) -> Vec<u8> {
    list.iter().map(|c| c.uid.0[0]).collect()
}

fn session_validator() -> NodeValidator {
    NodeValidator::from_parts(short_id(0xee), vec![1, 2, 3], vec![], 5)
}

fn new_session(key: NodeID, seeds: Vec<Contact>) -> FNodeManager {
    FNodeManager::new(
        key,
        seeds.clone(),
        seeds,
        vec![short_id(0xee)],
        10,
        session_validator(),
        "127.0.0.1:1".to_string(),
    )
}

#[test]
fn parallelism_is_three() {
    assert_eq!(PARALLEL_LOOKUPS, 3);
}

#[test]
fn contains_uid_finds_by_identifier() {
    let list = vec![short_peer(1), short_peer(2)];
    assert!(contains_uid(&list, &short_id(2)));
    assert!(!contains_uid(&list, &short_id(3)));
    assert!(!contains_uid(&Vec::new(), &short_id(3)));
}

#[test]
fn insert_closest_fills_up_to_k() {
    let key = short_id(0);
    let mut closest: Vec<Contact> = Vec::new();
    let (visit, progress) = insert_closest(
        &mut closest,
        vec![short_peer(0xaa)],
        vec![short_peer(0x30), short_peer(0x10), short_peer(0x20)],
        key,
    );
    assert!(progress);
    assert_eq!(firsts(&closest), vec![0x10, 0x20, 0x30]);
    assert_eq!(firsts(&visit), vec![0xaa, 0x30, 0x10, 0x20]);
}

#[test]
fn insert_closest_replaces_the_farthest() {
    let key = short_id(0);
    let mut closest: Vec<Contact> = Vec::new();
    let seeds: Vec<Contact> = [0x10u8, 0x20, 0x30, 0x40, 0x50].iter().map(|f| short_peer(*f)).collect();
    let _ = insert_closest(&mut closest, Vec::new(), seeds, key);
    assert_eq!(closest.len(), K_MAX_ENTRIES);
    let (visit, progress) = insert_closest(
        &mut closest,
        Vec::new(),
        vec![short_peer(0x60), short_peer(0x05), short_peer(0x20), short_peer(0x45)],
        key,
    );
    assert!(progress);
    assert_eq!(firsts(&closest), vec![0x05, 0x10, 0x20, 0x30, 0x40]);
    assert_eq!(firsts(&visit), vec![0x05]);
}

#[test]
fn insert_closest_sorts_what_it_is_given() {
    let key = short_id(0);
    let mut closest: Vec<Contact> =
        [0x50u8, 0x10, 0x30, 0x10, 0x70, 0x20, 0x60].iter().map(|f| short_peer(*f)).collect();
    let (visit, progress) = insert_closest(&mut closest, Vec::new(), vec![short_peer(0x40)], key);
    assert!(progress);
    assert_eq!(firsts(&closest), vec![0x10, 0x20, 0x30, 0x40, 0x50]);
    assert_eq!(firsts(&visit), vec![0x40]);
}

#[test]
fn insert_closest_without_progress() {
    let key = short_id(0);
    let mut closest: Vec<Contact> = Vec::new();
    let seeds: Vec<Contact> = [0x10u8, 0x20, 0x30, 0x40, 0x50].iter().map(|f| short_peer(*f)).collect();
    let _ = insert_closest(&mut closest, Vec::new(), seeds, key);
    let (visit, progress) = insert_closest(
        &mut closest,
        vec![short_peer(1)],
        vec![short_peer(0x60), short_peer(0x50), short_peer(0x10)],
        key,
    );
    assert!(!progress);
    assert_eq!(firsts(&closest), vec![0x10, 0x20, 0x30, 0x40, 0x50]);
    assert_eq!(firsts(&visit), vec![1]);
    let (visit, progress) = insert_closest(&mut closest, Vec::new(), Vec::new(), key);
    assert!(!progress);
    assert!(visit.is_empty());
}

#[test]
fn insert_closest_strictly_closer_only() {
    let key = short_id(0xff);
    let mut closest: Vec<Contact> = Vec::new();
    let seeds: Vec<Contact> = [0xf0u8, 0xf1, 0xf2, 0xf3, 0xf4].iter().map(|f| short_peer(*f)).collect();
    let _ = insert_closest(&mut closest, Vec::new(), seeds, key);
    assert_eq!(firsts(&closest), vec![0xf4, 0xf3, 0xf2, 0xf1, 0xf0]);
    let (_, progress) = insert_closest(&mut closest, Vec::new(), vec![short_peer(0xe0)], key);
    assert!(!progress);
    let (_, progress) = insert_closest(&mut closest, Vec::new(), vec![short_peer(0xfe)], key);
    assert!(progress);
    assert_eq!(firsts(&closest), vec![0xfe, 0xf4, 0xf3, 0xf2, 0xf1]);
}

#[test]
fn session_starts_sorted_and_bounded() {
    let seeds: Vec<Contact> =
        [0x50u8, 0x10, 0x40, 0x20, 0x30, 0x60, 0x10].iter().map(|f| short_peer(*f)).collect();
    let session = new_session(short_id(0), seeds);
    assert_eq!(firsts(&session.get_k_closest()), vec![0x10, 0x20, 0x30, 0x40, 0x50]);
    assert!(session.contains_vn(&short_id(0xee)));
    assert!(!session.contains_vn(&short_id(0x10)));
    assert_eq!(session.get_nonce(), 5);
    assert_eq!(session.get_pubkey(), vec![1, 2, 3]);
    assert_eq!(session.get_uid(), short_id(0xee).0.to_vec());
    assert_eq!(session.get_validator().get_nodeid(), short_id(0xee));
    assert_eq!(session.get_address(), "127.0.0.1:1");
}

#[test]
fn seeded_session_knows_itself() {
    let seeds: Vec<Contact> = [0x50u8, 0x10, 0xee].iter().map(|f| short_peer(*f)).collect();
    let mut session =
        FNodeManager::seeded(short_id(0), seeds, 3, session_validator(), "here".to_string());
    assert_eq!(firsts(&session.get_k_closest()), vec![0x10, 0x50, 0xee]);
    assert!(session.contains_vn(&short_id(0xee)));
    assert_eq!(session.next_candidate().unwrap().uid, short_id(0x10));
    assert_eq!(session.next_candidate().unwrap().uid, short_id(0x50));
    assert!(session.next_candidate().is_none());
    assert_eq!(session.increment(), 3);
}

#[test]
fn session_counter_increments() {
    let mut session = new_session(short_id(0), Vec::new());
    assert_eq!(session.increment(), 10);
    assert_eq!(session.increment(), 11);
}

#[test]
fn session_visits_each_contact_once() {
    let seeds: Vec<Contact> = [0x10u8, 0x20, 0x10, 0xee, 0x20].iter().map(|f| short_peer(*f)).collect();
    let mut session = new_session(short_id(0), seeds);
    let mut asked = Vec::new();
    while let Some(c) = session.next_candidate() {
        assert!(session.contains_vn(&c.uid));
        asked.push(c.uid.0[0]);
    }
    assert_eq!(asked, vec![0x20, 0x10]);
    assert!(session.next_candidate().is_none());
    assert!(session.pop_ntv().is_none());
}

#[test]
fn session_pop_and_mark() {
    let mut session = new_session(short_id(0), vec![short_peer(1), short_peer(2)]);
    assert_eq!(session.pop_ntv().unwrap().uid, short_id(2));
    assert!(session.insert_vn(short_id(2)));
    assert!(!session.insert_vn(short_id(2)));
    assert!(session.contains_vn(&short_id(2)));
    assert_eq!(session.pop_ntv().unwrap().uid, short_id(1));
    assert!(session.pop_ntv().is_none());
}

#[test]
fn session_merge_reports_progress() {
    let mut session = new_session(short_id(0), vec![short_peer(0x40), short_peer(0x50)]);
    assert!(session.merge_reply(vec![short_peer(0x10), short_peer(0x40)]));
    assert_eq!(firsts(&session.get_k_closest()), vec![0x10, 0x40, 0x50]);
    assert!(!session.merge_reply(vec![short_peer(0x10), short_peer(0x40)]));
    assert_eq!(session.next_candidate().unwrap().uid, short_id(0x10));
}

fn network_table(owner: u8, all: &[u8]) -> Rtable {
    let validator = NodeValidator::from_parts(short_id(owner), vec![], vec![], 0);
    let mut table = Rtable::new();
    for pass in 0..3 {
        for (round, other) in all.iter().enumerate() {
            if *other != owner {
                table.insert_at(short_peer(*other), &validator, true, (pass * 1000 + round) as i64);
            }
        }
    }
    table
}

fn run_lookup(start: u8, target: NodeID, all: &[u8]) -> Vec<Contact> {
    let local = network_table(start, all);
    let seeds = local.lookup(target);
    let mut session = FNodeManager::new(
        target,
        seeds.clone(),
        seeds,
        vec![short_id(start)],
        0,
        NodeValidator::from_parts(short_id(start), vec![], vec![], 0),
        "here".to_string(),
    );
    let mut asked: Vec<NodeID> = Vec::new();
    while let Some(candidate) = session.next_candidate() {
        assert!(!asked.contains(&candidate.uid));
        assert_ne!(candidate.uid, short_id(start));
        asked.push(candidate.uid);
        let remote = network_table(candidate.uid.0[0], all);
        let answer = remote.lookup(target);
        session.merge_reply(answer);
    }
    session.get_k_closest()
}

#[test]
fn lookup_on_a_connected_network_finds_the_closest() {
    let all: Vec<u8> = (0..60u8).map(|i| i.wrapping_mul(37).wrapping_add(11)).collect();
    for target_first in [0u8, 0x33, 0x80, 0xff, 0x5a] {
        let target = short_id(target_first);
        let start = *all.iter().find(|f| (*f ^ target_first) & 0x80 != 0).expect("a far node");
        let found = run_lookup(start, target, &all);
        let mut expected: Vec<u8> = all.clone();
        expected.sort_by_key(|f| f ^ target_first);
        expected.truncate(K_MAX_ENTRIES);
        assert!(!expected.contains(&start));
        assert_eq!(firsts(&found), expected);
        assert_eq!(found.len(), K_MAX_ENTRIES.min(all.len()));
        for pair in found.windows(2) {
            assert!(pair[0].uid.distance(target) < pair[1].uid.distance(target));
        }
    }
}

#[test]
fn lookup_on_a_small_network_returns_everyone() {
    let all: Vec<u8> = vec![3, 200, 77];
    let found = run_lookup(3, short_id(0x40), &all);
    assert_eq!(firsts(&found), vec![77, 3, 200]);
    let alone = run_lookup(3, short_id(0x40), &[3]);
    assert!(alone.is_empty());
}

fn nearest_of_pool(pool: &[u8], target: u8) -> Vec<u8> {
    let mut sorted: Vec<u8> = pool.to_vec();
    sorted.sort_by_key(|f| f ^ target);
    sorted.truncate(K_MAX_ENTRIES);
    sorted
}

fn informed_answers(pool: &[u8], target: u8) -> Vec<Answer> {
    pool.iter()
        .map(|peer| Answer {
            from: short_id(*peer),
            contacts: nearest_of_pool(pool, target).iter().map(|f| short_peer(*f)).collect(),
        })
        .collect()
}

fn over(seeds: &[u8], target: u8, answers: &Vec<Answer>, rounds: usize) -> Vec<u8> {
    let found = lookup_over(
        short_id(target),
        seeds.iter().map(|f| short_peer(*f)).collect(),
        session_validator(),
        0,
        "here".to_string(),
        answers,
        rounds,
    );
    firsts(&found)
}

#[test]
fn lookup_over_informed_peers_finds_the_nearest() {
    let pool: Vec<u8> = (0..40u8).map(|i| i.wrapping_mul(29).wrapping_add(3)).collect();
    assert!(!pool.contains(&0xee));
    for target in [0u8, 0x5a, 0xc3, 0xff] {
        let answers = informed_answers(&pool, target);
        let expected = nearest_of_pool(&pool, target);
        assert_eq!(expected.len(), K_MAX_ENTRIES);
        assert_eq!(over(&[pool[17]], target, &answers, 100), expected);
        assert_eq!(over(&[pool[1], pool[30], pool[9]], target, &answers, 1), expected);
        let found = over(&pool[..7], target, &answers, 100);
        assert_eq!(found, expected);
        assert!(!found.contains(&0xee));
    }
}

#[test]
fn lookup_over_a_small_pool_returns_the_pool() {
    let pool: Vec<u8> = vec![9, 200, 77];
    let answers = informed_answers(&pool, 0x40);
    assert_eq!(over(&[200], 0x40, &answers, 10), vec![77, 9, 200]);
    assert_eq!(over(&[200, 9], 0x40, &answers, 10).len(), 3);
}

#[test]
fn lookup_over_without_rounds_or_answers_keeps_the_seeds() {
    let pool: Vec<u8> = vec![9, 200, 77, 30, 31, 32, 33];
    let answers = informed_answers(&pool, 0);
    assert_eq!(over(&[200, 77], 0, &answers, 0), vec![77, 200]);
    assert_eq!(over(&[200, 77], 0, &Vec::new(), 10), vec![77, 200]);
    assert_eq!(over(&[], 0, &answers, 10), Vec::<u8>::new());
    assert_eq!(over(&[0xee], 0, &answers, 10), vec![0xee]);
    let silent_first: Vec<Answer> = answers.iter().filter(|a| a.from != short_id(77)).cloned().collect();
    assert_eq!(over(&[200, 77], 0, &silent_first, 10), nearest_of_pool(&pool, 0));
}

#[test]
fn lookup_over_tables_matches_the_session() {
    let all: Vec<u8> = (0..60u8).map(|i| i.wrapping_mul(37).wrapping_add(11)).collect();
    for target_first in [0u8, 0x33, 0x80] {
        let target = short_id(target_first);
        let start = *all.iter().find(|f| (*f ^ target_first) & 0x80 != 0).expect("a far node");
        let answers: Vec<Answer> = all
            .iter()
            .map(|peer| Answer {
                from: short_id(*peer),
                contacts: network_table(*peer, &all).lookup(target),
            })
            .collect();
        let seeds = network_table(start, &all).lookup(target);
        let found = lookup_over(
            target,
            seeds,
            NodeValidator::from_parts(short_id(start), vec![], vec![], 0),
            0,
            "here".to_string(),
            &answers,
            1000,
        );
        assert!(found.len() <= K_MAX_ENTRIES);
        for pair in found.windows(2) {
            assert!(pair[0].uid.distance(target) < pair[1].uid.distance(target));
        }
        let mut expected: Vec<u8> = all.clone();
        expected.sort_by_key(|f| f ^ target_first);
        assert_eq!(firsts(&found)[0], expected[0]);
    }
}
