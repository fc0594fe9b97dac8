use kad_dht::auction::{AuctionGossip, AuctionState};
use kad_dht::key::{leading_zeros, NodeID};
use kad_dht::ledger::{
    check_block_integrity, proof_of_work, same_hash, test_proof_of_work, u32_be_bytes, Block,
    Chain, Data, LedgerError, Miner, DIFFICULTY,
};
use sha2::{Digest, Sha256};

fn ledger_id(first: u8) -> NodeID {
    let mut bytes = [0u8; 32];
    bytes[0] = first;
    NodeID(bytes)
}

fn payment(amount: u32) -> Data {
    Data::new(ledger_id(1), ledger_id(2), amount, [5u8; 32])
}

fn reference_data_hash(d: &Data) -> Vec<u8> {
    let mut hasher = Sha256::new();
    hasher.update(d.buyer.0);
    hasher.update(d.seller.0);
    hasher.update(d.amount.to_be_bytes());
    hasher.update(d.auction_id);
    hasher.finalize().to_vec()
}

fn reference_block_hash(prev: &[u8; 32], d: &Data) -> Vec<u8> {
    let mut hasher = Sha256::new();
    hasher.update(prev);
    hasher.update(reference_data_hash(d));
    hasher.finalize().to_vec()
}

fn reference_work(hash: &[u8; 32], nonce: u64) -> bool {
    let mut hasher = Sha256::new();
    hasher.update(hash);
    hasher.update(nonce.to_be_bytes());
    leading_zeros(hasher.finalize().as_slice()) >= 8
}

#[test]
fn difficulty_is_eight_bits() {
    assert_eq!(DIFFICULTY, 8);
}

#[test]
fn u32_bytes_are_big_endian() {
    assert_eq!(u32_be_bytes(0x0102_0304), vec![1, 2, 3, 4]);
    assert_eq!(u32_be_bytes(1.5f32.to_bits()), 1.5f32.to_be_bytes().to_vec());
    assert_eq!(u32_be_bytes(0), vec![0; 4]);
}

#[test]
fn data_hash_covers_all_fields() {
    let d = payment(42);
    assert_eq!(d.hash().to_vec(), reference_data_hash(&d));
    assert_ne!(d.hash(), payment(43).hash());
    assert_eq!(d.get_amount(), 42);
    assert_eq!(d.get_buyer(), ledger_id(1));
    assert_eq!(d.get_seller(), ledger_id(2));
    assert_eq!(d.get_auction_id(), [5u8; 32]);
    assert!(same_hash(&d.hash(), &d.hash()));
    assert!(!same_hash(&d.hash(), &[0u8; 32]));
}

#[test]
fn data_from_auction_puts_the_seller_on_both_sides() {
    let g = AuctionGossip::new(
        [8u8; 32],
        "lot".to_string(),
        ledger_id(3),
        900,
        AuctionState::FINISHED,
        ledger_id(4),
    );
    let d = Data::from_auction(&g);
    assert_eq!(d.buyer, ledger_id(4));
    assert_eq!(d.seller, ledger_id(4));
    assert_eq!(d.amount, 900);
    assert_eq!(d.auction_id, [8u8; 32]);
}

#[test]
fn proof_of_work_pays_for_the_block_hash() {
    let d = payment(1);
    let prev = [7u8; 32];
    assert_eq!(proof_of_work(prev, &d, 0), None);
    let (nonce, hash) = proof_of_work(prev, &d, 1_000_000).expect("a nonce");
    assert_eq!(hash.to_vec(), reference_block_hash(&prev, &d));
    assert!(reference_work(&hash, nonce));
}

#[test]
fn test_proof_of_work_needs_the_data_hash() {
    let d = payment(1);
    let mined = Block::mine_block(3, [7u8; 32], d, 1_000_000).expect("a block");
    assert_eq!(mined.id, 3);
    assert_eq!(mined.prev_hash, [7u8; 32]);
    assert!(mined.timestamp > 1_500_000_000);
    assert!(!check_block_integrity(&mined));
    assert!(!test_proof_of_work(&mined));
    let mut nonce = 0u64;
    while !reference_work(&d.hash(), nonce) {
        nonce += 1;
    }
    let direct = Block::new(1, nonce, [0u8; 32], d.hash(), 0, d);
    assert!(check_block_integrity(&direct));
    assert!(test_proof_of_work(&direct));
    let mut unpaid = nonce + 1;
    while reference_work(&d.hash(), unpaid) {
        unpaid += 1;
    }
    assert!(!test_proof_of_work(&Block::new(1, unpaid, [0u8; 32], d.hash(), 0, d)));
}

#[test]
fn genesis_chain() {
    assert!(Chain::new(0).is_none());
    let chain = Chain::new(1_000_000).expect("a chain");
    assert_eq!(chain.blocks.len(), 1);
    let genesis = chain.blocks[0];
    assert_eq!(genesis.id, 0);
    assert_eq!(genesis.prev_hash, [0u8; 32]);
    assert_eq!(genesis.data, Data::new(NodeID([0u8; 32]), NodeID([0u8; 32]), 0, [0u8; 32]));
    assert_eq!(genesis.hash.to_vec(), reference_block_hash(&[0u8; 32], &genesis.data));
    assert!(reference_work(&genesis.hash, genesis.nonce));
}

#[test]
fn blocks_follow_by_hash_and_number() {
    let mut chain = Chain::new(1_000_000).expect("a chain");
    let genesis = chain.blocks[0];
    let d = payment(5);
    let good = Block::new(1, 0, genesis.hash, [1u8; 32], 0, d);
    assert!(chain.validate_block(&good, &genesis));
    assert!(!chain.validate_block(&Block::new(2, 0, genesis.hash, [1u8; 32], 0, d), &genesis));
    assert!(!chain.validate_block(&Block::new(1, 0, [3u8; 32], [1u8; 32], 0, d), &genesis));
    let last = Block::new(u64::MAX, 0, [0u8; 32], [2u8; 32], 0, d);
    assert!(!chain.validate_block(&Block::new(0, 0, [2u8; 32], [1u8; 32], 0, d), &last));
    let mut nonce = 0u64;
    while !reference_work(&d.hash(), nonce) {
        nonce += 1;
    }
    let proven = Block::new(1, nonce, genesis.hash, d.hash(), 0, d);
    assert!(!chain.validate_block(&proven, &genesis));
    assert!(!chain.add_block(proven));
    assert_eq!(chain.blocks.len(), 1);
    assert!(chain.add_block(good));
    assert_eq!(chain.blocks, vec![genesis, good]);
    chain.broadcast_block(good);
}

#[test]
fn chain_mine_appends_under_the_last_number() {
    let mut chain = Chain::new(1_000_000).expect("a chain");
    let genesis = chain.blocks[0];
    assert!(chain.mine(payment(9), 0).is_none());
    assert_eq!(chain.blocks.len(), 1);
    let mined = chain.mine(payment(9), 1_000_000).expect("a block");
    assert_eq!(mined.id, 0);
    assert_eq!(mined.prev_hash, genesis.hash);
    assert_eq!(chain.blocks, vec![genesis, mined]);
    chain.replace(vec![mined]);
    assert_eq!(chain.blocks, vec![mined]);
}

#[test]
fn chains_are_validated_and_chosen() {
    let judge = Chain::new(1_000_000).expect("a chain");
    let d = payment(5);
    let a = Block::new(0, 0, [0u8; 32], [1u8; 32], 0, d);
    let b = Block::new(1, 0, [1u8; 32], [2u8; 32], 0, d);
    let c = Block::new(2, 0, [2u8; 32], [3u8; 32], 0, d);
    let broken = Block::new(7, 0, [2u8; 32], [3u8; 32], 0, d);
    let short = Chain { blocks: vec![a, b] };
    let long = Chain { blocks: vec![a, b, c] };
    let bad = Chain { blocks: vec![a, b, broken, c] };
    assert!(judge.validate_chain(&short));
    assert!(judge.validate_chain(&long));
    assert!(!judge.validate_chain(&bad));
    assert!(judge.validate_chain(&Chain { blocks: vec![] }));
    assert!(judge.validate_chain(&Chain { blocks: vec![broken] }));
    assert_eq!(judge.choose_chain(short.clone(), long.clone()).blocks, long.blocks);
    assert_eq!(judge.choose_chain(long.clone(), short.clone()).blocks, long.blocks);
    assert_eq!(judge.choose_chain(short.clone(), short.clone()).blocks, short.blocks);
    assert_eq!(judge.choose_chain(bad.clone(), short.clone()).blocks, short.blocks);
    assert_eq!(judge.choose_chain(short.clone(), bad.clone()).blocks, short.blocks);
    assert_eq!(judge.choose_chain(bad.clone(), bad.clone()).blocks, bad.blocks);
}

#[test]
fn miner_starts_from_the_genesis_block() {
    assert!(Miner::new(0).is_none());
    let miner = Miner::new(1_000_000).expect("a miner");
    assert_eq!(miner.pending(), 0);
    assert_eq!(miner.height(), 1);
    let genesis = miner.get_chain().blocks[0];
    assert_eq!(genesis.id, 0);
    assert_eq!(genesis.prev_hash, [0u8; 32]);
    assert_eq!(genesis.data, Data::new(NodeID([0u8; 32]), NodeID([0u8; 32]), 0, [0u8; 32]));
    assert_eq!(genesis.hash.to_vec(), reference_block_hash(&[0u8; 32], &genesis.data));
    assert!(reference_work(&genesis.hash, genesis.nonce));
}

#[test]
fn miner_mines_and_validates() {
    let mut miner = Miner::new(1_000_000).expect("a miner");
    let genesis = miner.get_chain().blocks[0];
    assert_eq!(miner.validate_blocks(), Err(LedgerError::NoBlock));
    miner.store_transaction(payment(1));
    miner.store_transaction(payment(2));
    assert!(miner.mine(0).is_none());
    let mined = miner.mine(1_000_000).expect("a block");
    assert_eq!(mined.data, payment(2));
    assert_eq!(miner.get_chain().blocks, vec![genesis, mined]);
    let next = miner.mine(1_000_000).expect("a block");
    assert_eq!(next.data, payment(1));
    let d = payment(3);
    miner.store_block(Block::new(1, 0, next.hash, [4u8; 32], 0, d));
    miner.store_block(Block::new(9, 0, next.hash, [4u8; 32], 0, d));
    assert_eq!(miner.validate_blocks(), Err(LedgerError::InvalidBlock));
    assert_eq!(miner.get_chain().blocks.len(), 3);
    assert_eq!(miner.validate_blocks(), Ok(()));
    assert_eq!(miner.get_chain().blocks.len(), 4);
}

#[test]
fn miner_keeps_the_last_of_the_shortest_chains() {
    let mut miner = Miner::with_chain(Chain { blocks: vec![] });
    let d = payment(5);
    let a = Block::new(0, 0, [0u8; 32], [1u8; 32], 0, d);
    let b = Block::new(1, 0, [1u8; 32], [2u8; 32], 0, d);
    let c = Block::new(2, 0, [2u8; 32], [3u8; 32], 0, d);
    miner.choose_chain(vec![vec![a, b, c], vec![a], vec![a, b], vec![c]]);
    assert_eq!(miner.get_chain().blocks, vec![c]);
    miner.choose_chain(vec![vec![a, b]]);
    assert_eq!(miner.get_chain().blocks, vec![a, b]);
}
