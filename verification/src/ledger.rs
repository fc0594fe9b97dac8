//! The ledger that settles auctions: blocks of transactions, chained by
//! their hashes and paid for by proof of work.

use vstd::prelude::*;
use crate::auction::AuctionGossip;
use crate::crypto::{append_bytes, random_u64, sha256, sha256_digest};
use crate::key::{be_bytes, h256_from_slice, leading_zero_bits, leading_zeros, u64_be_bytes, NodeID};
use crate::node::utc_now;

verus! {

/// Leading zero bits that the hash of a block's hash and nonce must have.
pub const DIFFICULTY: u32 = 8;

/// A transaction: who bought what from whom, and for how much. The amount
/// is held as the bit pattern of a single-precision number.
#[derive(Debug, Clone, Copy, PartialEq, Eq)]
pub struct Data {
    pub buyer: NodeID,
    pub seller: NodeID,
    pub amount: u32,
    pub auction_id: [u8; 32],
}

/// One block of the chain.
#[derive(Debug, Clone, Copy, PartialEq, Eq)]
pub struct Block {
    pub id: u64,
    pub nonce: u64,
    pub prev_hash: [u8; 32],
    pub hash: [u8; 32],
    pub timestamp: i64,
    pub data: Data,
}

/// A chain of blocks, oldest first.
#[derive(Debug, Clone)]
pub struct Chain {
    pub blocks: Vec<Block>,
}

/// Why the miner validated no block.
#[derive(Debug, Clone, Copy, PartialEq, Eq, Structural)]
pub enum LedgerError {
    /// No block waits to be validated.
    NoBlock,
    /// The block that waited does not follow the chain's last block.
    InvalidBlock,
}

/// The four bytes of a 32-bit number, most significant first.
pub open spec fn be_bytes32(x: u32) -> Seq<u8> {
    seq![
        ((x >> 24) & 0xff) as u8,
        ((x >> 16) & 0xff) as u8,
        ((x >> 8) & 0xff) as u8,
        (x & 0xff) as u8,
    ]
}

/// What the hash of a transaction covers: buyer, seller, the amount in
/// big-endian bytes, and the auction.
pub open spec fn data_input(d: Data) -> Seq<u8> {
    d.buyer@ + d.seller@ + be_bytes32(d.amount) + d.auction_id@
}

/// The hash of a transaction.
pub open spec fn data_hash(d: Data) -> Seq<u8> {
    sha256(data_input(d))
}

/// The hash of a block that follows the hash `prev` and carries `d`.
pub open spec fn block_hash(prev: Seq<u8>, d: Data) -> Seq<u8> {
    sha256(prev + data_hash(d))
}

/// The nonce pays for the hash: hashed together they start with
/// `DIFFICULTY` zero bits.
pub open spec fn work_holds(hash: Seq<u8>, nonce: u64) -> bool {
    leading_zero_bits(sha256(hash + be_bytes(nonce))) >= DIFFICULTY
}

/// The block's hash is the hash of its transaction, and its nonce pays for
/// it.
pub open spec fn proof_holds(b: Block) -> bool {
    data_hash(b.data) == b.hash@ && work_holds(b.hash@, b.nonce)
}

/// `b` is accepted behind `last`: it names the hash of `last`, carries the
/// next number, and is not a block whose hash is that of its transaction
/// with a nonce that pays for it.
pub open spec fn follows(b: Block, last: Block) -> bool {
    &&& b.prev_hash@ == last.hash@
    &&& b.id == last.id + 1
    &&& !proof_holds(b)
}

/// The genesis block: number 0, behind the zero hash, with a transaction of
/// nothing between nobody, under the hash that belongs to these, paid for by
/// its nonce.
pub open spec fn is_genesis(b: Block) -> bool {
    &&& b.id == 0
    &&& b.prev_hash@ == Seq::new(32, |i: int| 0u8)
    &&& b.data.buyer@ == Seq::new(32, |i: int| 0u8)
    &&& b.data.seller@ == Seq::new(32, |i: int| 0u8)
    &&& b.data.amount == 0
    &&& b.data.auction_id@ == Seq::new(32, |i: int| 0u8)
    &&& b.hash@ == block_hash(b.prev_hash@, b.data)
    &&& work_holds(b.hash@, b.nonce)
}

/// Each block of the chain is accepted behind the one before it.
pub open spec fn chain_valid(blocks: Seq<Block>) -> bool {
    forall|i: int| 1 <= i < blocks.len() ==> follows(#[trigger] blocks[i], blocks[i - 1])
}

/// Which of two chains is kept: the longer of two valid chains, the local
/// one where they are as long or where neither is valid, the valid one
/// where only one is.
pub open spec fn chosen(local: Seq<Block>, remote: Seq<Block>) -> Seq<Block> {
    if chain_valid(local) && chain_valid(remote) {
        if local.len() >= remote.len() {
            local
        } else {
            remote
        }
    } else if chain_valid(remote) && !chain_valid(local) {
        remote
    } else {
        local
    }
}

/// The place of the chain that `Miner::choose_chain` keeps: the last of
/// the shortest.
pub open spec fn is_last_shortest(chains: Seq<Vec<Block>>, i: int) -> bool {
    &&& 0 <= i < chains.len()
    &&& forall|j: int| 0 <= j < chains.len() ==> chains[i]@.len() <= (#[trigger] chains[j])@.len()
    &&& forall|j: int| i < j < chains.len() ==> chains[i]@.len() < (#[trigger] chains[j])@.len()
}

/// The low byte of a number.
fn low_byte32(v: u32) -> (b: u8)
    ensures
        b == (v & 0xff) as u8,
{
    assert(v & 0xff < 256) by (bit_vector);
    (v & 0xff) as u8
}

/// Writes a 32-bit number as four bytes, most significant first.
pub fn u32_be_bytes(x: u32) -> (bytes: Vec<u8>)
    ensures
        bytes@ == be_bytes32(x),
{
    let mut bytes: Vec<u8> = Vec::new();
    bytes.push(low_byte32(x >> 24));
    bytes.push(low_byte32(x >> 16));
    bytes.push(low_byte32(x >> 8));
    bytes.push(low_byte32(x));
    assert(bytes@ =~= be_bytes32(x));
    bytes
}

/// Whether two hashes are the same.
pub fn same_hash(a: &[u8; 32], b: &[u8; 32]) -> (same: bool)
    ensures
        same == (a@ == b@),
{
    let mut i: usize = 0;
    while i < 32
        invariant
            0 <= i <= 32,
            forall|m: int| 0 <= m < i ==> a@[m] == b@[m],
        decreases 32 - i,
    {
        if a[i] != b[i] {
            return false;
        }
        i += 1;
    }
    assert(a@ =~= b@);
    true
}

/// Whether the nonce pays for the hash.
fn check_work(hash: &[u8; 32], nonce: u64) -> (ok: bool)
    ensures
        ok == work_holds(hash@, nonce),
{
    let mut input: Vec<u8> = Vec::new();
    append_bytes(&mut input, hash.as_slice());
    let nonce_bytes = u64_be_bytes(nonce);
    append_bytes(&mut input, nonce_bytes.as_slice());
    assert(input@ =~= hash@ + be_bytes(nonce));
    let digest = sha256_digest(input.as_slice());
    leading_zeros(digest.as_slice()) >= DIFFICULTY
}

impl Data {
    pub fn new(buyer: NodeID, seller: NodeID, amount: u32, auction_id: [u8; 32]) -> (d: Data)
        ensures
            d == (Data { buyer, seller, amount, auction_id }),
    {
        Data { buyer, seller, amount, auction_id }
    }

    /// The hash of the transaction.
    pub fn hash(&self) -> (h: [u8; 32])
        ensures
            h@ == data_hash(*self),
    {
        let mut input: Vec<u8> = Vec::new();
        append_bytes(&mut input, self.buyer.as_bytes());
        append_bytes(&mut input, self.seller.as_bytes());
        let amount_bytes = u32_be_bytes(self.amount);
        append_bytes(&mut input, amount_bytes.as_slice());
        append_bytes(&mut input, self.auction_id.as_slice());
        assert(input@ =~= data_input(*self));
        let digest = sha256_digest(input.as_slice());
        h256_from_slice(digest.as_slice())
    }

    pub fn get_auction_id(&self) -> (id: [u8; 32])
        ensures
            id == self.auction_id,
    {
        self.auction_id
    }

    pub fn get_amount(&self) -> (amount: u32)
        ensures
            amount == self.amount,
    {
        self.amount
    }

    pub fn get_seller(&self) -> (seller: NodeID)
        ensures
            seller == self.seller,
    {
        self.seller
    }

    pub fn get_buyer(&self) -> (buyer: NodeID)
        ensures
            buyer == self.buyer,
    {
        self.buyer
    }

    /// The transaction that settles an auction: the seller stands on both
    /// sides, at the price that the announcement names.
    pub fn from_auction(auction: &AuctionGossip) -> (d: Data)
        ensures
            d.buyer == auction@.seller,
            d.seller == auction@.seller,
            d.amount == auction@.current_price,
            d.auction_id@ == auction@.auction_id,
    {
        Data {
            buyer: auction.get_seller(),
            seller: auction.get_seller(),
            amount: auction.get_price(),
            auction_id: auction.get_auction_id(),
        }
    }
}

/// Computes the hash of a block behind `previous_hash` with the
/// transaction `data`, and draws up to `attempts` random nonces until one
/// pays for it. Whatever the draws, a nonce that is returned pays.
pub fn proof_of_work(previous_hash: [u8; 32], data: &Data, attempts: u64) -> (found: Option<
    (u64, [u8; 32]),
>)
    ensures
        found matches Some((nonce, hash)) ==> hash@ == block_hash(previous_hash@, *data)
            && work_holds(hash@, nonce),
        attempts == 0 ==> found is None,
{
    let hashed = data.hash();
    let mut input: Vec<u8> = Vec::new();
    append_bytes(&mut input, previous_hash.as_slice());
    append_bytes(&mut input, hashed.as_slice());
    assert(input@ =~= previous_hash@ + data_hash(*data));
    let digest = sha256_digest(input.as_slice());
    let new_block_hash = h256_from_slice(digest.as_slice());
    let mut tried: u64 = 0;
    while tried < attempts
        invariant
            tried <= attempts,
            new_block_hash@ == block_hash(previous_hash@, *data),
        decreases attempts - tried,
    {
        let nonce = random_u64();
        if check_work(&new_block_hash, nonce) {
            return Some((nonce, new_block_hash));
        }
        tried += 1;
    }
    None
}

/// Whether the block's hash is the hash of its transaction.
pub fn check_block_integrity(block: &Block) -> (ok: bool)
    ensures
        ok == (data_hash(block.data) == block.hash@),
{
    let h = block.data.hash();
    same_hash(&h, &block.hash)
}

/// Whether the block's hash is the hash of its transaction and its nonce
/// pays for it.
pub fn test_proof_of_work(block: &Block) -> (ok: bool)
    ensures
        ok == proof_holds(*block),
{
    if !check_block_integrity(block) {
        return false;
    }
    check_work(&block.hash, block.nonce)
}

impl Block {
    pub fn new(
        id: u64,
        nonce: u64,
        prev_hash: [u8; 32],
        hash: [u8; 32],
        timestamp: i64,
        data: Data,
    ) -> (b: Block)
        ensures
            b == (Block { id, nonce, prev_hash, hash, timestamp, data }),
    {
        Block { id, nonce, prev_hash, hash, timestamp, data }
    }

    /// Mines a block with the number `id` behind `previous_hash`, within
    /// `attempts` draws, and stamps it with the time the clock gives.
    pub fn mine_block(id: u64, previous_hash: [u8; 32], data: Data, attempts: u64) -> (mined:
        Option<Block>)
        ensures
            mined matches Some(b) ==> {
                &&& b.id == id
                &&& b.prev_hash == previous_hash
                &&& b.data == data
                &&& b.hash@ == block_hash(previous_hash@, data)
                &&& work_holds(b.hash@, b.nonce)
            },
            attempts == 0 ==> mined is None,
    {
        match proof_of_work(previous_hash, &data, attempts) {
            Some((nonce, hash)) => {
                let timestamp = utc_now();
                Some(Block { id, nonce, prev_hash: previous_hash, hash, timestamp, data })
            },
            None => None,
        }
    }
}

impl Chain {
    /// A chain that holds the genesis block: number 0, behind the zero
    /// hash, with a transaction of nothing between nobody. The block is
    /// mined within `attempts` draws; without a draw there is no chain.
    pub fn new(attempts: u64) -> (chain: Option<Chain>)
        ensures
            chain matches Some(c) ==> c.blocks@.len() == 1 && is_genesis(c.blocks@[0]),
            attempts == 0 ==> chain is None,
    {
        let zero: [u8; 32] = [0u8;32];
        assert(zero@ =~= Seq::new(32, |i: int| 0u8));
        let null_node = NodeID(zero);
        let data = Data::new(null_node, null_node, 0, zero);
        match Block::mine_block(0, zero, data, attempts) {
            Some(genesis) => {
                let mut blocks: Vec<Block> = Vec::new();
                blocks.push(genesis);
                Some(Chain { blocks })
            },
            None => None,
        }
    }

    /// A copy of the chain.
    pub fn get_chain(&self) -> (copy: Chain)
        ensures
            copy.blocks@ == self.blocks@,
    {
        let mut blocks: Vec<Block> = Vec::new();
        let mut i: usize = 0;
        while i < self.blocks.len()
            invariant
                0 <= i <= self.blocks@.len(),
                blocks@ == self.blocks@.take(i as int),
            decreases self.blocks@.len() - i,
        {
            blocks.push(self.blocks[i]);
            i += 1;
            assert(blocks@ =~= self.blocks@.take(i as int));
        }
        assert(self.blocks@.take(i as int) =~= self.blocks@);
        Chain { blocks }
    }

    /// Puts other blocks in the place of the chain's.
    pub fn replace(&mut self, chain: Vec<Block>)
        ensures
            final(self).blocks == chain,
    {
        self.blocks = chain;
    }

    /// Mines a block with the transaction `data` behind the last block,
    /// under the last block's number, and appends it. Without a nonce
    /// within `attempts` draws, and so without any draw, the chain stays as
    /// it is.
    pub fn mine(&mut self, data: Data, attempts: u64) -> (mined: Option<Block>)
        requires
            old(self).blocks@.len() > 0,
        ensures
            match mined {
                Some(b) => {
                    &&& final(self).blocks@ == old(self).blocks@.push(b)
                    &&& b.id == old(self).blocks@.last().id
                    &&& b.prev_hash == old(self).blocks@.last().hash
                    &&& b.data == data
                    &&& b.hash@ == block_hash(b.prev_hash@, data)
                    &&& work_holds(b.hash@, b.nonce)
                },
                None => final(self).blocks@ == old(self).blocks@,
            },
            attempts == 0 ==> mined is None,
    {
        let prev_block = self.blocks[self.blocks.len() - 1];
        match Block::mine_block(prev_block.id, prev_block.hash, data, attempts) {
            Some(block) => {
                self.blocks.push(block);
                Some(block)
            },
            None => None,
        }
    }

    /// Appends a block if it is accepted behind the chain's last block.
    pub fn add_block(&mut self, block: Block) -> (added: bool)
        requires
            old(self).blocks@.len() > 0,
        ensures
            added == follows(block, old(self).blocks@.last()),
            added ==> final(self).blocks@ == old(self).blocks@.push(block),
            !added ==> final(self).blocks@ == old(self).blocks@,
    {
        let last_block = self.blocks[self.blocks.len() - 1];
        if self.validate_block(&block, &last_block) {
            self.blocks.push(block);
            true
        } else {
            false
        }
    }

    /// Whether `block` is accepted behind `last_block`.
    pub fn validate_block(&self, block: &Block, last_block: &Block) -> (ok: bool)
        ensures
            ok == follows(*block, *last_block),
    {
        if !same_hash(&block.prev_hash, &last_block.hash) {
            false
        } else if last_block.id == u64::MAX || block.id != last_block.id + 1 {
            false
        } else if test_proof_of_work(block) {
            false
        } else {
            true
        }
    }

    /// Whether each block of `chain` is accepted behind the one before it.
    pub fn validate_chain(&self, chain: &Chain) -> (ok: bool)
        ensures
            ok == chain_valid(chain.blocks@),
    {
        let mut i: usize = 1;
        while i < chain.blocks.len()
            invariant
                1 <= i,
                forall|m: int|
                    1 <= m < i && m < chain.blocks@.len() ==> follows(
                        #[trigger] chain.blocks@[m],
                        chain.blocks@[m - 1],
                    ),
            decreases chain.blocks@.len() - i,
        {
            if !self.validate_block(&chain.blocks[i], &chain.blocks[i - 1]) {
                return false;
            }
            i += 1;
        }
        true
    }

    /// Chooses between the local chain and one that a peer sent.
    pub fn choose_chain(&self, local: Chain, remote: Chain) -> (kept: Chain)
        ensures
            kept.blocks@ == chosen(local.blocks@, remote.blocks@),
    {
        let is_local_valid = self.validate_chain(&local);
        let is_remote_valid = self.validate_chain(&remote);
        if is_local_valid && is_remote_valid {
            if local.blocks.len() >= remote.blocks.len() {
                local
            } else {
                remote
            }
        } else if is_local_valid {
            local
        } else if is_remote_valid {
            remote
        } else {
            local
        }
    }

    /// Passing blocks on is the network's part: nothing happens here.
    pub fn broadcast_block(&self, block: Block) {
    }
}

/// The miner: transactions that wait for a block, blocks that wait to be
/// validated, and the chain.
#[derive(Debug, Clone)]
pub struct Miner {
    transactions: Vec<Data>,
    blocks_to_validate: Vec<Block>,
    blockchain: Chain,
}

impl Miner {
    pub closed spec fn spec_transactions(&self) -> Seq<Data> {
        self.transactions@
    }

    pub closed spec fn spec_waiting(&self) -> Seq<Block> {
        self.blocks_to_validate@
    }

    pub closed spec fn spec_chain(&self) -> Seq<Block> {
        self.blockchain.blocks@
    }

    /// A miner without work whose chain holds the genesis block, mined
    /// within `attempts` draws; without a draw there is no miner.
    pub fn new(attempts: u64) -> (miner: Option<Miner>)
        ensures
            miner matches Some(m) ==> {
                &&& m.spec_transactions().len() == 0
                &&& m.spec_waiting().len() == 0
                &&& m.spec_chain().len() == 1
                &&& is_genesis(m.spec_chain()[0])
            },
            attempts == 0 ==> miner is None,
    {
        match Chain::new(attempts) {
            Some(blockchain) => Some(
                Miner { transactions: Vec::new(), blocks_to_validate: Vec::new(), blockchain },
            ),
            None => None,
        }
    }

    /// A miner that starts from the given chain.
    pub fn with_chain(blockchain: Chain) -> (miner: Miner)
        ensures
            miner.spec_transactions().len() == 0,
            miner.spec_waiting().len() == 0,
            miner.spec_chain() == blockchain.blocks@,
    {
        Miner { transactions: Vec::new(), blocks_to_validate: Vec::new(), blockchain }
    }

    pub fn get_chain(&self) -> (chain: Chain)
        ensures
            chain.blocks@ == self.spec_chain(),
    {
        self.blockchain.get_chain()
    }

    /// How many transactions wait for a block.
    pub fn pending(&self) -> (n: usize)
        ensures
            n == self.spec_transactions().len(),
    {
        self.transactions.len()
    }

    /// How many blocks the chain holds.
    pub fn height(&self) -> (n: usize)
        ensures
            n == self.spec_chain().len(),
    {
        self.blockchain.blocks.len()
    }

    /// Keeps a transaction for the next block.
    pub fn store_transaction(&mut self, t: Data)
        ensures
            final(self).spec_transactions() == old(self).spec_transactions().push(t),
            final(self).spec_waiting() == old(self).spec_waiting(),
            final(self).spec_chain() == old(self).spec_chain(),
    {
        self.transactions.push(t);
    }

    /// Keeps a block to be validated.
    pub fn store_block(&mut self, block: Block)
        ensures
            final(self).spec_waiting() == old(self).spec_waiting().push(block),
            final(self).spec_transactions() == old(self).spec_transactions(),
            final(self).spec_chain() == old(self).spec_chain(),
    {
        self.blocks_to_validate.push(block);
    }

    /// Mines a block with the transaction that was stored last and appends
    /// it to the chain. Without a nonce within `attempts` draws, and so
    /// without any draw, nothing changes.
    pub fn mine(&mut self, attempts: u64) -> (mined: Option<Block>)
        requires
            old(self).spec_transactions().len() > 0,
            old(self).spec_chain().len() > 0,
        ensures
            final(self).spec_waiting() == old(self).spec_waiting(),
            match mined {
                Some(b) => {
                    &&& final(self).spec_transactions() == old(self).spec_transactions().drop_last()
                    &&& final(self).spec_chain() == old(self).spec_chain().push(b)
                    &&& b.data == old(self).spec_transactions().last()
                    &&& b.id == old(self).spec_chain().last().id
                    &&& b.prev_hash == old(self).spec_chain().last().hash
                    &&& b.hash@ == block_hash(b.prev_hash@, b.data)
                    &&& work_holds(b.hash@, b.nonce)
                },
                None => final(self).spec_transactions() == old(self).spec_transactions()
                    && final(self).spec_chain() == old(self).spec_chain(),
            },
            attempts == 0 ==> mined is None,
    {
        let t = self.transactions[self.transactions.len() - 1];
        match self.blockchain.mine(t, attempts) {
            Some(block) => {
                let _ = self.transactions.pop();
                assert(self.transactions@ =~= old(self).transactions@.drop_last());
                Some(block)
            },
            None => None,
        }
    }

    /// Takes the block that was stored last and appends it to the chain if
    /// it is accepted behind the chain's last block.
    pub fn validate_blocks(&mut self) -> (r: Result<(), LedgerError>)
        requires
            old(self).spec_chain().len() > 0,
        ensures
            final(self).spec_transactions() == old(self).spec_transactions(),
            old(self).spec_waiting().len() == 0 ==> r == Err::<(), LedgerError>(
                LedgerError::NoBlock,
            ) && final(self).spec_waiting() == old(self).spec_waiting() && final(self).spec_chain()
                == old(self).spec_chain(),
            old(self).spec_waiting().len() > 0 ==> {
                &&& final(self).spec_waiting() == old(self).spec_waiting().drop_last()
                &&& if follows(old(self).spec_waiting().last(), old(self).spec_chain().last()) {
                    r == Ok::<(), LedgerError>(()) && final(self).spec_chain() == old(self).spec_chain().push(old(self).spec_waiting().last())
                } else {
                    r == Err::<(), LedgerError>(LedgerError::InvalidBlock) && final(self).spec_chain() == old(self).spec_chain()
                }
            },
    {
        match self.blocks_to_validate.pop() {
            Some(b) => {
                assert(self.blocks_to_validate@ =~= old(self).blocks_to_validate@.drop_last());
                if self.blockchain.add_block(b) {
                    Ok(())
                } else {
                    Err(LedgerError::InvalidBlock)
                }
            },
            None => Err(LedgerError::NoBlock),
        }
    }

    /// Puts the last of the shortest of `chains` in the place of the
    /// chain.
    pub fn choose_chain(&mut self, chains: Vec<Vec<Block>>)
        requires
            chains@.len() > 0,
        ensures
            exists|i: int| is_last_shortest(chains@, i) && final(self).spec_chain() == (
            #[trigger] chains@[i])@,
            final(self).spec_transactions() == old(self).spec_transactions(),
            final(self).spec_waiting() == old(self).spec_waiting(),
    {
        let mut chains = chains;
        let ghost all = chains@;
        let mut best: usize = 0;
        let mut i: usize = 1;
        while i < chains.len()
            invariant
                1 <= i <= chains@.len(),
                chains@ == all,
                best < i,
                forall|j: int| 0 <= j < i ==> all[best as int]@.len() <= (#[trigger] all[j])@.len(),
                forall|j: int| best < j < i ==> all[best as int]@.len() < (#[trigger] all[j])@.len(),
            decreases chains@.len() - i,
        {
            if chains[i].len() <= chains[best].len() {
                best = i;
            }
            i += 1;
        }
        assert(is_last_shortest(all, best as int));
        let kept = chains.remove(best);
        self.blockchain.replace(kept);
    }
}

} // verus!
