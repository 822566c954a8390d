//! Blocks: transactions under a Merkle commitment, sealed by proof of work.

use vstd::prelude::*;
use crate::crypto::{sha256, sha256_of};
use crate::encoding::{le_bytes, push_bytes, push_le};
use crate::merkle::{merkle_root, merkle_root_of};
use crate::transaction::{transaction_bytes, Transaction};

verus! {

/// A block of transactions, linked to its predecessor by `prev_hash`.
#[derive(Debug, Clone)]
pub struct Block {
    pub index: u64,
    pub timestamp: u128,
    pub transactions: Vec<Transaction>,
    pub merkle_root: crate::crypto::Hash,
    pub prev_hash: crate::crypto::Hash,
    pub hash: crate::crypto::Hash,
    pub nonce: u64,
    pub difficulty: u32,
}

/// The header bytes that are hashed: index, timestamp, Merkle root, previous
/// hash, nonce and difficulty.
pub open spec fn header_of(
    index: u64,
    timestamp: u128,
    merkle_root: Seq<u8>,
    prev_hash: Seq<u8>,
    nonce: u64,
    difficulty: u32,
) -> Seq<u8> {
    le_bytes(index as nat, 8) + le_bytes(timestamp as nat, 16) + merkle_root + prev_hash + le_bytes(
        nonce as nat,
        8,
    ) + le_bytes(difficulty as nat, 4)
}

/// A block's header bytes under a given nonce.
pub open spec fn header_bytes(b: Block, nonce: u64) -> Seq<u8> {
    header_of(b.index, b.timestamp, b.merkle_root.0@, b.prev_hash.0@, nonce, b.difficulty)
}

/// No nonce gives a header, with the other fields as given, whose hash meets
/// the difficulty.
pub open spec fn no_seal(
    index: u64,
    timestamp: u128,
    merkle_root: Seq<u8>,
    prev_hash: Seq<u8>,
    difficulty: u32,
) -> bool {
    forall|n: u64|
        !meets_difficulty(
            #[trigger] sha256_of(header_of(index, timestamp, merkle_root, prev_hash, n, difficulty)),
            difficulty as nat,
        )
}

/// The block's hash under a given nonce.
pub open spec fn hash_with_nonce(b: Block, nonce: u64) -> Seq<u8> {
    sha256_of(header_bytes(b, nonce))
}

/// The hash of the block's own fields.
pub open spec fn block_hash(b: Block) -> Seq<u8> {
    hash_with_nonce(b, b.nonce)
}

/// The `i`th hex digit of a byte string, high nibble first.
pub open spec fn nibble(h: Seq<u8>, i: int) -> u8 {
    if i % 2 == 0 {
        h[i / 2] / 16
    } else {
        h[i / 2] % 16
    }
}

/// The hex form of `h` starts with at least `d` zeros.
pub open spec fn meets_difficulty(h: Seq<u8>, d: nat) -> bool {
    d <= 2 * h.len() && forall|i: int| 0 <= i < d ==> #[trigger] nibble(h, i) == 0
}

/// The canonical bytes of each transaction.
pub open spec fn leaves_of(txs: Seq<Transaction>) -> Seq<Seq<u8>> {
    txs.map_values(|t: Transaction| transaction_bytes(t))
}

/// The canonical bytes of a list of transactions, without its length.
pub open spec fn transactions_bytes(s: Seq<Transaction>) -> Seq<u8>
    decreases s.len(),
{
    if s.len() == 0 {
        seq![]
    } else {
        transactions_bytes(s.drop_last()) + transaction_bytes(s.last())
    }
}

/// The canonical bytes of a block: its header, its stored hash, then its
/// transactions behind their count.
pub open spec fn block_bytes(b: Block) -> Seq<u8> {
    header_bytes(b, b.nonce) + b.hash.0@ + le_bytes(b.transactions@.len(), 8) + transactions_bytes(
        b.transactions@,
    )
}

/// A sealed block: its stored hash is its own and meets its difficulty.
pub open spec fn sealed(b: Block) -> bool {
    b.hash.0@ == block_hash(b) && meets_difficulty(b.hash.0@, b.difficulty as nat)
}

/// Whether the hash's hex form starts with `difficulty` zeros.
pub fn hash_meets_difficulty(hash: &crate::crypto::Hash, difficulty: u32) -> (r: bool)
    ensures
        r == meets_difficulty(hash.0@, difficulty as nat),
{
    if difficulty > 64 {
        return false;
    }
    let mut i: u32 = 0;
    while i < difficulty
        invariant
            i <= difficulty <= 64,
            forall|j: int| 0 <= j < i ==> #[trigger] nibble(hash.0@, j) == 0,
        decreases difficulty - i,
    {
        let byte = hash.0[(i / 2) as usize];
        let digit = if i % 2 == 0 {
            byte / 16
        } else {
            byte % 16
        };
        if digit != 0 {
            assert(nibble(hash.0@, i as int) != 0);
            return false;
        }
        i = i + 1;
    }
    true
}

impl Block {
    /// The block's header bytes under its current nonce.
    fn header(&self) -> (r: Vec<u8>)
        ensures
            r@ == header_bytes(*self, self.nonce),
    {
        let mut out: Vec<u8> = Vec::new();
        push_le(&mut out, self.index as u128, 8);
        push_le(&mut out, self.timestamp, 16);
        push_bytes(&mut out, &self.merkle_root.0);
        push_bytes(&mut out, &self.prev_hash.0);
        push_le(&mut out, self.nonce as u128, 8);
        push_le(&mut out, self.difficulty as u128, 4);
        assert(out@ =~= header_bytes(*self, self.nonce));
        out
    }

    /// The canonical bytes of this block.
    pub fn encode(&self) -> (r: Vec<u8>)
        ensures
            r@ == block_bytes(*self),
    {
        let mut out = self.header();
        push_bytes(&mut out, &self.hash.0);
        push_le(&mut out, self.transactions.len() as u128, 8);
        let ghost head = out@;
        let mut i: usize = 0;
        while i < self.transactions.len()
            invariant
                i <= self.transactions@.len(),
                out@ == head + transactions_bytes(self.transactions@.subrange(0, i as int)),
            decreases self.transactions@.len() - i,
        {
            let bytes = self.transactions[i].encode();
            push_bytes(&mut out, bytes.as_slice());
            assert(self.transactions@.subrange(0, i + 1).drop_last() =~= self.transactions@.subrange(0, i as int));
            i = i + 1;
            assert(out@ =~= head + transactions_bytes(self.transactions@.subrange(0, i as int)));
        }
        assert(self.transactions@.subrange(0, i as int) =~= self.transactions@);
        assert(out@ =~= block_bytes(*self));
        out
    }

    /// The hash of the block's own fields.
    pub fn calculate_hash(&self) -> (r: crate::crypto::Hash)
        ensures
            r.0@ == block_hash(*self),
    {
        let bytes = self.header();
        sha256(bytes.as_slice())
    }

    /// Proof of work: tries nonces upward from the current one and keeps the
    /// first whose hash meets the difficulty. Gives up, returning false, once
    /// the largest nonce has failed.
    pub fn mine(&mut self) -> (r: bool)
        ensures
            final(self).index == old(self).index,
            final(self).timestamp == old(self).timestamp,
            final(self).transactions == old(self).transactions,
            final(self).merkle_root == old(self).merkle_root,
            final(self).prev_hash == old(self).prev_hash,
            final(self).difficulty == old(self).difficulty,
            old(self).nonce <= final(self).nonce,
            forall|n: u64|
                old(self).nonce <= n < final(self).nonce ==> !meets_difficulty(
                    #[trigger] hash_with_nonce(*old(self), n),
                    old(self).difficulty as nat,
                ),
            r ==> sealed(*final(self)),
            !r ==> final(self).nonce == u64::MAX && !meets_difficulty(
                hash_with_nonce(*old(self), u64::MAX),
                old(self).difficulty as nat,
            ),
    {
        let ghost start = *self;
        loop
            invariant
                start == *old(self),
                self.index == start.index,
                self.timestamp == start.timestamp,
                self.transactions == start.transactions,
                self.merkle_root == start.merkle_root,
                self.prev_hash == start.prev_hash,
                self.difficulty == start.difficulty,
                start.nonce <= self.nonce,
                forall|n: u64|
                    start.nonce <= n < self.nonce ==> !meets_difficulty(
                        #[trigger] hash_with_nonce(start, n),
                        start.difficulty as nat,
                    ),
            decreases u64::MAX - self.nonce,
        {
            let hash = self.calculate_hash();
            assert(header_bytes(*self, self.nonce) == header_bytes(start, self.nonce));
            if hash_meets_difficulty(&hash, self.difficulty) {
                self.hash = hash;
                assert(header_bytes(*self, self.nonce) == header_bytes(start, self.nonce));
                return true;
            }
            if self.nonce == u64::MAX {
                return false;
            }
            self.nonce = self.nonce + 1;
        }
    }

    /// Seals a block made at `timestamp`: commits to the transactions by their
    /// Merkle root, then mines from nonce zero. None where no nonce serves.
    pub fn seal(
        index: u64,
        timestamp: u128,
        transactions: Vec<Transaction>,
        prev_hash: crate::crypto::Hash,
        difficulty: u32,
    ) -> (r: Option<Block>)
        ensures
            match r {
                Some(b) => {
                    &&& b.index == index
                    &&& b.timestamp == timestamp
                    &&& b.transactions == transactions
                    &&& b.merkle_root.0@ == merkle_root_of(leaves_of(transactions@))
                    &&& b.prev_hash == prev_hash
                    &&& b.difficulty == difficulty
                    &&& sealed(b)
                    &&& forall|n: u64|
                        0 <= n < b.nonce ==> !meets_difficulty(
                            #[trigger] hash_with_nonce(b, n),
                            difficulty as nat,
                        )
                },
                None => no_seal(
                    index,
                    timestamp,
                    merkle_root_of(leaves_of(transactions@)),
                    prev_hash.0@,
                    difficulty,
                ),
            },
    {
        let mut leaves: Vec<Vec<u8>> = Vec::new();
        let mut i: usize = 0;
        while i < transactions.len()
            invariant
                i <= transactions@.len(),
                leaves@.len() == i,
                forall|k: int| 0 <= k < i ==> (#[trigger] leaves@[k])@ == transaction_bytes(transactions@[k]),
            decreases transactions@.len() - i,
        {
            leaves.push(transactions[i].encode());
            i = i + 1;
        }
        assert(leaves@.map_values(|l: Vec<u8>| l@) =~= leaves_of(transactions@));
        let root = merkle_root(&leaves);
        let mut block = Block {
            index,
            timestamp,
            transactions,
            merkle_root: root,
            prev_hash,
            hash: crate::crypto::Hash::zero(),
            nonce: 0,
            difficulty,
        };
        let ghost unmined = block;
        if block.mine() {
            assert forall|n: u64| 0 <= n < block.nonce implies !meets_difficulty(
                #[trigger] hash_with_nonce(block, n),
                difficulty as nat,
            ) by {
                assert(header_bytes(block, n) == header_bytes(unmined, n));
                assert(!meets_difficulty(hash_with_nonce(unmined, n), difficulty as nat));
            }
            Some(block)
        } else {
            assert forall|n: u64| !meets_difficulty(
                #[trigger] sha256_of(header_of(index, timestamp, root.0@, prev_hash.0@, n, difficulty)),
                difficulty as nat,
            ) by {
                assert(header_of(index, timestamp, root.0@, prev_hash.0@, n, difficulty) == header_bytes(unmined, n));
                assert(!meets_difficulty(hash_with_nonce(unmined, n), difficulty as nat));
            }
            None
        }
    }

    /// A block made now: see `seal`.
    pub fn new(index: u64, transactions: Vec<Transaction>, prev_hash: crate::crypto::Hash, difficulty: u32) -> (r: Option<Block>)
        ensures
            match r {
                Some(b) => {
                    &&& b.index == index
                    &&& b.transactions == transactions
                    &&& b.merkle_root.0@ == merkle_root_of(leaves_of(transactions@))
                    &&& b.prev_hash == prev_hash
                    &&& b.difficulty == difficulty
                    &&& sealed(b)
                    &&& forall|n: u64|
                        0 <= n < b.nonce ==> !meets_difficulty(
                            #[trigger] hash_with_nonce(b, n),
                            difficulty as nat,
                        )
                },
                None => exists|timestamp: u128|
                    #[trigger] no_seal(
                        index,
                        timestamp,
                        merkle_root_of(leaves_of(transactions@)),
                        prev_hash.0@,
                        difficulty,
                    ),
            },
    {
        let now = current_time_millis();
        let timestamp: u128 = if now < 0 {
            0
        } else {
            now as u128
        };
        Block::seal(index, timestamp, transactions, prev_hash, difficulty)
    }
}

/// Relies on chrono::Utc::now and DateTime::timestamp_millis: the milliseconds
/// since the Unix epoch, which depend on the clock alone.
#[verifier::external_body]
fn current_time_millis() -> (r: i64) {
    chrono::Utc::now().timestamp_millis()
}

} // verus!
