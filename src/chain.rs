//! The chain: an append-only sequence of sealed, linked blocks.

use vstd::prelude::*;
use crate::block::{block_bytes, hash_with_nonce, leaves_of, meets_difficulty, no_seal, sealed, Block};
use crate::encoding::{le_bytes, push_bytes, push_le};
use crate::merkle::merkle_root_of;
use crate::transaction::Transaction;

verus! {

/// The difficulty that a new chain mines with.
pub const DEFAULT_DIFFICULTY: u32 = 4;

/// Every input of the transaction carries a signature, and it has at least one
/// input. Coinbase transactions are not exempted: a block that holds one does
/// not pass `is_valid`.
pub open spec fn tx_signed(tx: Transaction) -> bool {
    tx.inputs@.len() > 0 && forall|k: int|
        0 <= k < tx.inputs@.len() ==> (#[trigger] tx.inputs@[k]).signature@.len() > 0
}

/// `b` is sealed, names `prev`'s hash as its predecessor, and holds only
/// signed transactions.
pub open spec fn links(prev: Block, b: Block) -> bool {
    &&& sealed(b)
    &&& b.prev_hash.0@ == prev.hash.0@
    &&& forall|t: int| 0 <= t < b.transactions@.len() ==> tx_signed(#[trigger] b.transactions@[t])
}

/// Each block after the first links to the one before it.
pub open spec fn chain_valid(c: Seq<Block>) -> bool {
    forall|i: int| 1 <= i < c.len() ==> #[trigger] links(c[i - 1], c[i])
}

/// The canonical bytes of a list of blocks, without its length.
pub open spec fn blocks_bytes(s: Seq<Block>) -> Seq<u8>
    decreases s.len(),
{
    if s.len() == 0 {
        seq![]
    } else {
        blocks_bytes(s.drop_last()) + block_bytes(s.last())
    }
}

/// The canonical bytes of a chain: its difficulty, then its blocks behind
/// their count.
pub open spec fn chain_bytes(c: Blockchain) -> Seq<u8> {
    le_bytes(c.difficulty as nat, 4) + le_bytes(c.chain@.len(), 8) + blocks_bytes(c.chain@)
}

/// A chain whose stored hash, link or difficulty was altered so that one block
/// no longer is sealed or no longer names its predecessor's hash is not valid.
/// A changed difficulty, for instance, changes the recomputed hash; where that
/// no longer equals the stored one the block is not sealed.
pub proof fn lemma_altered_block_invalid(c: Seq<Block>, i: int)
    requires
        1 <= i < c.len(),
        !sealed(c[i]) || c[i].prev_hash.0@ != c[i - 1].hash.0@,
    ensures
        !chain_valid(c),
{
    assert(!links(c[i - 1], c[i]));
}

/// Appending a sealed block that links to the tip and holds signed
/// transactions keeps a valid chain valid.
pub proof fn lemma_append_keeps_valid(c: Seq<Block>, b: Block)
    requires
        chain_valid(c),
        c.len() >= 1,
        links(c.last(), b),
    ensures
        chain_valid(c.push(b)),
{
    let d = c.push(b);
    assert forall|i: int| 1 <= i < d.len() implies #[trigger] links(d[i - 1], d[i]) by {
        if i < c.len() {
            assert(links(c[i - 1], c[i]));
        }
    }
}

fn tx_has_signatures(tx: &Transaction) -> (r: bool)
    ensures
        r == tx_signed(*tx),
{
    if tx.inputs.len() == 0 {
        return false;
    }
    let mut k: usize = 0;
    while k < tx.inputs.len()
        invariant
            k <= tx.inputs@.len(),
            forall|j: int| 0 <= j < k ==> (#[trigger] tx.inputs@[j]).signature@.len() > 0,
        decreases tx.inputs@.len() - k,
    {
        if tx.inputs[k].signature.len() == 0 {
            return false;
        }
        k = k + 1;
    }
    true
}

/// The blocks, genesis first, and the difficulty that new blocks are mined with.
#[derive(Debug)]
pub struct Blockchain {
    pub chain: Vec<Block>,
    pub difficulty: u32,
}

impl Blockchain {
    /// A chain of one mined genesis block: index 0, no transactions, and the
    /// all-zero digest as its predecessor. None where mining found no seal.
    pub fn new() -> (r: Option<Blockchain>)
        ensures
            match r {
                Some(c) => {
                    &&& c.chain@.len() == 1
                    &&& c.difficulty == DEFAULT_DIFFICULTY
                    &&& c.chain@[0].index == 0
                    &&& c.chain@[0].transactions@.len() == 0
                    &&& c.chain@[0].prev_hash.0@ == crate::crypto::zero_digest()
                    &&& c.chain@[0].merkle_root.0@ == crate::crypto::zero_digest()
                    &&& c.chain@[0].difficulty == DEFAULT_DIFFICULTY
                    &&& sealed(c.chain@[0])
                    &&& forall|n: u64|
                        0 <= n < c.chain@[0].nonce ==> !meets_difficulty(
                            #[trigger] hash_with_nonce(c.chain@[0], n),
                            DEFAULT_DIFFICULTY as nat,
                        )
                    &&& chain_valid(c.chain@)
                },
                None => exists|timestamp: u128|
                    #[trigger] no_seal(
                        0,
                        timestamp,
                        merkle_root_of(leaves_of(Seq::<Transaction>::empty())),
                        crate::crypto::zero_digest(),
                        DEFAULT_DIFFICULTY,
                    ),
            },
    {
        let difficulty = DEFAULT_DIFFICULTY;
        match Block::new(0, Vec::new(), crate::crypto::Hash::zero(), difficulty) {
            Some(genesis) => {
                assert(leaves_of(genesis.transactions@) =~= Seq::<Seq<u8>>::empty());
                let mut chain: Vec<Block> = Vec::new();
                chain.push(genesis);
                Some(Blockchain { chain, difficulty })
            },
            None => None,
        }
    }

    /// Mines a block of the transactions onto the tip and appends it. Returns
    /// false, with the chain unchanged, where the tip's index is the largest or
    /// mining found no seal.
    pub fn add_block(&mut self, txs: Vec<Transaction>) -> (r: bool)
        requires
            old(self).chain@.len() >= 1,
        ensures
            final(self).difficulty == old(self).difficulty,
            !r ==> final(self).chain@ == old(self).chain@ && (old(self).chain@.last().index == u64::MAX
                || exists|timestamp: u128|
                #[trigger] no_seal(
                    (old(self).chain@.last().index + 1) as u64,
                    timestamp,
                    merkle_root_of(leaves_of(txs@)),
                    old(self).chain@.last().hash.0@,
                    old(self).difficulty,
                )),
            r ==> {
                let tip = old(self).chain@.last();
                let b = final(self).chain@.last();
                &&& final(self).chain@ == old(self).chain@.push(b)
                &&& b.index == tip.index + 1
                &&& b.prev_hash == tip.hash
                &&& b.transactions == txs
                &&& b.difficulty == old(self).difficulty
                &&& sealed(b)
            },
    {
        let last = self.chain.len() - 1;
        let tip_index = self.chain[last].index;
        let tip_hash = self.chain[last].hash;
        if tip_index == u64::MAX {
            return false;
        }
        match Block::new(tip_index + 1, txs, tip_hash, self.difficulty) {
            Some(block) => {
                self.chain.push(block);
                true
            },
            None => false,
        }
    }

    /// The canonical bytes of this chain, for a snapshot.
    pub fn encode(&self) -> (r: Vec<u8>)
        ensures
            r@ == chain_bytes(*self),
    {
        let mut out: Vec<u8> = Vec::new();
        push_le(&mut out, self.difficulty as u128, 4);
        push_le(&mut out, self.chain.len() as u128, 8);
        let ghost head = out@;
        let mut i: usize = 0;
        while i < self.chain.len()
            invariant
                i <= self.chain@.len(),
                out@ == head + blocks_bytes(self.chain@.subrange(0, i as int)),
            decreases self.chain@.len() - i,
        {
            let bytes = self.chain[i].encode();
            push_bytes(&mut out, bytes.as_slice());
            assert(self.chain@.subrange(0, i + 1).drop_last() =~= self.chain@.subrange(0, i as int));
            i = i + 1;
            assert(out@ =~= head + blocks_bytes(self.chain@.subrange(0, i as int)));
        }
        assert(self.chain@.subrange(0, i as int) =~= self.chain@);
        assert(out@ =~= chain_bytes(*self));
        out
    }

    /// Whether every block after genesis is sealed, names its predecessor's
    /// hash, and holds only signed transactions.
    pub fn is_valid(&self) -> (r: bool)
        ensures
            r == chain_valid(self.chain@),
    {
        let mut i: usize = 1;
        while i < self.chain.len()
            invariant
                1 <= i,
                i <= self.chain@.len() || self.chain@.len() == 0,
                forall|j: int| 1 <= j < i && j < self.chain@.len() ==> #[trigger] links(self.chain@[j - 1], self.chain@[j]),
            decreases self.chain@.len() - i,
        {
            let current = &self.chain[i];
            let previous = &self.chain[i - 1];
            let recomputed = current.calculate_hash();
            if !current.hash.equals(&recomputed) {
                assert(!links(self.chain@[i - 1], self.chain@[i as int]));
                return false;
            }
            if !crate::block::hash_meets_difficulty(&current.hash, current.difficulty) {
                assert(!links(self.chain@[i - 1], self.chain@[i as int]));
                return false;
            }
            if !current.prev_hash.equals(&previous.hash) {
                assert(!links(self.chain@[i - 1], self.chain@[i as int]));
                return false;
            }
            let mut t: usize = 0;
            while t < current.transactions.len()
                invariant
                    1 <= i < self.chain@.len(),
                    *current == self.chain@[i as int],
                    t <= current.transactions@.len(),
                    forall|u: int| 0 <= u < t ==> tx_signed(#[trigger] current.transactions@[u]),
                decreases current.transactions@.len() - t,
            {
                if !tx_has_signatures(&current.transactions[t]) {
                    assert(!links(self.chain@[i - 1], self.chain@[i as int]));
                    return false;
                }
                t = t + 1;
            }
            assert(links(self.chain@[i - 1], self.chain@[i as int]));
            i = i + 1;
        }
        true
    }
}

} // verus!
