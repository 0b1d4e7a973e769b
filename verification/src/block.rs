//! Blocks: an immutable-once-mined container of transactions, linked to
//! the previous block's hash and committed to by a Merkle root, owning the
//! proof-of-work nonce search.
use vstd::prelude::*;

use crate::ambient::now_ts;
use crate::hashing::{sha256, sha256_of};
use crate::merkle::{merkle_root_of, MerkleTree};
use crate::numeric::{
    dec_digits, dec_signed, i64_to_decimal, leading_128, leading_u128, target_for, target_of,
    u64_to_decimal,
};
use crate::transaction::{tx_valid, Transaction};

verus! {

#[derive(Debug, Clone)]
pub struct Block {
    pub index: u64,
    pub timestamp: i64,
    pub transactions: Vec<Transaction>,
    pub previous_hash: Vec<u8>,
    pub hash: Vec<u8>,
    pub nonce: u64,
    pub difficulty: u32,
    pub merkle_root: Vec<u8>,
}

/// The canonical bytes hashed into a block's hash: its six inputs, each in
/// a fixed deterministic form, in a fixed order. The stored hash itself is
/// not an input.
pub open spec fn block_bytes(
    index: u64,
    timestamp: i64,
    merkle_root: Seq<u8>,
    previous_hash: Seq<u8>,
    nonce: u64,
    difficulty: u32,
) -> Seq<u8> {
    dec_digits(index as nat) + dec_signed(timestamp as int) + merkle_root + previous_hash
        + dec_digits(nonce as nat) + dec_digits(difficulty as nat)
}

/// The hash a block's fields determine.
pub open spec fn block_hash_of(b: Block) -> Seq<u8> {
    sha256_of(
        block_bytes(b.index, b.timestamp, b.merkle_root@, b.previous_hash@, b.nonce, b.difficulty),
    )
}

/// Law: the block hash is a deterministic pure function of its six
/// inputs — two blocks that agree on them hash alike, whatever else
/// (stored hash, transaction list) differs.
pub proof fn lemma_block_hash_deterministic(a: Block, b: Block)
    requires
        a.index == b.index,
        a.timestamp == b.timestamp,
        a.merkle_root@ == b.merkle_root@,
        a.previous_hash@ == b.previous_hash@,
        a.nonce == b.nonce,
        a.difficulty == b.difficulty,
    ensures
        block_hash_of(a) == block_hash_of(b),
{
}

/// The proof-of-work criterion: the hash's leading 128 bits, read as an
/// unsigned integer, are at most the difficulty's target.
pub open spec fn meets_target(hash: Seq<u8>, difficulty: u32) -> bool {
    leading_128(hash) <= target_of(difficulty)
}

/// Every transaction of the list is valid.
pub open spec fn txs_all_valid(txs: Seq<Transaction>) -> bool {
    forall|i: int| 0 <= i < txs.len() ==> tx_valid(#[trigger] txs[i])
}

/// A block whose stored hash is the 32-byte hash of its own fields.
pub open spec fn block_hash_ok(b: Block) -> bool {
    &&& b.hash@ == block_hash_of(b)
    &&& b.hash@.len() == 32
}

impl Block {
    /// Recomputes the hash of the block's six inputs, exactly as
    /// `block_hash_of` states it.
    pub fn calculate_hash(&self) -> (h: Vec<u8>)
        ensures
            h@ == block_hash_of(*self),
            h@.len() == 32,
    {
        let mut data = u64_to_decimal(self.index);
        let mut time_digits = i64_to_decimal(self.timestamp);
        data.append(&mut time_digits);
        data.extend_from_slice(self.merkle_root.as_slice());
        data.extend_from_slice(self.previous_hash.as_slice());
        let mut nonce_digits = u64_to_decimal(self.nonce);
        data.append(&mut nonce_digits);
        let mut difficulty_digits = u64_to_decimal(self.difficulty as u64);
        data.append(&mut difficulty_digits);
        proof {
            assert(data@ =~= block_bytes(
                self.index,
                self.timestamp,
                self.merkle_root@,
                self.previous_hash@,
                self.nonce,
                self.difficulty,
            ));
        }
        sha256(data.as_slice())
    }

    /// Builds a block at an explicit creation time: the Merkle root is
    /// computed over the transactions, the nonce starts at zero, and the
    /// stored hash is the hash of the fields.
    pub fn new_at(
        index: u64,
        transactions: Vec<Transaction>,
        previous_hash: Vec<u8>,
        difficulty: u32,
        timestamp: i64,
    ) -> (b: Block)
        requires
            transactions@.len() < usize::MAX - 1,
        ensures
            b.index == index,
            b.timestamp == timestamp,
            b.transactions@ == transactions@,
            b.previous_hash@ == previous_hash@,
            b.nonce == 0,
            b.difficulty == difficulty,
            b.merkle_root@ == merkle_root_of(transactions@),
            block_hash_ok(b),
    {
        let tree = MerkleTree::new(&transactions);
        let mut block = Block {
            index,
            timestamp,
            transactions,
            previous_hash,
            hash: Vec::new(),
            nonce: 0,
            difficulty,
            merkle_root: tree.root,
        };
        let h = block.calculate_hash();
        block.hash = h;
        block
    }

    /// Builds a block stamped at the current clock reading.
    pub fn new(
        index: u64,
        transactions: Vec<Transaction>,
        previous_hash: Vec<u8>,
        difficulty: u32,
    ) -> (b: Block)
        requires
            transactions@.len() < usize::MAX - 1,
        ensures
            b.index == index,
            b.transactions@ == transactions@,
            b.previous_hash@ == previous_hash@,
            b.nonce == 0,
            b.difficulty == difficulty,
            b.merkle_root@ == merkle_root_of(transactions@),
            block_hash_ok(b),
    {
        let now = now_ts();
        Self::new_at(index, transactions, previous_hash, difficulty, now)
    }

    /// Searches nonces upward from the current one until the hash meets
    /// the target. Returns whether a satisfying nonce was found before the
    /// nonce space ran out; when none was, no nonce from the starting one
    /// on satisfies the target.
    pub fn mine_block(&mut self, difficulty: u32) -> (found: bool)
        requires
            1 <= difficulty <= 128,
            block_hash_ok(*old(self)),
        ensures
            final(self).index == old(self).index,
            final(self).timestamp == old(self).timestamp,
            final(self).transactions == old(self).transactions,
            final(self).previous_hash == old(self).previous_hash,
            final(self).difficulty == old(self).difficulty,
            final(self).merkle_root == old(self).merkle_root,
            final(self).nonce >= old(self).nonce,
            block_hash_ok(*final(self)),
            found == meets_target(final(self).hash@, difficulty),
            !found ==> forall|n: u64|
                old(self).nonce <= n ==> !meets_target(
                    sha256_of(
                        #[trigger] block_bytes(
                            old(self).index,
                            old(self).timestamp,
                            old(self).merkle_root@,
                            old(self).previous_hash@,
                            n,
                            old(self).difficulty,
                        ),
                    ),
                    difficulty,
                ),
    {
        let target = target_for(difficulty);
        let mut found = leading_u128(&self.hash) <= target;
        while !found && self.nonce < u64::MAX
            invariant
                1 <= difficulty <= 128,
                target as int == target_of(difficulty),
                self.index == old(self).index,
                self.timestamp == old(self).timestamp,
                self.transactions == old(self).transactions,
                self.previous_hash == old(self).previous_hash,
                self.difficulty == old(self).difficulty,
                self.merkle_root == old(self).merkle_root,
                self.nonce >= old(self).nonce,
                block_hash_ok(*self),
                found == meets_target(self.hash@, difficulty),
                !found ==> forall|n: u64|
                    old(self).nonce <= n < self.nonce ==> !meets_target(
                        sha256_of(
                            #[trigger] block_bytes(
                                old(self).index,
                                old(self).timestamp,
                                old(self).merkle_root@,
                                old(self).previous_hash@,
                                n,
                                old(self).difficulty,
                            ),
                        ),
                        difficulty,
                    ),
            decreases u64::MAX - self.nonce, (if found { 0int } else { 1int }),
        {
            self.nonce = self.nonce + 1;
            let h = self.calculate_hash();
            self.hash = h;
            found = leading_u128(&self.hash) <= target;
        }
        found
    }

    /// Whether every contained transaction is valid.
    pub fn has_valid_transactions(&self) -> (r: bool)
        ensures
            r == txs_all_valid(self.transactions@),
    {
        let mut i: usize = 0;
        while i < self.transactions.len()
            invariant
                0 <= i <= self.transactions@.len(),
                forall|j: int| 0 <= j < i ==> tx_valid(#[trigger] self.transactions@[j]),
            decreases self.transactions@.len() - i,
        {
            if !self.transactions[i].is_valid() {
                return false;
            }
            i = i + 1;
        }
        true
    }
}

} // verus!
