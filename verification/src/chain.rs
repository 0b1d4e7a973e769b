//! The ledger: a hash-linked chain of blocks with derived account
//! balances, a fee-ordered mempool, proof-of-work mining and difficulty
//! adjustment.
use vstd::prelude::*;

use crate::ambient::{new_uuid, now_ts};
use crate::balances::{
    adjust_balance, bal_keys_unique, bal_lookup, clip_i128, lemma_replay_concat, lookup_balance,
    replay_txs, tx_effect,
};
use crate::block::{
    block_hash_of, block_hash_ok, meets_target, txs_all_valid, Block,
};
use crate::merkle::{bytes_eq, merkle_root_of, MerkleTree};
use crate::numeric::leading_u128;
use crate::transaction::{amount_sum, system_sender, tx_size, tx_valid, Transaction, TX_LIFETIME};

verus! {

/// Divisor of the minimum admissible fee rate: a transaction must pay at
/// least one unit of fee for every `MIN_FEE_RATE_DIVISOR` bytes of its
/// estimated size.
pub const MIN_FEE_RATE_DIVISOR: u64 = 100000;

/// Most transactions a block may carry.
pub const MAX_BLOCK_TRANSACTIONS: usize = 1000;

/// Largest aggregate transaction value a block may carry.
pub const MAX_BLOCK_VALUE: u64 = 1000000;

/// The mempool's byte-size ceiling.
pub const MEMPOOL_CAPACITY_BYTES: u128 = 5000000;

/// Blocks between difficulty re-evaluations.
pub const DIFFICULTY_ADJUSTMENT_INTERVAL: u64 = 10;

/// The proof-of-work target reads the hash's leading 128 bits, so the
/// difficulty cannot exceed 128.
pub const MAX_DIFFICULTY: u32 = 128;

/// Why a transaction was refused admission to the mempool.
#[derive(Debug, Clone, Copy, PartialEq, Eq, Structural)]
pub enum AdmissionError {
    InvalidTransaction,
    InsufficientBalance,
    DoubleSpendRisk,
    Duplicate,
    Expired,
    FeeTooLow,
    MempoolFull,
}

/// Why a replace-by-fee was refused.
#[derive(Debug, Clone, Copy, PartialEq, Eq, Structural)]
pub enum ReplaceError {
    InvalidTransaction,
    InsufficientBalance,
    NotFound,
    FeeNotHigher,
    MempoolFull,
}

/// Why mining did not append a block.
#[derive(Debug, Clone, Copy, PartialEq, Eq, Structural)]
pub enum MiningError {
    InvalidMinedBlock,
    NonceSpaceExhausted,
}

/// Fee-rate order: `a`'s fee per byte is at least `b`'s, compared without
/// division.
pub open spec fn rate_ge(a: Transaction, b: Transaction) -> bool {
    a.fee * tx_size(b) >= b.fee * tx_size(a)
}

/// The pool is sorted by descending fee rate.
pub open spec fn pool_sorted(pool: Seq<Transaction>) -> bool {
    forall|i: int, j: int|
        0 <= i < j < pool.len() ==> rate_ge(#[trigger] pool[i], #[trigger] pool[j])
}

/// No two pool entries share an identifier.
pub open spec fn pool_ids_unique(pool: Seq<Transaction>) -> bool {
    forall|i: int, j: int|
        0 <= i < j < pool.len() ==> (#[trigger] pool[i]).id@ != (#[trigger] pool[j]).id@
}

/// Every pool entry is a valid transaction.
pub open spec fn pool_all_valid(pool: Seq<Transaction>) -> bool {
    forall|i: int| 0 <= i < pool.len() ==> tx_valid(#[trigger] pool[i])
}

/// The summed estimated sizes of the pool's entries.
pub open spec fn pool_sizes(pool: Seq<Transaction>) -> int
    decreases pool.len(),
{
    if pool.len() == 0 {
        0
    } else {
        pool_sizes(pool.drop_last()) + tx_size(pool.last())
    }
}

/// The mempool invariant: fee-ordered, duplicate-free, all entries valid,
/// byte total tracked exactly and within the ceiling.
pub open spec fn pool_wf(pool: Seq<Transaction>, total: int) -> bool {
    &&& pool_sorted(pool)
    &&& pool_ids_unique(pool)
    &&& pool_all_valid(pool)
    &&& total == pool_sizes(pool)
    &&& total <= MEMPOOL_CAPACITY_BYTES
}

/// The structural chain invariant: indexes count up from zero, each block
/// links to its predecessor's 32-byte hash, and timestamps strictly
/// increase.
pub open spec fn chain_linked(chain: Seq<Block>) -> bool {
    &&& forall|i: int| 0 <= i < chain.len() ==> (#[trigger] chain[i]).index == i
    &&& forall|i: int| 0 <= i < chain.len() ==> (#[trigger] chain[i]).hash@.len() == 32
    &&& forall|i: int|
        1 <= i < chain.len() ==> (#[trigger] chain[i]).previous_hash@ == chain[i - 1].hash@
    &&& forall|i: int|
        1 <= i < chain.len() ==> (#[trigger] chain[i]).timestamp > chain[i - 1].timestamp
}

/// All transactions of the chain, in block order.
pub open spec fn chain_txs(chain: Seq<Block>) -> Seq<Transaction>
    decreases chain.len(),
{
    if chain.len() == 0 {
        Seq::empty()
    } else {
        chain_txs(chain.drop_last()) + chain.last().transactions@
    }
}

/// The balance replay derives for `addr`: every chain transaction applied
/// in order to an empty ledger.
pub open spec fn replay_balance(chain: Seq<Block>, addr: Seq<char>) -> int {
    replay_txs(chain_txs(chain), addr, 0)
}

/// Law: balance replay is a function of the chain alone, so two replays
/// of the same chain agree on every address.
pub proof fn lemma_replay_idempotent(
    chain: Seq<Block>,
    b1: Seq<(String, i128)>,
    b2: Seq<(String, i128)>,
)
    requires
        forall|a: Seq<char>| #[trigger] bal_lookup(b1, a) == replay_balance(chain, a),
        forall|a: Seq<char>| #[trigger] bal_lookup(b2, a) == replay_balance(chain, a),
    ensures
        forall|a: Seq<char>| #[trigger] bal_lookup(b1, a) == bal_lookup(b2, a),
{
}

/// The consensus rules a candidate block must meet against the chain
/// head, at the ledger's current difficulty.
pub open spec fn valid_successor(b: Block, prev: Block, difficulty: u32) -> bool {
    &&& b.index == prev.index + 1
    &&& b.previous_hash@ == prev.hash@
    &&& b.hash@ == block_hash_of(b)
    &&& txs_all_valid(b.transactions@)
    &&& b.merkle_root@ == merkle_root_of(b.transactions@)
    &&& b.timestamp > prev.timestamp
    &&& b.transactions@.len() <= MAX_BLOCK_TRANSACTIONS
    &&& amount_sum(b.transactions@) <= MAX_BLOCK_VALUE
    &&& meets_target(b.hash@, difficulty)
}

/// Every adjacent pair of the chain satisfies the successor rules, at the
/// current difficulty.
pub open spec fn chain_valid(chain: Seq<Block>, difficulty: u32) -> bool {
    forall|i: int|
        1 <= i < chain.len() ==> valid_successor(#[trigger] chain[i], chain[i - 1], difficulty)
}

pub struct Blockchain {
    pub chain: Vec<Block>,
    pub difficulty: u32,
    pub pending_transactions: Vec<Transaction>,
    pub mining_reward: u64,
    pub balances: Vec<(String, i128)>,
    pub target_block_time: i64,
    pub mempool: Vec<Transaction>,
    pub block_time_window: Vec<i64>,
    pub difficulty_adjustment_interval: u64,
    pub max_mempool_size: usize,
    pub max_mempool_size_bytes: u128,
    pub mempool_size_bytes: u128,
}

/// Everything but the balances agrees.
pub open spec fn same_except_balances(a: Blockchain, b: Blockchain) -> bool {
    &&& a.chain == b.chain
    &&& a.difficulty == b.difficulty
    &&& a.pending_transactions == b.pending_transactions
    &&& a.mining_reward == b.mining_reward
    &&& a.target_block_time == b.target_block_time
    &&& a.mempool == b.mempool
    &&& a.block_time_window == b.block_time_window
    &&& a.difficulty_adjustment_interval == b.difficulty_adjustment_interval
    &&& a.max_mempool_size == b.max_mempool_size
    &&& a.max_mempool_size_bytes == b.max_mempool_size_bytes
    &&& a.mempool_size_bytes == b.mempool_size_bytes
}

/// Everything but the mempool and its tracked byte total agrees.
pub open spec fn same_except_mempool(a: Blockchain, b: Blockchain) -> bool {
    &&& a.chain == b.chain
    &&& a.difficulty == b.difficulty
    &&& a.pending_transactions == b.pending_transactions
    &&& a.mining_reward == b.mining_reward
    &&& a.target_block_time == b.target_block_time
    &&& a.balances == b.balances
    &&& a.block_time_window == b.block_time_window
    &&& a.difficulty_adjustment_interval == b.difficulty_adjustment_interval
    &&& a.max_mempool_size == b.max_mempool_size
    &&& a.max_mempool_size_bytes == b.max_mempool_size_bytes
}

/// Everything but the pending-transaction buffer agrees.
pub open spec fn same_except_pending(a: Blockchain, b: Blockchain) -> bool {
    &&& a.chain == b.chain
    &&& a.difficulty == b.difficulty
    &&& a.mining_reward == b.mining_reward
    &&& a.target_block_time == b.target_block_time
    &&& a.balances == b.balances
    &&& a.mempool == b.mempool
    &&& a.block_time_window == b.block_time_window
    &&& a.difficulty_adjustment_interval == b.difficulty_adjustment_interval
    &&& a.max_mempool_size == b.max_mempool_size
    &&& a.max_mempool_size_bytes == b.max_mempool_size_bytes
    &&& a.mempool_size_bytes == b.mempool_size_bytes
}

impl Blockchain {
    /// The ledger invariant that every operation preserves.
    pub open spec fn wf(&self) -> bool {
        &&& self.chain@.len() >= 1
        &&& chain_linked(self.chain@)
        &&& 1 <= self.difficulty <= MAX_DIFFICULTY
        &&& bal_keys_unique(self.balances@)
        &&& pool_wf(self.mempool@, self.mempool_size_bytes as int)
        &&& self.max_mempool_size_bytes == MEMPOOL_CAPACITY_BYTES
        &&& self.difficulty_adjustment_interval == DIFFICULTY_ADJUSTMENT_INTERVAL
        &&& txs_all_valid(self.pending_transactions@)
    }

    /// Builds a ledger whose chain holds only the genesis block: index
    /// zero, no transactions, the single-byte sentinel previous hash.
    pub fn new(difficulty: u32, mining_reward: u64, target_block_time: i64) -> (bc: Blockchain)
        requires
            1 <= difficulty <= MAX_DIFFICULTY,
        ensures
            bc.wf(),
            bc.difficulty == difficulty,
            bc.mining_reward == mining_reward,
            bc.target_block_time == target_block_time,
            bc.chain@.len() == 1,
            bc.chain@[0].transactions@ == Seq::<Transaction>::empty(),
            bc.chain@[0].previous_hash@ == seq![48u8],
            bc.mempool@ == Seq::<Transaction>::empty(),
            bc.pending_transactions@ == Seq::<Transaction>::empty(),
            bc.block_time_window@ == Seq::<i64>::empty(),
            forall|a: Seq<char>| #[trigger] bal_lookup(bc.balances@, a) == 0,
    {
        let mut sentinel: Vec<u8> = Vec::new();
        sentinel.push(48u8);
        proof {
            assert(sentinel@ =~= seq![48u8]);
        }
        let genesis = Block::new(0, Vec::new(), sentinel, difficulty);
        let mut chain: Vec<Block> = Vec::new();
        chain.push(genesis);
        let bc = Blockchain {
            chain,
            difficulty,
            pending_transactions: Vec::new(),
            mining_reward,
            balances: Vec::new(),
            target_block_time,
            mempool: Vec::new(),
            block_time_window: Vec::new(),
            difficulty_adjustment_interval: DIFFICULTY_ADJUSTMENT_INTERVAL,
            max_mempool_size: 1000,
            max_mempool_size_bytes: MEMPOOL_CAPACITY_BYTES,
            mempool_size_bytes: 0,
        };
        bc
    }

    /// The chain head.
    pub fn get_latest_block(&self) -> (b: &Block)
        requires
            self.chain@.len() >= 1,
        ensures
            *b == self.chain@.last(),
    {
        &self.chain[self.chain.len() - 1]
    }

    /// The recorded balance of an address, zero when unknown.
    pub fn get_balance(&self, address: &str) -> (r: i128)
        ensures
            r as int == bal_lookup(self.balances@, address@),
    {
        let key = address.to_owned();
        lookup_balance(&self.balances, &key)
    }

    /// Credits `address` with `amount` out of band (a faucet for seeding
    /// balances), saturating at the range's end.
    pub fn add_balance(&mut self, address: &str, amount: u64)
        requires
            bal_keys_unique(old(self).balances@),
        ensures
            bal_keys_unique(final(self).balances@),
            same_except_balances(*final(self), *old(self)),
            bal_lookup(final(self).balances@, address@) == clip_i128(
                bal_lookup(old(self).balances@, address@) + amount,
            ),
            forall|a: Seq<char>|
                a != address@ ==> bal_lookup(final(self).balances@, a) == #[trigger] bal_lookup(
                    old(self).balances@,
                    a,
                ),
    {
        let key = address.to_owned();
        adjust_balance(&mut self.balances, &key, amount as i128);
    }

    /// Validates a transaction and stages it in the legacy pending buffer;
    /// admission requires validity and a sender balance covering the
    /// amount.
    pub fn add_transaction(&mut self, transaction: Transaction) -> (r: Result<(), AdmissionError>)
        ensures
            same_except_pending(*final(self), *old(self)),
            r == Ok::<(), AdmissionError>(()) ==> tx_valid(transaction) && bal_lookup(
                old(self).balances@,
                transaction.from@,
            ) >= transaction.amount && final(self).pending_transactions@ == old(
                self,
            ).pending_transactions@.push(transaction),
            r == Err::<(), AdmissionError>(AdmissionError::InvalidTransaction) <==> !tx_valid(
                transaction,
            ),
            r == Err::<(), AdmissionError>(AdmissionError::InsufficientBalance) <==> (tx_valid(
                transaction,
            ) && bal_lookup(old(self).balances@, transaction.from@) < transaction.amount),
            r is Err ==> final(self).pending_transactions == old(self).pending_transactions,
            r == Ok::<(), AdmissionError>(()) || r == Err::<(), AdmissionError>(
                AdmissionError::InvalidTransaction,
            ) || r == Err::<(), AdmissionError>(AdmissionError::InsufficientBalance),
    {
        if !transaction.is_valid() {
            return Err(AdmissionError::InvalidTransaction);
        }
        let sender_balance = self.get_balance(self.from_str_ref(&transaction));
        if sender_balance < transaction.amount as i128 {
            return Err(AdmissionError::InsufficientBalance);
        }
        self.pending_transactions.push(transaction);
        Ok(())
    }

    /// The sender address of a transaction, as a borrowed string slice.
    fn from_str_ref<'a>(&self, t: &'a Transaction) -> (r: &'a str)
        ensures
            r@ == t.from@,
    {
        t.from.as_str()
    }

    /// Replays the transactions of one block over the balances: each
    /// sender debited, each recipient credited, in order.
    fn apply_block_balances(balances: &mut Vec<(String, i128)>, txs: &Vec<Transaction>)
        requires
            bal_keys_unique(old(balances)@),
        ensures
            bal_keys_unique(final(balances)@),
            forall|a: Seq<char>|
                #[trigger] bal_lookup(final(balances)@, a) == replay_txs(
                    txs@,
                    a,
                    bal_lookup(old(balances)@, a),
                ),
    {
        let mut j: usize = 0;
        proof {
            assert(txs@.take(0) =~= Seq::<Transaction>::empty());
        }
        while j < txs.len()
            invariant
                0 <= j <= txs@.len(),
                bal_keys_unique(balances@),
                forall|a: Seq<char>|
                    #[trigger] bal_lookup(balances@, a) == replay_txs(
                        txs@.take(j as int),
                        a,
                        bal_lookup(old(balances)@, a),
                    ),
            decreases txs@.len() - j,
        {
            let t = &txs[j];
            let amount = t.amount;
            let ghost pre = balances@;
            adjust_balance(balances, &t.from, -(amount as i128));
            let ghost mid = balances@;
            adjust_balance(balances, &t.to, amount as i128);
            proof {
                let tj = txs@[j as int];
                assert(txs@.take(j as int + 1) =~= txs@.take(j as int) + seq![tj]);
                assert forall|a: Seq<char>| #[trigger] bal_lookup(balances@, a) == replay_txs(
                    txs@.take(j as int + 1),
                    a,
                    bal_lookup(old(balances)@, a),
                ) by {
                    let st = bal_lookup(old(balances)@, a);
                    lemma_replay_concat(txs@.take(j as int), seq![tj], a, st);
                    assert(seq![tj].drop_first() =~= Seq::<Transaction>::empty());
                    assert(seq![tj][0] == tj);
                    assert(seq![tj].len() == 1);
                    let before = replay_txs(txs@.take(j as int), a, st);
                    assert(replay_txs(seq![tj], a, before) == replay_txs(
                        seq![tj].drop_first(),
                        a,
                        tx_effect(before, tj, a),
                    ));
                    assert(bal_lookup(pre, a) == before);
                    assert(replay_txs(seq![tj], a, before) == tx_effect(before, tj, a));
                    if a == tj.from@ {
                        assert(bal_lookup(mid, a) == clip_i128(before - amount));
                    } else {
                        assert(bal_lookup(mid, a) == before);
                    }
                    if a == tj.to@ {
                        assert(bal_lookup(balances@, a) == clip_i128(bal_lookup(mid, a) + amount));
                    } else {
                        assert(bal_lookup(balances@, a) == bal_lookup(mid, a));
                    }
                }
            }
            j = j + 1;
        }
        proof {
            assert(txs@.take(txs@.len() as int) =~= txs@);
        }
    }

    /// Rebuilds every balance from scratch by replaying the whole chain.
    pub fn recalculate_balances(&mut self)
        requires
            bal_keys_unique(old(self).balances@),
        ensures
            bal_keys_unique(final(self).balances@),
            same_except_balances(*final(self), *old(self)),
            forall|a: Seq<char>|
                #[trigger] bal_lookup(final(self).balances@, a) == replay_balance(
                    old(self).chain@,
                    a,
                ),
    {
        self.balances = Vec::new();
        let mut b: usize = 0;
        proof {
            assert(self.chain@.take(0) =~= Seq::<Block>::empty());
            assert(chain_txs(Seq::<Block>::empty()) =~= Seq::<Transaction>::empty());
        }
        while b < self.chain.len()
            invariant
                0 <= b <= self.chain@.len(),
                self.chain@ == old(self).chain@,
                same_except_balances(*self, *old(self)),
                bal_keys_unique(self.balances@),
                forall|a: Seq<char>|
                    #[trigger] bal_lookup(self.balances@, a) == replay_txs(
                        chain_txs(self.chain@.take(b as int)),
                        a,
                        0,
                    ),
            decreases self.chain@.len() - b,
        {
            let ghost pre = self.balances@;
            let chain = &self.chain;
            Self::apply_block_balances(&mut self.balances, &chain[b].transactions);
            proof {
                let cb = self.chain@[b as int];
                assert(self.chain@.take(b as int + 1).drop_last() =~= self.chain@.take(b as int));
                assert(chain_txs(self.chain@.take(b as int + 1)) == chain_txs(
                    self.chain@.take(b as int),
                ) + cb.transactions@);
                assert forall|a: Seq<char>| #[trigger] bal_lookup(self.balances@, a) == replay_txs(
                    chain_txs(self.chain@.take(b as int + 1)),
                    a,
                    0,
                ) by {
                    lemma_replay_concat(
                        chain_txs(self.chain@.take(b as int)),
                        cb.transactions@,
                        a,
                        0,
                    );
                    assert(bal_lookup(pre, a) == replay_txs(
                        chain_txs(self.chain@.take(b as int)),
                        a,
                        0,
                    ));
                }
            }
            b = b + 1;
        }
        proof {
            assert(self.chain@.take(self.chain@.len() as int) =~= self.chain@);
        }
    }

    /// Checks a candidate block against the head under the consensus
    /// rules, exactly as `valid_successor` states them, at the ledger's
    /// current difficulty.
    pub fn is_valid_new_block(&self, new_block: &Block, previous_block: &Block) -> (r: bool)
        requires
            1 <= self.difficulty <= MAX_DIFFICULTY,
        ensures
            r == valid_successor(*new_block, *previous_block, self.difficulty),
    {
        if previous_block.index == u64::MAX {
            return false;
        }
        if new_block.index != previous_block.index + 1 {
            return false;
        }
        if !bytes_eq(&new_block.previous_hash, &previous_block.hash) {
            return false;
        }
        let recomputed = new_block.calculate_hash();
        if !bytes_eq(&recomputed, &new_block.hash) {
            return false;
        }
        if !new_block.has_valid_transactions() {
            return false;
        }
        if new_block.transactions.len() > MAX_BLOCK_TRANSACTIONS {
            return false;
        }
        let merkle_tree = MerkleTree::new(&new_block.transactions);
        if !bytes_eq(&new_block.merkle_root, &merkle_tree.root) {
            return false;
        }
        if new_block.timestamp <= previous_block.timestamp {
            return false;
        }
        if !Self::amounts_within_limit(&new_block.transactions) {
            return false;
        }
        let target = crate::numeric::target_for(self.difficulty);
        let leading = leading_u128(&new_block.hash);
        leading <= target
    }

    /// Whether the summed amounts stay within the per-block value limit.
    fn amounts_within_limit(txs: &Vec<Transaction>) -> (r: bool)
        ensures
            r == (amount_sum(txs@) <= MAX_BLOCK_VALUE),
    {
        let mut total: u128 = 0;
        let mut i: usize = 0;
        proof {
            assert(txs@.take(0) =~= Seq::<Transaction>::empty());
        }
        while i < txs.len()
            invariant
                0 <= i <= txs@.len(),
                total as int == amount_sum(txs@.take(i as int)),
                total <= MAX_BLOCK_VALUE,
            decreases txs@.len() - i,
        {
            proof {
                assert(txs@.take(i as int + 1).drop_last() =~= txs@.take(i as int));
                assert(txs@.take(i as int + 1).last() == txs@[i as int]);
            }
            let amount = txs[i].amount;
            if amount as u128 > MAX_BLOCK_VALUE as u128 - total {
                proof {
                    assert(amount_sum(txs@.take(i as int + 1)) == total + amount);
                    lemma_amount_sum_grows(txs@, i as int + 1, txs@.len() as int);
                    assert(txs@.take(txs@.len() as int) =~= txs@);
                }
                return false;
            }
            total = total + amount as u128;
            i = i + 1;
        }
        proof {
            assert(txs@.take(txs@.len() as int) =~= txs@);
        }
        true
    }

    /// Applies the successor rules pairwise across the whole chain.
    pub fn is_chain_valid(&self) -> (r: bool)
        requires
            1 <= self.difficulty <= MAX_DIFFICULTY,
        ensures
            r == chain_valid(self.chain@, self.difficulty),
    {
        let mut i: usize = 1;
        while i < self.chain.len()
            invariant
                1 <= i,
                i <= self.chain@.len() || self.chain@.len() < 1,
                1 <= self.difficulty <= MAX_DIFFICULTY,
                forall|j: int|
                    1 <= j < i && j < self.chain@.len() ==> valid_successor(
                        #[trigger] self.chain@[j],
                        self.chain@[j - 1],
                        self.difficulty,
                    ),
            decreases self.chain@.len() - i,
        {
            if !self.is_valid_new_block(&self.chain[i], &self.chain[i - 1]) {
                return false;
            }
            i = i + 1;
        }
        true
    }

    /// The whole-chain validity check, with each block's transactions
    /// re-checked individually; decides the same predicate as
    /// `is_chain_valid`.
    pub fn validate_chain(&self) -> (r: bool)
        requires
            1 <= self.difficulty <= MAX_DIFFICULTY,
        ensures
            r == chain_valid(self.chain@, self.difficulty),
    {
        let mut i: usize = 1;
        while i < self.chain.len()
            invariant
                1 <= i,
                i <= self.chain@.len() || self.chain@.len() < 1,
                1 <= self.difficulty <= MAX_DIFFICULTY,
                forall|j: int|
                    1 <= j < i && j < self.chain@.len() ==> valid_successor(
                        #[trigger] self.chain@[j],
                        self.chain@[j - 1],
                        self.difficulty,
                    ),
            decreases self.chain@.len() - i,
        {
            if !self.is_valid_new_block(&self.chain[i], &self.chain[i - 1]) {
                return false;
            }
            if !self.chain[i].has_valid_transactions() {
                return false;
            }
            i = i + 1;
        }
        true
    }

    /// The chain's transactions that `address` sent or received, in chain
    /// order.
    pub fn get_transactions_for_address(&self, address: &str) -> (r: Vec<Transaction>)
        ensures
            r@ == addr_txs(self.chain@, address@),
    {
        let key = address.to_owned();
        let mut out: Vec<Transaction> = Vec::new();
        let mut b: usize = 0;
        proof {
            assert(self.chain@.take(0) =~= Seq::<Block>::empty());
            assert(out@ =~= addr_txs(self.chain@.take(0), address@));
        }
        while b < self.chain.len()
            invariant
                0 <= b <= self.chain@.len(),
                key@ == address@,
                out@ == addr_txs(self.chain@.take(b as int), address@),
            decreases self.chain@.len() - b,
        {
            let block = &self.chain[b];
            let ghost block_start = out@;
            let mut j: usize = 0;
            proof {
                assert(block.transactions@.take(0) =~= Seq::<Transaction>::empty());
                assert(block_start + block.transactions@.take(0).filter(touches(address@))
                    =~= block_start);
            }
            while j < block.transactions.len()
                invariant
                    0 <= j <= block.transactions@.len(),
                    key@ == address@,
                    out@ == block_start + block.transactions@.take(j as int).filter(
                        touches(address@),
                    ),
                decreases block.transactions@.len() - j,
            {
                let t = &block.transactions[j];
                proof {
                    let pred = touches(address@);
                    let el = block.transactions@[j as int];
                    let prefix = block.transactions@.take(j as int);
                    assert(block.transactions@.take(j as int + 1) =~= prefix + seq![el]);
                    Seq::<Transaction>::filter_distributes_over_add(prefix, seq![el], pred);
                    reveal_with_fuel(Seq::filter, 3);
                    assert(seq![el].drop_last() =~= Seq::<Transaction>::empty());
                    assert(seq![el].last() == el);
                    assert(Seq::<Transaction>::empty().filter(pred)
                        =~= Seq::<Transaction>::empty());
                    assert(seq![el].filter(pred) == (if pred(el) {
                        Seq::<Transaction>::empty().push(el)
                    } else {
                        Seq::<Transaction>::empty()
                    }));
                    assert(pred(el) == (el.from@ == address@ || el.to@ == address@));
                }
                if t.from == key || t.to == key {
                    out.push(t.duplicate());
                    proof {
                        assert(out@ =~= block_start + block.transactions@.take(j as int + 1).filter(
                            touches(address@),
                        ));
                    }
                } else {
                    proof {
                        assert(out@ =~= block_start + block.transactions@.take(j as int + 1).filter(
                            touches(address@),
                        ));
                    }
                }
                j = j + 1;
            }
            proof {
                assert(block.transactions@.take(block.transactions@.len() as int)
                    =~= block.transactions@);
                assert(self.chain@.take(b as int + 1).drop_last() =~= self.chain@.take(b as int));
                assert(out@ =~= addr_txs(self.chain@.take(b as int + 1), address@));
            }
            b = b + 1;
        }
        proof {
            assert(self.chain@.take(self.chain@.len() as int) =~= self.chain@);
        }
        out
    }
}

/// Whether a transaction touches `addr` as sender or recipient.
pub open spec fn touches(addr: Seq<char>) -> spec_fn(Transaction) -> bool {
    |t: Transaction| t.from@ == addr || t.to@ == addr
}

/// The chain's transactions that touch `addr`, in chain order.
pub open spec fn addr_txs(chain: Seq<Block>, addr: Seq<char>) -> Seq<Transaction>
    decreases chain.len(),
{
    if chain.len() == 0 {
        Seq::empty()
    } else {
        addr_txs(chain.drop_last(), addr) + chain.last().transactions@.filter(touches(addr))
    }
}

/// The summed amounts only grow along a prefix.
proof fn lemma_amount_sum_grows(txs: Seq<Transaction>, i: int, j: int)
    requires
        0 <= i <= j <= txs.len(),
    ensures
        amount_sum(txs.take(j)) >= amount_sum(txs.take(i)),
    decreases j - i,
{
    if i < j {
        lemma_amount_sum_grows(txs, i, j - 1);
        assert(txs.take(j).drop_last() =~= txs.take(j - 1));
    }
}

/// Entry sizes are nonnegative (at least the fixed base, in fact).
proof fn lemma_pool_sizes_nonneg(pool: Seq<Transaction>)
    ensures
        pool_sizes(pool) >= 0,
    decreases pool.len(),
{
    if pool.len() > 0 {
        lemma_pool_sizes_nonneg(pool.drop_last());
    }
}

/// Summed sizes split over concatenation.
proof fn lemma_pool_sizes_concat(a: Seq<Transaction>, b: Seq<Transaction>)
    ensures
        pool_sizes(a + b) == pool_sizes(a) + pool_sizes(b),
    decreases b.len(),
{
    if b.len() == 0 {
        assert(a + b =~= a);
    } else {
        assert((a + b).drop_last() =~= a + b.drop_last());
        assert((a + b).last() == b.last());
        lemma_pool_sizes_concat(a, b.drop_last());
    }
}

/// Each entry's size is within the pool's summed sizes.
proof fn lemma_pool_entry_size(pool: Seq<Transaction>, i: int)
    requires
        0 <= i < pool.len(),
    ensures
        tx_size(pool[i]) <= pool_sizes(pool),
    decreases pool.len(),
{
    lemma_pool_sizes_nonneg(pool.drop_last());
    if i < pool.len() - 1 {
        lemma_pool_entry_size(pool.drop_last(), i);
    }
}

/// Fee-rate order is transitive; sizes are positive, so the cross
/// products can be chained.
proof fn lemma_rate_trans(a: Transaction, b: Transaction, c: Transaction)
    requires
        rate_ge(a, b),
        rate_ge(b, c),
    ensures
        rate_ge(a, c),
{
    let fa = a.fee as int;
    let fb = b.fee as int;
    let fc = c.fee as int;
    let sa = tx_size(a);
    let sb = tx_size(b);
    let sc = tx_size(c);
    assert(sa > 0 && sb > 0 && sc > 0);
    assert(fa * sc >= fc * sa) by (nonlinear_arith)
        requires
            fa * sb >= fb * sa,
            fb * sc >= fc * sb,
            sa > 0,
            sb > 0,
            sc > 0,
            fa >= 0,
            fb >= 0,
            fc >= 0,
    ;
}

/// Eviction from the low-fee tail until `need` more bytes fit under the
/// ceiling, or nothing is left.
pub open spec fn evict_spec(pool: Seq<Transaction>, total: int, need: int) -> (Seq<Transaction>, int)
    decreases pool.len(),
{
    if total + need <= MEMPOOL_CAPACITY_BYTES || pool.len() == 0 {
        (pool, total)
    } else {
        evict_spec(pool.drop_last(), total - tx_size(pool.last()), need)
    }
}

/// Insertion keeping the descending fee-rate order, after existing
/// entries of equal rate.
pub open spec fn insert_by_rate(pool: Seq<Transaction>, t: Transaction) -> Seq<Transaction>
    decreases pool.len(),
{
    if pool.len() == 0 {
        seq![t]
    } else if rate_ge(pool[0], t) {
        seq![pool[0]] + insert_by_rate(pool.drop_first(), t)
    } else {
        seq![t] + pool
    }
}

proof fn lemma_insert_by_rate_at(pool: Seq<Transaction>, t: Transaction, p: int)
    requires
        0 <= p <= pool.len(),
        forall|i: int| 0 <= i < p ==> rate_ge(#[trigger] pool[i], t),
        p < pool.len() ==> !rate_ge(pool[p], t),
    ensures
        insert_by_rate(pool, t) == pool.take(p) + seq![t] + pool.skip(p),
    decreases p,
{
    if p == 0 {
        if pool.len() == 0 {
            assert(pool.take(0) + seq![t] + pool.skip(0) =~= seq![t]);
        } else {
            assert(insert_by_rate(pool, t) == seq![t] + pool);
            assert(pool.take(0) + seq![t] + pool.skip(0) =~= seq![t] + pool);
        }
    } else {
        assert(rate_ge(pool[0], t));
        let rest = pool.drop_first();
        assert(forall|i: int| 0 <= i < p - 1 ==> rate_ge(#[trigger] rest[i], t));
        assert(p - 1 < rest.len() ==> !rate_ge(rest[p - 1], t));
        lemma_insert_by_rate_at(rest, t, p - 1);
        assert(seq![pool[0]] + (rest.take(p - 1) + seq![t] + rest.skip(p - 1)) =~= pool.take(p)
            + seq![t] + pool.skip(p));
    }
}

/// Filtering keeps the pool's order, uniqueness and validity.
proof fn lemma_filter_pool_props(pool: Seq<Transaction>, pred: spec_fn(Transaction) -> bool)
    requires
        pool_sorted(pool),
        pool_ids_unique(pool),
        pool_all_valid(pool),
    ensures
        pool_sorted(pool.filter(pred)),
        pool_ids_unique(pool.filter(pred)),
        pool_all_valid(pool.filter(pred)),
        pool_sizes(pool.filter(pred)) <= pool_sizes(pool),
    decreases pool.len(),
{
    reveal_with_fuel(Seq::filter, 2);
    lemma_pool_sizes_nonneg(pool);
    if pool.len() == 0 {
    } else {
        let head = pool.drop_last();
        let last = pool.last();
        assert(forall|i: int, j: int|
            0 <= i < j < head.len() ==> rate_ge(#[trigger] head[i], #[trigger] head[j]));
        assert(forall|i: int, j: int|
            0 <= i < j < head.len() ==> (#[trigger] head[i]).id@ != (#[trigger] head[j]).id@);
        assert(forall|i: int| 0 <= i < head.len() ==> tx_valid(#[trigger] head[i]));
        lemma_filter_pool_props(head, pred);
        let fh = head.filter(pred);
        if pred(last) {
            let full = fh.push(last);
            assert(pool.filter(pred) == full);
            assert forall|k: int| 0 <= k < fh.len() implies rate_ge(#[trigger] fh[k], last) && (
            #[trigger] fh[k]).id@ != last.id@ by {
                assert(fh.contains(fh[k]));
                Seq::lemma_filter_contains_rev(head, pred, fh[k]);
                let w = choose|w: int| 0 <= w < head.len() && head[w] == fh[k];
                assert(rate_ge(pool[w], pool[pool.len() - 1]));
                assert(pool[w].id@ != pool[pool.len() - 1].id@);
            }
            assert forall|i: int, j: int| 0 <= i < j < full.len() implies rate_ge(
                #[trigger] full[i],
                #[trigger] full[j],
            ) by {
                if j < fh.len() {
                } else {
                    assert(full[j] == last);
                }
            }
            assert forall|i: int, j: int| 0 <= i < j < full.len() implies (#[trigger] full[i]).id@
                != (#[trigger] full[j]).id@ by {
                if j < fh.len() {
                } else {
                    assert(full[j] == last);
                }
            }
            assert forall|i: int| 0 <= i < full.len() implies tx_valid(#[trigger] full[i]) by {
                if i < fh.len() {
                } else {
                    assert(full[i] == last);
                    assert(tx_valid(pool[pool.len() - 1]));
                }
            }
            assert(pool_sizes(full) == pool_sizes(fh) + tx_size(last)) by {
                assert(full.drop_last() =~= fh);
            }
        } else {
            assert(pool.filter(pred) == fh);
        }
    }
}

impl Blockchain {
    /// Whether `a` pays at least `b`'s fee rate, exactly as `rate_ge`
    /// states it.
    fn rate_ge_exec(a: &Transaction, b: &Transaction) -> (r: bool)
        requires
            tx_size(*a) <= MEMPOOL_CAPACITY_BYTES,
            tx_size(*b) <= MEMPOOL_CAPACITY_BYTES,
        ensures
            r == rate_ge(*a, *b),
    {
        let sa = a.estimated_size();
        let sb = b.estimated_size();
        proof {
            assert((a.fee as int) * (sb as int) <= 0xffffffffffffffff * 5000000int
                && (b.fee as int) * (sa as int) <= 0xffffffffffffffff * 5000000int)
                by (nonlinear_arith)
                requires
                    a.fee <= 0xffffffffffffffffu64,
                    b.fee <= 0xffffffffffffffffu64,
                    0 <= sa as int <= 5000000,
                    0 <= sb as int <= 5000000,
            ;
        }
        (a.fee as u128) * sb >= (b.fee as u128) * sa
    }

    /// Pops lowest-fee-rate entries until `need` more bytes fit under the
    /// ceiling, exactly as `evict_spec` states it; what stays is a prefix
    /// of the pool.
    fn evict_until_fits(&mut self, need: u128)
        requires
            old(self).wf(),
            need <= MEMPOOL_CAPACITY_BYTES,
        ensures
            final(self).wf(),
            same_except_mempool(*final(self), *old(self)),
            (final(self).mempool@, final(self).mempool_size_bytes as int) == evict_spec(
                old(self).mempool@,
                old(self).mempool_size_bytes as int,
                need as int,
            ),
            final(self).mempool_size_bytes + need <= MEMPOOL_CAPACITY_BYTES,
            final(self).mempool@ == old(self).mempool@.take(final(self).mempool@.len() as int),
            final(self).mempool@.len() <= old(self).mempool@.len(),
    {
        let ghost orig_pool = self.mempool@;
        let ghost orig_total = self.mempool_size_bytes as int;
        proof {
            assert(orig_pool.take(orig_pool.len() as int) =~= orig_pool);
        }
        while self.mempool_size_bytes + need > MEMPOOL_CAPACITY_BYTES && self.mempool.len() > 0
            invariant
                self.wf(),
                need <= MEMPOOL_CAPACITY_BYTES,
                orig_pool == old(self).mempool@,
                orig_total == old(self).mempool_size_bytes as int,
                same_except_mempool(*self, *old(self)),
                evict_spec(orig_pool, orig_total, need as int) == evict_spec(
                    self.mempool@,
                    self.mempool_size_bytes as int,
                    need as int,
                ),
                self.mempool@.len() <= orig_pool.len(),
                self.mempool@ == orig_pool.take(self.mempool@.len() as int),
            decreases self.mempool@.len(),
        {
            let ghost pre_pool = self.mempool@;
            let ghost pre_total = self.mempool_size_bytes as int;
            proof {
                lemma_pool_sizes_nonneg(pre_pool.drop_last());
            }
            let victim = self.mempool.pop();
            match victim {
                Some(tx) => {
                    let sz = tx.estimated_size();
                    proof {
                        assert(self.mempool@ =~= pre_pool.drop_last());
                        assert(pre_total == pool_sizes(pre_pool.drop_last()) + tx_size(tx));
                    }
                    self.mempool_size_bytes = self.mempool_size_bytes - sz;
                    proof {
                        assert(evict_spec(pre_pool, pre_total, need as int) == evict_spec(
                            self.mempool@,
                            self.mempool_size_bytes as int,
                            need as int,
                        ));
                        assert(pre_pool == orig_pool.take(pre_pool.len() as int));
                        assert(self.mempool@.len() == pre_pool.len() - 1);
                        assert forall|j: int| 0 <= j < pre_pool.len() - 1 implies orig_pool[j]
                            == pre_pool.drop_last()[j] by {
                            assert(pre_pool[j] == orig_pool.take(pre_pool.len() as int)[j]);
                        }
                        assert(orig_pool.take(self.mempool@.len() as int)
                            =~= pre_pool.drop_last());
                    }
                },
                None => {
                    proof {
                        assert(false);
                    }
                },
            }
        }
    }

    /// Inserts a fresh, valid, fitting transaction at its fee-rate
    /// position, exactly as `insert_by_rate` states it.
    fn insert_sorted(&mut self, transaction: Transaction)
        requires
            old(self).wf(),
            tx_valid(transaction),
            tx_size(transaction) <= MEMPOOL_CAPACITY_BYTES,
            old(self).mempool_size_bytes + tx_size(transaction) <= MEMPOOL_CAPACITY_BYTES,
            forall|j: int|
                0 <= j < old(self).mempool@.len() ==> (#[trigger] old(self).mempool@[j]).id@
                    != transaction.id@,
        ensures
            final(self).wf(),
            same_except_mempool(*final(self), *old(self)),
            final(self).mempool@ == insert_by_rate(old(self).mempool@, transaction),
            final(self).mempool_size_bytes == old(self).mempool_size_bytes + tx_size(transaction),
    {
        let ghost pool0 = self.mempool@;
        let size = transaction.estimated_size();
        let mut p: usize = 0;
        let mut found = false;
        while p < self.mempool.len() && !found
            invariant
                self.wf(),
                self.mempool@ == pool0,
                self == old(self),
                tx_size(transaction) <= MEMPOOL_CAPACITY_BYTES,
                0 <= p <= pool0.len(),
                forall|i: int| 0 <= i < p ==> rate_ge(#[trigger] pool0[i], transaction),
                found ==> p < pool0.len() && !rate_ge(pool0[p as int], transaction),
            decreases pool0.len() - p + (if found { 0int } else { 1int }),
        {
            proof {
                lemma_pool_entry_size(pool0, p as int);
                lemma_pool_sizes_nonneg(pool0);
            }
            if !Self::rate_ge_exec(&self.mempool[p], &transaction) {
                found = true;
            } else {
                p = p + 1;
            }
        }
        proof {
            lemma_insert_by_rate_at(pool0, transaction, p as int);
        }
        let ghost inserted = insert_by_rate(pool0, transaction);
        self.mempool.insert(p, transaction);
        self.mempool_size_bytes = self.mempool_size_bytes + size;
        proof {
            assert(self.mempool@ =~= pool0.take(p as int) + seq![transaction] + pool0.skip(
                p as int,
            ));
            lemma_pool_sizes_concat(pool0.take(p as int) + seq![transaction], pool0.skip(p as int));
            lemma_pool_sizes_concat(pool0.take(p as int), seq![transaction]);
            lemma_pool_sizes_concat(pool0.take(p as int), pool0.skip(p as int));
            assert(pool0.take(p as int) + pool0.skip(p as int) =~= pool0);
            reveal_with_fuel(pool_sizes, 2);
            assert(seq![transaction].drop_last() =~= Seq::<Transaction>::empty());
            assert(pool_sizes(seq![transaction]) == tx_size(transaction));
            let newpool = self.mempool@;
            assert(newpool.len() == pool0.len() + 1);
            assert forall|i: int, j: int| 0 <= i < j < newpool.len() implies rate_ge(
                #[trigger] newpool[i],
                #[trigger] newpool[j],
            ) by {
                let pi = p as int;
                if i < pi && j < pi {
                    assert(rate_ge(pool0[i], pool0[j]));
                } else if i < pi && j == pi {
                    assert(rate_ge(pool0[i], transaction));
                } else if i < pi && j > pi {
                    assert(rate_ge(pool0[i], pool0[j - 1]));
                } else if i == pi && j > pi {
                    if pi < pool0.len() {
                        assert(!rate_ge(pool0[pi], transaction));
                        assert(rate_ge(transaction, pool0[pi]));
                        if j - 1 > pi {
                            assert(rate_ge(pool0[pi], pool0[j - 1]));
                            lemma_rate_trans(transaction, pool0[pi], pool0[j - 1]);
                        }
                    }
                } else {
                    assert(rate_ge(pool0[i - 1], pool0[j - 1]));
                }
            }
            assert forall|i: int, j: int| 0 <= i < j < newpool.len() implies (
            #[trigger] newpool[i]).id@ != (#[trigger] newpool[j]).id@ by {
                let pi = p as int;
                if i != pi && j != pi {
                    let oi = if i < pi { i } else { i - 1 };
                    let oj = if j < pi { j } else { j - 1 };
                    assert(newpool[i] == pool0[oi]);
                    assert(newpool[j] == pool0[oj]);
                } else if i == pi {
                    assert(newpool[j] == pool0[j - 1]);
                } else {
                    assert(newpool[i] == pool0[i]);
                }
            }
            assert forall|i: int| 0 <= i < newpool.len() implies tx_valid(#[trigger] newpool[i]) by {
                let pi = p as int;
                if i < pi {
                    assert(newpool[i] == pool0[i]);
                } else if i == pi {
                } else {
                    assert(newpool[i] == pool0[i - 1]);
                }
            }
        }
    }
}

/// Still admissible strictly after `now`.
pub open spec fn unexpired_strict(now: i64) -> spec_fn(Transaction) -> bool {
    |t: Transaction| t.expiration > now
}

/// Still admissible at `now`.
pub open spec fn unexpired(now: i64) -> spec_fn(Transaction) -> bool {
    |t: Transaction| t.expiration >= now
}

/// The admission contract: which error each input earns at time `now`,
/// and exactly how the pool changes on success — lowest-fee-rate entries
/// evicted until the newcomer fits, then a fee-rate-ordered insertion.
pub open spec fn admit_rel(
    pre: Blockchain,
    tx: Transaction,
    now: i64,
    post: Blockchain,
    r: Result<(), AdmissionError>,
) -> bool {
    let pool = pre.mempool@;
    let bal = bal_lookup(pre.balances@, tx.from@);
    let size = tx_size(tx);
    if !tx_valid(tx) {
        r == Err::<(), AdmissionError>(AdmissionError::InvalidTransaction) && post == pre
    } else if bal < tx.amount + tx.fee {
        r == Err::<(), AdmissionError>(AdmissionError::InsufficientBalance) && post == pre
    } else if exists|j: int|
        0 <= j < pool.len() && (#[trigger] pool[j]).from@ == tx.from@ && pool[j].amount
            + pool[j].fee > bal - (tx.amount + tx.fee) {
        r == Err::<(), AdmissionError>(AdmissionError::DoubleSpendRisk) && post == pre
    } else if exists|j: int| 0 <= j < pool.len() && (#[trigger] pool[j]).id@ == tx.id@ {
        r == Err::<(), AdmissionError>(AdmissionError::Duplicate) && post == pre
    } else if tx.expiration < now {
        r == Err::<(), AdmissionError>(AdmissionError::Expired) && post == pre
    } else if tx.fee * MIN_FEE_RATE_DIVISOR < size {
        r == Err::<(), AdmissionError>(AdmissionError::FeeTooLow) && post == pre
    } else if size > MEMPOOL_CAPACITY_BYTES {
        r == Err::<(), AdmissionError>(AdmissionError::MempoolFull) && post == pre
    } else {
        let ev = evict_spec(pool, pre.mempool_size_bytes as int, size);
        &&& r == Ok::<(), AdmissionError>(())
        &&& same_except_mempool(post, pre)
        &&& post.mempool@ == insert_by_rate(ev.0, tx)
        &&& post.mempool_size_bytes as int == ev.1 + size
    }
}

/// The replace-by-fee contract: the old entry with the same identifier
/// must exist and pay strictly less; it leaves atomically as the
/// newcomer is admitted.
pub open spec fn replace_rel(
    pre: Blockchain,
    tx: Transaction,
    post: Blockchain,
    r: Result<(), ReplaceError>,
) -> bool {
    let pool = pre.mempool@;
    let bal = bal_lookup(pre.balances@, tx.from@);
    let size = tx_size(tx);
    if !tx_valid(tx) {
        r == Err::<(), ReplaceError>(ReplaceError::InvalidTransaction) && post == pre
    } else if bal < tx.amount + tx.fee {
        r == Err::<(), ReplaceError>(ReplaceError::InsufficientBalance) && post == pre
    } else if !(exists|j: int| 0 <= j < pool.len() && (#[trigger] pool[j]).id@ == tx.id@) {
        r == Err::<(), ReplaceError>(ReplaceError::NotFound) && post == pre
    } else {
        let j = choose|j: int| 0 <= j < pool.len() && (#[trigger] pool[j]).id@ == tx.id@;
        if tx.fee <= pool[j].fee {
            r == Err::<(), ReplaceError>(ReplaceError::FeeNotHigher) && post == pre
        } else if size > MEMPOOL_CAPACITY_BYTES {
            r == Err::<(), ReplaceError>(ReplaceError::MempoolFull) && post == pre
        } else {
            let removed = pool.remove(j);
            let ev = evict_spec(removed, pre.mempool_size_bytes - tx_size(pool[j]), size);
            &&& r == Ok::<(), ReplaceError>(())
            &&& same_except_mempool(post, pre)
            &&& post.mempool@ == insert_by_rate(ev.0, tx)
            &&& post.mempool_size_bytes as int == ev.1 + size
        }
    }
}

/// What `take` does at time `now`: expired entries purged, then up to
/// `max` entries handed out from the high-fee-rate front.
pub open spec fn take_rel(
    pre: Blockchain,
    max: int,
    now: i64,
    post: Blockchain,
    r: Seq<Transaction>,
) -> bool {
    let purged = pre.mempool@.filter(unexpired_strict(now));
    let m = if max < purged.len() {
        max
    } else {
        purged.len() as int
    };
    &&& r == purged.take(m)
    &&& post.mempool@ == purged.skip(m)
    &&& post.mempool_size_bytes as int == pool_sizes(purged.skip(m))
    &&& same_except_mempool(post, pre)
}

impl Blockchain {
    /// Admits `transaction` against the mempool policy at time `now`,
    /// exactly as `admit_rel` states it.
    #[verifier::rlimit(100)]
    pub fn admit_at(&mut self, transaction: Transaction, now: i64) -> (r: Result<
        (),
        AdmissionError,
    >)
        requires
            old(self).wf(),
        ensures
            final(self).wf(),
            same_except_mempool(*final(self), *old(self)),
            admit_rel(*old(self), transaction, now, *final(self), r),
    {
        let ghost pool = self.mempool@;
        if !transaction.is_valid() {
            return Err(AdmissionError::InvalidTransaction);
        }
        let sender_balance = self.get_balance(self.from_str_ref(&transaction));
        let needed: i128 = transaction.amount as i128 + transaction.fee as i128;
        if sender_balance < needed {
            return Err(AdmissionError::InsufficientBalance);
        }
        let mut j: usize = 0;
        let mut risky = false;
        while j < self.mempool.len() && !risky
            invariant
                self == old(self),
                pool == self.mempool@,
                0 <= j <= pool.len(),
                sender_balance as int == bal_lookup(self.balances@, transaction.from@),
                needed as int == transaction.amount + transaction.fee,
                sender_balance >= needed,
                !risky ==> forall|i: int|
                    0 <= i < j ==> !((#[trigger] pool[i]).from@ == transaction.from@ && pool[i].amount
                        + pool[i].fee > sender_balance - needed),
                risky ==> exists|i: int|
                    0 <= i < pool.len() && (#[trigger] pool[i]).from@ == transaction.from@
                        && pool[i].amount + pool[i].fee > sender_balance - needed,
            decreases pool.len() - j + (if risky { 0int } else { 1int }),
        {
            let p = &self.mempool[j];
            if p.from == transaction.from && p.amount as i128 + p.fee as i128 > sender_balance
                - needed {
                risky = true;
            } else {
                j = j + 1;
            }
        }
        if risky {
            return Err(AdmissionError::DoubleSpendRisk);
        }
        let mut k: usize = 0;
        let mut dup = false;
        while k < self.mempool.len() && !dup
            invariant
                self == old(self),
                pool == self.mempool@,
                0 <= k <= pool.len(),
                !dup ==> forall|i: int| 0 <= i < k ==> (#[trigger] pool[i]).id@ != transaction.id@,
                dup ==> exists|i: int|
                    0 <= i < pool.len() && (#[trigger] pool[i]).id@ == transaction.id@,
            decreases pool.len() - k + (if dup { 0int } else { 1int }),
        {
            if self.mempool[k].id == transaction.id {
                dup = true;
            } else {
                k = k + 1;
            }
        }
        if dup {
            return Err(AdmissionError::Duplicate);
        }
        if transaction.expiration < now {
            return Err(AdmissionError::Expired);
        }
        let size = transaction.estimated_size();
        if (transaction.fee as u128) * (MIN_FEE_RATE_DIVISOR as u128) < size {
            return Err(AdmissionError::FeeTooLow);
        }
        if size > MEMPOOL_CAPACITY_BYTES {
            return Err(AdmissionError::MempoolFull);
        }
        self.evict_until_fits(size);
        proof {
            let kept_len = self.mempool@.len() as int;
            assert forall|i: int| 0 <= i < self.mempool@.len() implies (
            #[trigger] self.mempool@[i]).id@ != transaction.id@ by {
                assert(self.mempool@[i] == pool.take(kept_len)[i]);
                assert(pool.take(kept_len)[i] == pool[i]);
            }
        }
        self.insert_sorted(transaction);
        Ok(())
    }

    /// Admits `transaction` at the current clock reading; every other
    /// aspect of the outcome is exactly `admit_rel` at that instant.
    pub fn add_to_mempool(&mut self, transaction: Transaction) -> (r: Result<(), AdmissionError>)
        requires
            old(self).wf(),
        ensures
            final(self).wf(),
            same_except_mempool(*final(self), *old(self)),
            exists|now: i64| #[trigger] admit_rel(*old(self), transaction, now, *final(self), r),
    {
        let now = now_ts();
        let ghost tx = transaction;
        let r = self.admit_at(transaction, now);
        proof {
            assert(admit_rel(*old(self), tx, now, *self, r));
        }
        r
    }

    /// Replace-by-fee: swaps the pool entry with the same identifier for
    /// `new_transaction`, which must pay a strictly higher fee, exactly
    /// as `replace_rel` states it.
    #[verifier::rlimit(100)]
    pub fn replace_transaction(&mut self, new_transaction: Transaction) -> (r: Result<
        (),
        ReplaceError,
    >)
        requires
            old(self).wf(),
        ensures
            final(self).wf(),
            same_except_mempool(*final(self), *old(self)),
            replace_rel(*old(self), new_transaction, *final(self), r),
    {
        let ghost pool = self.mempool@;
        if !new_transaction.is_valid() {
            return Err(ReplaceError::InvalidTransaction);
        }
        let sender_balance = self.get_balance(self.from_str_ref(&new_transaction));
        let needed: i128 = new_transaction.amount as i128 + new_transaction.fee as i128;
        if sender_balance < needed {
            return Err(ReplaceError::InsufficientBalance);
        }
        let mut k: usize = 0;
        let mut found = false;
        while k < self.mempool.len() && !found
            invariant
                self == old(self),
                pool == self.mempool@,
                0 <= k <= pool.len(),
                !found ==> forall|i: int| 0 <= i < k ==> (#[trigger] pool[i]).id@
                    != new_transaction.id@,
                found ==> k < pool.len() && pool[k as int].id@ == new_transaction.id@,
            decreases pool.len() - k + (if found { 0int } else { 1int }),
        {
            if self.mempool[k].id == new_transaction.id {
                found = true;
            } else {
                k = k + 1;
            }
        }
        if !found {
            return Err(ReplaceError::NotFound);
        }
        proof {
            let w = choose|j: int| 0 <= j < pool.len() && (#[trigger] pool[j]).id@
                == new_transaction.id@;
            assert(w == k as int);
        }
        if new_transaction.fee <= self.mempool[k].fee {
            return Err(ReplaceError::FeeNotHigher);
        }
        let size = new_transaction.estimated_size();
        if size > MEMPOOL_CAPACITY_BYTES {
            return Err(ReplaceError::MempoolFull);
        }
        let old_entry = self.mempool.remove(k);
        let old_size = old_entry.estimated_size();
        proof {
            assert(self.mempool@ =~= pool.remove(k as int));
            assert(pool =~= pool.take(k as int) + seq![pool[k as int]] + pool.skip(k as int + 1));
            assert(self.mempool@ =~= pool.take(k as int) + pool.skip(k as int + 1));
            lemma_pool_sizes_concat(pool.take(k as int) + seq![pool[k as int]], pool.skip(
                k as int + 1,
            ));
            lemma_pool_sizes_concat(pool.take(k as int), seq![pool[k as int]]);
            lemma_pool_sizes_concat(pool.take(k as int), pool.skip(k as int + 1));
            reveal_with_fuel(pool_sizes, 2);
            assert(seq![pool[k as int]].drop_last() =~= Seq::<Transaction>::empty());
            assert(pool_sizes(seq![pool[k as int]]) == tx_size(pool[k as int]));
            let np = self.mempool@;
            assert forall|i: int, j: int| 0 <= i < j < np.len() implies rate_ge(
                #[trigger] np[i],
                #[trigger] np[j],
            ) && (#[trigger] np[i]).id@ != (#[trigger] np[j]).id@ by {
                let ki = k as int;
                let oi = if i < ki { i } else { i + 1 };
                let oj = if j < ki { j } else { j + 1 };
                assert(np[i] == pool[oi]);
                assert(np[j] == pool[oj]);
            }
            assert forall|i: int| 0 <= i < np.len() implies tx_valid(#[trigger] np[i]) by {
                let ki = k as int;
                let oi = if i < ki { i } else { i + 1 };
                assert(np[i] == pool[oi]);
            }
            lemma_pool_sizes_nonneg(self.mempool@);
        }
        self.mempool_size_bytes = self.mempool_size_bytes - old_size;
        self.evict_until_fits(size);
        proof {
            let removed = pool.remove(k as int);
            assert forall|i: int| 0 <= i < self.mempool@.len() implies (
            #[trigger] self.mempool@[i]).id@ != new_transaction.id@ by {
                assert(self.mempool@[i] == removed[i]);
                let ki = k as int;
                let oi = if i < ki { i } else { i + 1 };
                assert(removed[i] == pool[oi]);
            }
        }
        self.insert_sorted(new_transaction);
        Ok(())
    }

    /// Purges every entry whose expiration is not strictly later than
    /// `now`, keeping order and accounting exact.
    fn retain_later_than(&mut self, now: i64)
        requires
            old(self).wf(),
        ensures
            final(self).wf(),
            same_except_mempool(*final(self), *old(self)),
            final(self).mempool@ == old(self).mempool@.filter(unexpired_strict(now)),
            final(self).mempool_size_bytes as int == pool_sizes(final(self).mempool@),
    {
        let ghost pool = self.mempool@;
        let ghost pred = unexpired_strict(now);
        let mut kept: Vec<Transaction> = Vec::new();
        let mut kept_total: u128 = 0;
        let mut i: usize = 0;
        proof {
            assert(pool.take(0) =~= Seq::<Transaction>::empty());
            assert(pool.take(0).filter(pred) =~= Seq::<Transaction>::empty());
        }
        while i < self.mempool.len()
            invariant
                self == old(self),
                pool == self.mempool@,
                self.wf(),
                pred == unexpired_strict(now),
                0 <= i <= pool.len(),
                kept@ == pool.take(i as int).filter(pred),
                kept_total as int == pool_sizes(kept@),
                kept_total <= MEMPOOL_CAPACITY_BYTES,
            decreases pool.len() - i,
        {
            proof {
                let el = pool[i as int];
                let prefix = pool.take(i as int);
                assert(pool.take(i as int + 1) =~= prefix + seq![el]);
                Seq::<Transaction>::filter_distributes_over_add(prefix, seq![el], pred);
                reveal_with_fuel(Seq::filter, 3);
                assert(seq![el].drop_last() =~= Seq::<Transaction>::empty());
                assert(seq![el].last() == el);
                assert(seq![el].filter(pred) == (if pred(el) {
                    Seq::<Transaction>::empty().push(el)
                } else {
                    Seq::<Transaction>::empty()
                }));
                assert(pred(el) == (el.expiration > now));
                lemma_pool_entry_size(pool, i as int);
                lemma_pool_sizes_nonneg(pool);
                assert(forall|a: int, b: int|
                    0 <= a < b < prefix.len() ==> rate_ge(#[trigger] prefix[a], #[trigger] prefix[b]));
                assert(forall|a: int, b: int|
                    0 <= a < b < prefix.len() ==> (#[trigger] prefix[a]).id@ != (
                    #[trigger] prefix[b]).id@);
                assert(forall|a: int| 0 <= a < prefix.len() ==> tx_valid(#[trigger] prefix[a]));
                lemma_filter_pool_props(prefix, pred);
                lemma_pool_sizes_concat(prefix, seq![el]);
                assert(prefix + seq![el] =~= pool.take(i as int + 1));
                reveal_with_fuel(pool_sizes, 2);
                assert(pool_sizes(seq![el]) == tx_size(el));
                lemma_pool_sizes_concat(pool.take(i as int + 1), pool.skip(i as int + 1));
                assert(pool.take(i as int + 1) + pool.skip(i as int + 1) =~= pool);
                lemma_pool_sizes_nonneg(pool.skip(i as int + 1));
                assert(pool_sizes(pool.take(i as int + 1)) <= pool_sizes(pool));
            }
            let t = &self.mempool[i];
            if t.expiration > now {
                let sz = t.estimated_size();
                kept.push(t.duplicate());
                kept_total = kept_total + sz;
                proof {
                    assert(kept@.drop_last() =~= pool.take(i as int).filter(pred));
                    assert(kept@ =~= pool.take(i as int + 1).filter(pred));
                }
            } else {
                proof {
                    assert(kept@ =~= pool.take(i as int + 1).filter(pred));
                }
            }
            i = i + 1;
        }
        proof {
            assert(pool.take(pool.len() as int) =~= pool);
            lemma_filter_pool_props(pool, pred);
        }
        self.mempool = kept;
        self.mempool_size_bytes = kept_total;
    }

    /// Purges expired entries, then removes and returns up to `max`
    /// entries from the high-fee-rate front, exactly as `take_rel`
    /// states it. Nothing returned is expired at `now`.
    #[verifier::rlimit(100)]
    pub fn take_at(&mut self, max: usize, now: i64) -> (r: Vec<Transaction>)
        requires
            old(self).wf(),
        ensures
            final(self).wf(),
            take_rel(*old(self), max as int, now, *final(self), r@),
            forall|i: int| 0 <= i < r@.len() ==> (#[trigger] r@[i]).expiration > now,
            pool_all_valid(r@),
    {
        self.retain_later_than(now);
        let ghost purged = self.mempool@;
        let m: usize = if max < self.mempool.len() {
            max
        } else {
            self.mempool.len()
        };
        let mut out: Vec<Transaction> = Vec::new();
        let mut k: usize = 0;
        proof {
            assert(purged.skip(0) =~= purged);
            assert(out@ =~= purged.take(0));
        }
        while k < m
            invariant
                0 <= k <= m <= purged.len(),
                self.wf(),
                same_except_mempool(*self, *old(self)),
                out@ == purged.take(k as int),
                self.mempool@ == purged.skip(k as int),
                self.mempool_size_bytes as int == pool_sizes(purged.skip(k as int)),
                pool_sorted(purged),
                pool_ids_unique(purged),
                pool_all_valid(purged),
            decreases m - k,
        {
            let ghost before = self.mempool@;
            let t = self.mempool.remove(0);
            let sz = t.estimated_size();
            proof {
                assert(before[0] == purged[k as int]);
                assert(self.mempool@ =~= purged.skip(k as int + 1));
                assert(before =~= seq![before[0]] + purged.skip(k as int + 1));
                lemma_pool_sizes_concat(seq![before[0]], purged.skip(k as int + 1));
                reveal_with_fuel(pool_sizes, 2);
                assert(seq![before[0]].drop_last() =~= Seq::<Transaction>::empty());
                assert(pool_sizes(seq![before[0]]) == tx_size(before[0]));
                lemma_pool_sizes_nonneg(purged.skip(k as int + 1));
            }
            self.mempool_size_bytes = self.mempool_size_bytes - sz;
            out.push(t);
            proof {
                assert(out@ =~= purged.take(k as int + 1));
            }
            k = k + 1;
        }
        proof {
            assert forall|i: int| 0 <= i < out@.len() implies (#[trigger] out@[i]).expiration
                > now by {
                Seq::lemma_filter_pred(old(self).mempool@, unexpired_strict(now), i);
                assert(out@[i] == purged[i]);
            }
        }
        out
    }

    /// Purges expired entries, then hands out up to `max_transactions`
    /// entries from the front at the current clock reading.
    pub fn get_transactions_from_mempool(&mut self, max_transactions: usize) -> (r: Vec<
        Transaction,
    >)
        requires
            old(self).wf(),
        ensures
            final(self).wf(),
            exists|now: i64| #[trigger] take_rel(
                *old(self),
                max_transactions as int,
                now,
                *final(self),
                r@,
            ),
    {
        let now = now_ts();
        let r = self.take_at(max_transactions, now);
        proof {
            assert(take_rel(*old(self), max_transactions as int, now, *self, r@));
        }
        r
    }

    /// Removes every entry already expired at `now`, keeping entries that
    /// expire exactly at `now`, with order and accounting exact.
    pub fn sweep_expired_at(&mut self, now: i64)
        requires
            old(self).wf(),
        ensures
            final(self).wf(),
            same_except_mempool(*final(self), *old(self)),
            final(self).mempool@ == old(self).mempool@.filter(unexpired(now)),
            final(self).mempool_size_bytes as int == pool_sizes(final(self).mempool@),
    {
        let ghost pool = self.mempool@;
        let ghost pred = unexpired(now);
        let mut kept: Vec<Transaction> = Vec::new();
        let mut kept_total: u128 = 0;
        let mut i: usize = 0;
        proof {
            assert(pool.take(0) =~= Seq::<Transaction>::empty());
            assert(pool.take(0).filter(pred) =~= Seq::<Transaction>::empty());
        }
        while i < self.mempool.len()
            invariant
                self == old(self),
                pool == self.mempool@,
                self.wf(),
                pred == unexpired(now),
                0 <= i <= pool.len(),
                kept@ == pool.take(i as int).filter(pred),
                kept_total as int == pool_sizes(kept@),
                kept_total <= MEMPOOL_CAPACITY_BYTES,
            decreases pool.len() - i,
        {
            proof {
                let el = pool[i as int];
                let prefix = pool.take(i as int);
                assert(pool.take(i as int + 1) =~= prefix + seq![el]);
                Seq::<Transaction>::filter_distributes_over_add(prefix, seq![el], pred);
                reveal_with_fuel(Seq::filter, 3);
                assert(seq![el].drop_last() =~= Seq::<Transaction>::empty());
                assert(seq![el].last() == el);
                assert(seq![el].filter(pred) == (if pred(el) {
                    Seq::<Transaction>::empty().push(el)
                } else {
                    Seq::<Transaction>::empty()
                }));
                assert(pred(el) == (el.expiration >= now));
                lemma_pool_entry_size(pool, i as int);
                lemma_pool_sizes_nonneg(pool);
                assert(forall|a: int, b: int|
                    0 <= a < b < prefix.len() ==> rate_ge(#[trigger] prefix[a], #[trigger] prefix[b]));
                assert(forall|a: int, b: int|
                    0 <= a < b < prefix.len() ==> (#[trigger] prefix[a]).id@ != (
                    #[trigger] prefix[b]).id@);
                assert(forall|a: int| 0 <= a < prefix.len() ==> tx_valid(#[trigger] prefix[a]));
                lemma_filter_pool_props(prefix, pred);
                lemma_pool_sizes_concat(prefix, seq![el]);
                assert(prefix + seq![el] =~= pool.take(i as int + 1));
                reveal_with_fuel(pool_sizes, 2);
                assert(pool_sizes(seq![el]) == tx_size(el));
                lemma_pool_sizes_concat(pool.take(i as int + 1), pool.skip(i as int + 1));
                assert(pool.take(i as int + 1) + pool.skip(i as int + 1) =~= pool);
                lemma_pool_sizes_nonneg(pool.skip(i as int + 1));
                assert(pool_sizes(pool.take(i as int + 1)) <= pool_sizes(pool));
            }
            let t = &self.mempool[i];
            if t.expiration >= now {
                let sz = t.estimated_size();
                kept.push(t.duplicate());
                kept_total = kept_total + sz;
                proof {
                    assert(kept@.drop_last() =~= pool.take(i as int).filter(pred));
                    assert(kept@ =~= pool.take(i as int + 1).filter(pred));
                }
            } else {
                proof {
                    assert(kept@ =~= pool.take(i as int + 1).filter(pred));
                }
            }
            i = i + 1;
        }
        proof {
            assert(pool.take(pool.len() as int) =~= pool);
            lemma_filter_pool_props(pool, pred);
        }
        self.mempool = kept;
        self.mempool_size_bytes = kept_total;
    }

    /// Sweeps the pool at the current clock reading: afterwards, at that
    /// instant, only unexpired entries remain.
    pub fn clean_expired_transactions(&mut self)
        requires
            old(self).wf(),
        ensures
            final(self).wf(),
            same_except_mempool(*final(self), *old(self)),
            exists|now: i64|
                final(self).mempool@ == old(self).mempool@.filter(#[trigger] unexpired(now)),
    {
        let now = now_ts();
        self.sweep_expired_at(now);
        proof {
            assert(self.mempool@ == old(self).mempool@.filter(unexpired(now)));
        }
    }
}

/// The clamped time ratio `actual/expected` as a positive rational
/// `(numerator, denominator)`, held to `[3/4, 5/4]`; a degenerate
/// expected time of zero counts as arbitrarily fast mining, a negative
/// one as arbitrarily slow.
pub open spec fn clamp_ratio(actual: int, expected: int) -> (int, int) {
    if expected <= 0 {
        if expected == 0 {
            (5, 4)
        } else {
            (3, 4)
        }
    } else if 4 * actual <= 3 * expected {
        (3, 4)
    } else if 4 * actual >= 5 * expected {
        (5, 4)
    } else {
        (actual, expected)
    }
}

/// The damped adjustment: divide the difficulty by the clamped ratio,
/// floor the quotient's rational value at one, average with the old
/// difficulty and round to the nearest integer.
pub open spec fn adjusted_difficulty(d: u32, actual: int, expected: int) -> int {
    let r = clamp_ratio(actual, expected);
    let n = r.0;
    let den = r.1;
    let new_num = if d * den >= n {
        d * den
    } else {
        n
    };
    let p = d * n + new_num;
    let q = 2 * n;
    (2 * p + q) / (2 * q)
}

/// The adjusted difficulty, floored at one and capped at the largest
/// representable difficulty.
pub open spec fn next_difficulty(d: u32, actual: int, expected: int) -> int {
    let a = adjusted_difficulty(d, actual, expected);
    if a < 1 {
        1
    } else if a > MAX_DIFFICULTY {
        MAX_DIFFICULTY as int
    } else {
        a
    }
}

/// Law: adjustment keeps the difficulty in its representable band; an
/// interval mined at least a quarter faster than intended never lowers
/// it, and one at least a quarter slower never raises it, with the
/// single-step decrease bounded by the clamp and the damped average.
pub proof fn lemma_difficulty_adjustment_bounds(d: u32, actual: int, expected: int)
    requires
        1 <= d <= MAX_DIFFICULTY,
        actual >= 1,
    ensures
        1 <= next_difficulty(d, actual, expected) <= MAX_DIFFICULTY,
        expected > 0 && 4 * actual <= 3 * expected ==> next_difficulty(d, actual, expected) >= d,
        expected > 0 && 4 * actual >= 5 * expected ==> next_difficulty(d, actual, expected) <= d
            && 10 * next_difficulty(d, actual, expected) >= 9 * d - 5,
{
    let r = clamp_ratio(actual, expected);
    let n = r.0;
    let den = r.1;
    assert(n >= 1 && den >= 1);
    let new_num = if d * den >= n {
        d * den
    } else {
        n
    };
    let p = d * n + new_num;
    let q = 2 * n;
    assert(new_num >= n);
    assert(p >= 2 * n) by (nonlinear_arith)
        requires
            p == d * n + new_num,
            new_num >= n,
            d >= 1,
            n >= 1,
    ;
    let x = 2 * p + q;
    let q2 = 2 * q;
    assert(x >= q2);
    vstd::arithmetic::div_mod::lemma_fundamental_div_mod(x, q2);
    let k = x / q2;
    let m = x % q2;
    assert(0 <= m < q2);
    assert(k >= 1) by (nonlinear_arith)
        requires
            x == q2 * k + m,
            0 <= m < q2,
            x >= q2,
            q2 >= 4,
    ;
    if expected > 0 && 4 * actual <= 3 * expected {
        assert(n == 3 && den == 4);
        assert(new_num == 4 * d);
        assert(p == 7 * d) by (nonlinear_arith)
            requires
                p == d * n + new_num,
                n == 3,
                new_num == 4 * d,
        ;
        assert(x == 14 * d + 6);
        assert(q2 == 12);
        assert(x / 12 >= d) by {
            vstd::arithmetic::div_mod::lemma_fundamental_div_mod(x, 12);
        }
    }
    if expected > 0 && 4 * actual >= 5 * expected {
        assert(n == 5 && den == 4);
        if d * 4 >= 5 {
            assert(new_num == 4 * d);
            assert(p == 9 * d) by (nonlinear_arith)
                requires
                    p == d * n + new_num,
                    n == 5,
                    new_num == 4 * d,
            ;
            assert(x == 18 * d + 10);
            assert(q2 == 20);
            vstd::arithmetic::div_mod::lemma_fundamental_div_mod(x, 20);
            assert(x / 20 <= d);
            assert(10 * (x / 20) >= 9 * d - 5);
        } else {
            assert(d == 1);
            assert(new_num == 5);
            assert(p == 10);
            assert(x == 30);
            assert(q2 == 20);
            vstd::arithmetic::div_mod::lemma_fundamental_div_mod(30, 20);
            assert(30int / 20 == 1);
        }
    }
}

/// The difficulty a chain of this shape settles on after an append: kept
/// when the chain is still short, re-derived from the last interval's
/// elapsed time otherwise.
pub open spec fn difficulty_after(chain: Seq<Block>, d: u32, target_block_time: i64) -> int {
    if chain.len() < DIFFICULTY_ADJUSTMENT_INTERVAL {
        d as int
    } else {
        let head = chain.last();
        let anchor = chain[chain.len() - DIFFICULTY_ADJUSTMENT_INTERVAL];
        next_difficulty(
            d,
            head.timestamp - anchor.timestamp,
            target_block_time * DIFFICULTY_ADJUSTMENT_INTERVAL,
        )
    }
}

/// Strictly increasing timestamps open a gap at least as wide as the
/// index distance.
proof fn lemma_chain_ts_gap(chain: Seq<Block>, i: int, j: int)
    requires
        chain_linked(chain),
        0 <= i < j < chain.len(),
    ensures
        chain[j].timestamp - chain[i].timestamp >= j - i,
    decreases j - i,
{
    if j > i + 1 {
        lemma_chain_ts_gap(chain, i, j - 1);
    }
}

/// Everything but the difficulty and the block-time window agrees.
pub open spec fn same_except_difficulty(a: Blockchain, b: Blockchain) -> bool {
    &&& a.chain == b.chain
    &&& a.pending_transactions == b.pending_transactions
    &&& a.mining_reward == b.mining_reward
    &&& a.target_block_time == b.target_block_time
    &&& a.balances == b.balances
    &&& a.mempool == b.mempool
    &&& a.difficulty_adjustment_interval == b.difficulty_adjustment_interval
    &&& a.max_mempool_size == b.max_mempool_size
    &&& a.max_mempool_size_bytes == b.max_mempool_size_bytes
    &&& a.mempool_size_bytes == b.mempool_size_bytes
}

impl Blockchain {
    /// Re-derives the difficulty from the last interval's elapsed time,
    /// exactly as `difficulty_after` states it, and records the interval's
    /// average block time in the bounded diagnostic window.
    fn adjust_difficulty(&mut self)
        requires
            old(self).wf(),
        ensures
            final(self).wf(),
            same_except_difficulty(*final(self), *old(self)),
            final(self).difficulty as int == difficulty_after(
                old(self).chain@,
                old(self).difficulty,
                old(self).target_block_time,
            ),
            old(self).chain@.len() < DIFFICULTY_ADJUSTMENT_INTERVAL ==> *final(self)
                == *old(self),
    {
        if self.chain.len() < 10 {
            return ;
        }
        let len = self.chain.len();
        let anchor_ts = self.chain[len - 10].timestamp;
        let head_ts = self.chain[len - 1].timestamp;
        proof {
            lemma_chain_ts_gap(self.chain@, len - 10, len - 1);
        }
        let actual: i128 = head_ts as i128 - anchor_ts as i128;
        let expected: i128 = self.target_block_time as i128 * 10;
        let ghost spec_pair = clamp_ratio(actual as int, expected as int);
        let n: i128;
        let den: i128;
        if expected <= 0 {
            if expected == 0 {
                n = 5;
                den = 4;
            } else {
                n = 3;
                den = 4;
            }
        } else if 4 * actual <= 3 * expected {
            n = 3;
            den = 4;
        } else if 4 * actual >= 5 * expected {
            n = 5;
            den = 4;
        } else {
            n = actual;
            den = expected;
        }
        proof {
            assert((n as int, den as int) == spec_pair);
            assert(1 <= n <= 0x10000000000000000i128);
            assert(1 <= den <= 0xa0000000000000000i128);
        }
        let d = self.difficulty;
        let dw: i128 = d as i128;
        proof {
            assert(0 <= dw * den <= 128 * 0xa0000000000000000i128 && 0 <= dw * n <= 128
                * 0x10000000000000000i128) by (nonlinear_arith)
                requires
                    0 <= dw <= 128,
                    1 <= den <= 0xa0000000000000000i128,
                    1 <= n <= 0x10000000000000000i128,
            ;
        }
        let new_num: i128 = if dw * den >= n {
            dw * den
        } else {
            n
        };
        let p: i128 = dw * n + new_num;
        let q: i128 = 2 * n;
        let rounded: i128 = (2 * p + q) / (2 * q);
        proof {
            assert(rounded as int == adjusted_difficulty(
                d,
                actual as int,
                expected as int,
            ));
        }
        let new_difficulty: u32 = if rounded < 1 {
            1
        } else if rounded > 128 {
            128
        } else {
            rounded as u32
        };
        self.difficulty = new_difficulty;
        let avg: i64 = (actual / 10) as i64;
        self.block_time_window.push(avg);
        if self.block_time_window.len() > 10 {
            let _dropped = self.block_time_window.remove(0);
        }
    }
}

/// The transactions a mining round consumes at time `now`: the pool's
/// high-fee-rate front, with one slot reserved for the reward
/// transaction, or the legacy pending buffer when the pool yields
/// nothing.
pub open spec fn mine_selection(pre: Blockchain, now: i64) -> Seq<Transaction> {
    let purged = pre.mempool@.filter(unexpired_strict(now));
    let m = if 999 < purged.len() {
        999int
    } else {
        purged.len() as int
    };
    let taken = purged.take(m);
    if taken.len() > 0 {
        taken
    } else {
        pre.pending_transactions@
    }
}

/// Whether the selection can make a valid block at all: room for the
/// reward under the count and value limits, and a head timestamp that a
/// successor can still exceed.
pub open spec fn mine_structural_ok(pre: Blockchain, now: i64) -> bool {
    let sel = mine_selection(pre, now);
    &&& sel.len() + 1 <= MAX_BLOCK_TRANSACTIONS
    &&& amount_sum(sel) + pre.mining_reward <= MAX_BLOCK_VALUE
    &&& pre.chain@.last().timestamp < i64::MAX
}

/// The mining contract at time `now`: the staging areas it consumes, when
/// each error comes, and — on success — the shape of the appended block,
/// its validity against the old head, the balance update it causes and
/// the difficulty the ledger settles on.
pub open spec fn mine_rel(
    pre: Blockchain,
    miner: Seq<char>,
    now: i64,
    post: Blockchain,
    r: Result<(), MiningError>,
) -> bool {
    let purged = pre.mempool@.filter(unexpired_strict(now));
    let m = if 999 < purged.len() {
        999int
    } else {
        purged.len() as int
    };
    let taken = purged.take(m);
    let sel = mine_selection(pre, now);
    &&& post.mempool@ == purged.skip(m)
    &&& post.mempool_size_bytes as int == pool_sizes(purged.skip(m))
    &&& post.pending_transactions@ == (if taken.len() > 0 {
        pre.pending_transactions@
    } else {
        Seq::<Transaction>::empty()
    })
    &&& post.mining_reward == pre.mining_reward
    &&& post.target_block_time == pre.target_block_time
    &&& post.max_mempool_size_bytes == pre.max_mempool_size_bytes
    &&& post.max_mempool_size == pre.max_mempool_size
    &&& post.difficulty_adjustment_interval == pre.difficulty_adjustment_interval
    &&& (r == Err::<(), MiningError>(MiningError::InvalidMinedBlock) <==> !mine_structural_ok(
        pre,
        now,
    ))
    &&& (r is Err ==> post.chain == pre.chain && post.balances == pre.balances && post.difficulty
        == pre.difficulty && post.block_time_window == pre.block_time_window)
    &&& (r is Ok ==> {
        let b = post.chain@.last();
        &&& post.chain@.len() == pre.chain@.len() + 1
        &&& post.chain@.take(pre.chain@.len() as int) == pre.chain@
        &&& b.transactions@.len() == sel.len() + 1
        &&& b.transactions@.take(sel.len() as int) == sel
        &&& b.transactions@.last().from@ == system_sender()
        &&& b.transactions@.last().to@ == miner
        &&& b.transactions@.last().amount == pre.mining_reward
        &&& b.transactions@.last().fee == 0
        &&& b.timestamp as int == (if now > pre.chain@.last().timestamp {
            now as int
        } else {
            pre.chain@.last().timestamp + 1
        })
        &&& b.difficulty == pre.difficulty
        &&& valid_successor(b, pre.chain@.last(), pre.difficulty)
        &&& (forall|a: Seq<char>|
            #[trigger] bal_lookup(post.balances@, a) == replay_txs(
                b.transactions@,
                a,
                bal_lookup(pre.balances@, a),
            ))
        &&& post.difficulty as int == difficulty_after(
            post.chain@,
            pre.difficulty,
            pre.target_block_time,
        )
    })
}

impl Blockchain {
    /// Appends an already-validated mined block, replays its transactions
    /// over the balances, and re-derives the difficulty.
    fn append_mined_block(&mut self, block: Block)
        requires
            old(self).wf(),
            valid_successor(block, old(self).chain@.last(), old(self).difficulty),
            block.hash@.len() == 32,
            block.index == old(self).chain@.len(),
        ensures
            final(self).wf(),
            final(self).chain@ == old(self).chain@.push(block),
            final(self).mempool == old(self).mempool,
            final(self).mempool_size_bytes == old(self).mempool_size_bytes,
            final(self).pending_transactions == old(self).pending_transactions,
            final(self).mining_reward == old(self).mining_reward,
            final(self).target_block_time == old(self).target_block_time,
            final(self).max_mempool_size == old(self).max_mempool_size,
            final(self).max_mempool_size_bytes == old(self).max_mempool_size_bytes,
            final(self).difficulty_adjustment_interval == old(self).difficulty_adjustment_interval,
            forall|a: Seq<char>|
                #[trigger] bal_lookup(final(self).balances@, a) == replay_txs(
                    block.transactions@,
                    a,
                    bal_lookup(old(self).balances@, a),
                ),
            final(self).difficulty as int == difficulty_after(
                final(self).chain@,
                old(self).difficulty,
                old(self).target_block_time,
            ),
    {
        let ghost pre_chain = self.chain@;
        let ghost head = self.chain@.last();
        self.chain.push(block);
        proof {
            let c = self.chain@;
            assert(c =~= pre_chain.push(block));
            assert forall|i: int| 0 <= i < c.len() implies (#[trigger] c[i]).index == i
                && c[i].hash@.len() == 32 by {
                if i < pre_chain.len() {
                    assert(c[i] == pre_chain[i]);
                } else {
                    assert(c[i] == block);
                }
            }
            assert forall|i: int|
                1 <= i < c.len() implies (#[trigger] c[i]).previous_hash@ == c[i - 1].hash@
                && c[i].timestamp > c[i - 1].timestamp by {
                if i < pre_chain.len() {
                    assert(c[i] == pre_chain[i]);
                    assert(c[i - 1] == pre_chain[i - 1]);
                } else {
                    assert(c[i] == block);
                    assert(c[i - 1] == head);
                }
            }
        }
        let last = self.chain.len() - 1;
        let chain_ref = &self.chain;
        Self::apply_block_balances(&mut self.balances, &chain_ref[last].transactions);
        self.adjust_difficulty();
    }
}

impl Blockchain {
    /// One mining round at time `now`: select transactions, add the
    /// reward, build and mine the candidate, validate it against the
    /// head, append it, update balances and re-derive the difficulty —
    /// exactly as `mine_rel` states it.
    #[verifier::rlimit(100)]
    pub fn mine_pending_at(&mut self, miner_address: &str, now: i64) -> (r: Result<
        (),
        MiningError,
    >)
        requires
            old(self).wf(),
        ensures
            final(self).wf(),
            mine_rel(*old(self), miner_address@, now, *final(self), r),
    {
        let mut selected = self.take_at(999, now);
        let ghost taken_v = selected@;
        let ghost mid = *self;
        if selected.len() == 0 {
            let ghost pend = self.pending_transactions@;
            proof {
                assert(selected@ + pend =~= pend);
            }
            while self.pending_transactions.len() > 0
                invariant
                    mid.wf(),
                    pend == mid.pending_transactions@,
                    selected@ + self.pending_transactions@ == pend,
                    same_except_pending(*self, mid),
                    forall|i: int| 0 <= i < selected@.len() ==> tx_valid(#[trigger] selected@[i]),
                decreases self.pending_transactions@.len(),
            {
                let ghost sel_pre = selected@;
                let ghost pend_pre = self.pending_transactions@;
                let t = self.pending_transactions.remove(0);
                selected.push(t);
                proof {
                    assert(self.pending_transactions@ =~= pend_pre.drop_first());
                    assert(selected@ + self.pending_transactions@ =~= sel_pre + pend_pre);
                    assert(tx_valid(pend_pre[0])) by {
                        assert(txs_all_valid(mid.pending_transactions@));
                        assert(pend_pre[0] == pend[sel_pre.len() as int]);
                    }
                }
            }
            proof {
                assert(self.pending_transactions@ =~= Seq::<Transaction>::empty());
                assert(selected@ + self.pending_transactions@ =~= selected@);
            }
        }
        let ghost sel = selected@;
        proof {
            assert(sel == mine_selection(*old(self), now));
            assert(forall|i: int| 0 <= i < sel.len() ==> tx_valid(#[trigger] sel[i]));
        }
        let system: String = "Blockchain".to_owned();
        let miner: String = miner_address.to_owned();
        let reward_id = new_uuid();
        let reward_ts: i64 = if now <= i64::MAX - TX_LIFETIME as i64 {
            now
        } else {
            i64::MAX - TX_LIFETIME as i64
        };
        let reward = Transaction::new_at(reward_id, system, miner, self.mining_reward, 0, reward_ts);
        proof {
            assert(tx_valid(reward));
        }
        selected.push(reward);
        proof {
            assert(selected@.drop_last() =~= sel);
            assert(amount_sum(selected@) == amount_sum(sel) + reward.amount);
        }
        let head_ts = self.chain[self.chain.len() - 1].timestamp;
        let count_ok = selected.len() <= MAX_BLOCK_TRANSACTIONS;
        let sum_ok = Self::amounts_within_limit(&selected);
        let ts_ok = head_ts < i64::MAX;
        if !(count_ok && sum_ok && ts_ok) {
            return Err(MiningError::InvalidMinedBlock);
        }
        let ts: i64 = if now > head_ts {
            now
        } else {
            head_ts + 1
        };
        let index = self.chain.len() as u64;
        let previous_hash = crate::merkle::clone_bytes(&self.chain[self.chain.len() - 1].hash);
        let mut block = Block::new_at(index, selected, previous_hash, self.difficulty, ts);
        let found = block.mine_block(self.difficulty);
        if !found {
            return Err(MiningError::NonceSpaceExhausted);
        }
        let ghost head = self.chain@.last();
        proof {
            assert(block.index == head.index + 1);
            assert forall|i: int| 0 <= i < block.transactions@.len() implies tx_valid(
                #[trigger] block.transactions@[i],
            ) by {
                if i < sel.len() {
                    assert(block.transactions@[i] == sel[i]);
                } else {
                    assert(block.transactions@[i] == reward);
                }
            }
            assert(valid_successor(block, head, self.difficulty));
        }
        let valid = self.is_valid_new_block(&block, self.get_latest_block());
        proof {
            assert(valid);
        }
        if !valid {
            return Err(MiningError::InvalidMinedBlock);
        }
        let ghost pre_push_chain = self.chain@;
        self.append_mined_block(block);
        proof {
            assert(self.chain@ =~= pre_push_chain.push(block));
            assert(self.chain@.last() == block);
            assert(self.chain@.take(pre_push_chain.len() as int) =~= pre_push_chain);
        }
        Ok(())
    }

    /// One mining round at the current clock reading; the outcome is
    /// exactly `mine_rel` at that instant.
    pub fn mine_pending_transactions(&mut self, miner_address: &str) -> (r: Result<
        (),
        MiningError,
    >)
        requires
            old(self).wf(),
        ensures
            final(self).wf(),
            exists|now: i64| #[trigger] mine_rel(
                *old(self),
                miner_address@,
                now,
                *final(self),
                r,
            ),
    {
        let now = now_ts();
        let r = self.mine_pending_at(miner_address, now);
        proof {
            assert(mine_rel(*old(self), miner_address@, now, *self, r));
        }
        r
    }
}

/// Rebuilding a pool from stored entries, in order: each valid, fresh and
/// fitting entry is inserted at its fee-rate position; anything else is
/// dropped.
pub open spec fn restore_fold(pool: Seq<Transaction>, total: int, entries: Seq<Transaction>) -> (
    Seq<Transaction>,
    int,
)
    decreases entries.len(),
{
    if entries.len() == 0 {
        (pool, total)
    } else {
        let t = entries[0];
        let size = tx_size(t);
        if tx_valid(t) && total + size <= MEMPOOL_CAPACITY_BYTES && (forall|j: int|
            0 <= j < pool.len() ==> (#[trigger] pool[j]).id@ != t.id@) {
            restore_fold(insert_by_rate(pool, t), total + size, entries.drop_first())
        } else {
            restore_fold(pool, total, entries.drop_first())
        }
    }
}

impl Blockchain {
    /// Replaces the mempool with the given entries (a loaded snapshot),
    /// exactly as `restore_fold` states it: order rebuilt by fee rate,
    /// size retotalled, and any invalid, duplicate or unfitting entry
    /// dropped.
    pub fn restore_mempool(&mut self, entries: Vec<Transaction>)
        requires
            old(self).wf(),
        ensures
            final(self).wf(),
            same_except_mempool(*final(self), *old(self)),
            (final(self).mempool@, final(self).mempool_size_bytes as int) == restore_fold(
                Seq::<Transaction>::empty(),
                0,
                entries@,
            ),
    {
        self.mempool = Vec::new();
        self.mempool_size_bytes = 0;
        proof {
            assert(self.mempool@ =~= Seq::<Transaction>::empty());
            assert(pool_sizes(self.mempool@) == 0);
            assert(entries@.skip(0) =~= entries@);
        }
        let mut i: usize = 0;
        while i < entries.len()
            invariant
                0 <= i <= entries@.len(),
                self.wf(),
                same_except_mempool(*self, *old(self)),
                restore_fold(Seq::<Transaction>::empty(), 0, entries@) == restore_fold(
                    self.mempool@,
                    self.mempool_size_bytes as int,
                    entries@.skip(i as int),
                ),
            decreases entries@.len() - i,
        {
            let ghost rest = entries@.skip(i as int);
            proof {
                assert(rest[0] == entries@[i as int]);
                assert(rest.drop_first() =~= entries@.skip(i as int + 1));
            }
            let t = &entries[i];
            let size = t.estimated_size();
            let fits = size <= MEMPOOL_CAPACITY_BYTES - self.mempool_size_bytes;
            let valid = t.is_valid();
            let mut k: usize = 0;
            let mut dup = false;
            let ghost pool = self.mempool@;
            while k < self.mempool.len() && !dup
                invariant
                    pool == self.mempool@,
                    0 <= k <= pool.len(),
                    !dup ==> forall|j: int| 0 <= j < k ==> (#[trigger] pool[j]).id@ != t.id@,
                    dup ==> exists|j: int|
                        0 <= j < pool.len() && (#[trigger] pool[j]).id@ == t.id@,
                decreases pool.len() - k + (if dup { 0int } else { 1int }),
            {
                if self.mempool[k].id == t.id {
                    dup = true;
                } else {
                    k = k + 1;
                }
            }
            if valid && fits && !dup {
                self.insert_sorted(t.duplicate());
            }
            i = i + 1;
        }
        proof {
            assert(entries@.skip(entries@.len() as int) =~= Seq::<Transaction>::empty());
        }
    }
}

} // verus!
