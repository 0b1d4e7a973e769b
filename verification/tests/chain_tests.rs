use kraken_chain::block::Block;
use kraken_chain::chain::{AdmissionError, Blockchain, MiningError, ReplaceError};
use kraken_chain::transaction::Transaction;

fn keypair() -> (ring::signature::Ed25519KeyPair, String) {
    let rng = ring::rand::SystemRandom::new();
    let pkcs8 = ring::signature::Ed25519KeyPair::generate_pkcs8(&rng).unwrap();
    let key_pair = ring::signature::Ed25519KeyPair::from_pkcs8(pkcs8.as_ref()).unwrap();
    let address = hex::encode(<ring::signature::Ed25519KeyPair as ring::signature::KeyPair>::public_key(&key_pair).as_ref());
    (key_pair, address)
}

fn now() -> i64 {
    chrono::Utc::now().timestamp()
}

fn signed(
    key: &ring::signature::Ed25519KeyPair,
    id: &str,
    from: &str,
    to: &str,
    amount: u64,
    fee: u64,
    timestamp: i64,
) -> Transaction {
    let mut t = Transaction::new_at(
        id.to_string(),
        from.to_string(),
        to.to_string(),
        amount,
        fee,
        timestamp,
    );
    t.sign(key);
    t
}

#[test]
fn genesis_chain_has_one_block() {
    let bc = Blockchain::new(1, 100, 10);
    assert_eq!(bc.chain.len(), 1);
    assert_eq!(bc.chain[0].index, 0);
    assert_eq!(bc.chain[0].previous_hash, b"0".to_vec());
    assert!(bc.chain[0].transactions.is_empty());
    assert!(bc.validate_chain());
}

#[test]
fn block_hash_is_deterministic_and_input_sensitive() {
    let prev = vec![7u8; 32];
    let a = Block::new_at(3, Vec::new(), prev.clone(), 2, 1_700_000_000);
    let b = Block::new_at(3, Vec::new(), prev.clone(), 2, 1_700_000_000);
    assert_eq!(a.calculate_hash(), b.calculate_hash());
    assert_eq!(a.hash, a.calculate_hash());
    let mut c = Block::new_at(3, Vec::new(), prev, 2, 1_700_000_000);
    c.nonce = c.nonce + 1;
    assert_ne!(c.calculate_hash(), a.calculate_hash());
}

#[test]
fn mined_block_meets_target_and_validates() {
    let bc = Blockchain::new(8, 100, 10);
    let genesis_hash = bc.chain[0].hash.clone();
    let mut block = Block::new_at(1, Vec::new(), genesis_hash, 8, bc.chain[0].timestamp + 5);
    let found = block.mine_block(8);
    assert!(found);
    // leading 128 bits at difficulty 8: the first byte must be zero
    assert_eq!(block.hash[0], 0);
    assert!(bc.is_valid_new_block(&block, &bc.chain[0]));
}

#[test]
fn end_to_end_mining_round() {
    let mut bc = Blockchain::new(1, 100, 10);
    let (alice_key, alice) = keypair();
    let (bob_key, bob) = keypair();
    let (_carol_key, carol) = keypair();
    bc.add_balance(&alice, 1000);
    bc.add_balance(&bob, 500);
    assert_eq!(bc.get_balance(&alice), 1000);
    assert_eq!(bc.get_balance(&bob), 500);
    assert_eq!(bc.get_balance(&carol), 0);

    let t = now();
    let tx1 = signed(&alice_key, "tx-1", &alice, &bob, 300, 1, t);
    let tx2 = signed(&bob_key, "tx-2", &bob, &carol, 150, 1, t);
    let tx3 = signed(&alice_key, "tx-3", &alice, &carol, 200, 1, t);
    assert_eq!(bc.add_to_mempool(tx1), Ok(()));
    assert_eq!(bc.add_to_mempool(tx2), Ok(()));
    assert_eq!(bc.add_to_mempool(tx3), Ok(()));
    assert_eq!(bc.mempool.len(), 3);

    assert_eq!(bc.mine_pending_transactions(&bob), Ok(()));
    assert_eq!(bc.chain.len(), 2);
    assert!(bc.mempool.is_empty());
    assert_eq!(bc.chain[1].transactions.len(), 4);
    assert_eq!(bc.get_balance(&alice), 1000 - 300 - 200);
    assert_eq!(bc.get_balance(&bob), 500 + 300 - 150 + 100);
    assert_eq!(bc.get_balance(&carol), 150 + 200);
    assert!(bc.validate_chain());
}

#[test]
fn duplicate_admission_is_rejected() {
    let mut bc = Blockchain::new(1, 100, 10);
    let (key, addr) = keypair();
    bc.add_balance(&addr, 1000);
    let t = now();
    let tx = signed(&key, "same-id", &addr, "bob", 10, 1, t);
    let again = tx.duplicate();
    assert_eq!(bc.add_to_mempool(tx), Ok(()));
    assert_eq!(bc.add_to_mempool(again), Err(AdmissionError::Duplicate));
}

#[test]
fn admission_error_taxonomy() {
    let mut bc = Blockchain::new(1, 100, 10);
    let (key, addr) = keypair();
    let t = now();

    // unsigned: invalid
    let unsigned = Transaction::new_at("u".to_string(), addr.clone(), "bob".to_string(), 5, 1, t);
    assert_eq!(
        bc.add_to_mempool(unsigned),
        Err(AdmissionError::InvalidTransaction)
    );

    // no balance yet
    let poor = signed(&key, "p", &addr, "bob", 5, 1, t);
    assert_eq!(
        bc.add_to_mempool(poor),
        Err(AdmissionError::InsufficientBalance)
    );

    bc.add_balance(&addr, 100);

    // same-sender concurrent spend that would overdraw
    let big1 = signed(&key, "b1", &addr, "bob", 60, 1, t);
    assert_eq!(bc.add_to_mempool(big1), Ok(()));
    let big2 = signed(&key, "b2", &addr, "bob", 40, 1, t);
    assert_eq!(
        bc.add_to_mempool(big2),
        Err(AdmissionError::DoubleSpendRisk)
    );

    // already expired
    let stale = signed(&key, "s", &addr, "bob", 1, 1, t - 7200);
    assert_eq!(bc.add_to_mempool(stale), Err(AdmissionError::Expired));

    // zero fee is under the minimum fee rate
    let cheap = signed(&key, "c", &addr, "bob", 1, 0, t);
    assert_eq!(bc.add_to_mempool(cheap), Err(AdmissionError::FeeTooLow));
}

#[test]
fn oversized_transaction_is_rejected_as_full() {
    let mut bc = Blockchain::new(1, 100, 10);
    bc.add_balance("Blockchain", 200_000_000);
    let huge_recipient = "x".repeat(6_000_000);
    let t = Transaction::new_at(
        "big".to_string(),
        "Blockchain".to_string(),
        huge_recipient,
        1,
        100_000_000,
        now(),
    );
    assert_eq!(bc.add_to_mempool(t), Err(AdmissionError::MempoolFull));
}

#[test]
fn mempool_stays_sorted_by_fee_rate() {
    let mut bc = Blockchain::new(1, 100, 10);
    let (key, addr) = keypair();
    bc.add_balance(&addr, 1000);
    let t = now();
    for (id, fee) in [("f5", 5u64), ("f1", 1u64), ("f9", 9u64), ("f3", 3u64)] {
        let tx = signed(&key, id, &addr, "bob", 1, fee, t);
        assert_eq!(bc.add_to_mempool(tx), Ok(()));
    }
    for w in bc.mempool.windows(2) {
        let (a, b) = (&w[0], &w[1]);
        assert!(a.fee as u128 * b.estimated_size() >= b.fee as u128 * a.estimated_size());
    }
    assert_eq!(bc.mempool[0].id, "f9");
    assert_eq!(bc.mempool[3].id, "f1");
}

#[test]
fn replace_by_fee_requires_strictly_higher_fee() {
    let mut bc = Blockchain::new(1, 100, 10);
    let (key, addr) = keypair();
    bc.add_balance(&addr, 1000);
    let t = now();
    let original = signed(&key, "rbf", &addr, "bob", 10, 2, t);
    let signature = original.signature.clone();
    assert_eq!(bc.add_to_mempool(original), Ok(()));

    // the fee is not part of the signed content, so the signature carries over
    let mut equal_fee = Transaction::new_at(
        "rbf".to_string(),
        addr.clone(),
        "bob".to_string(),
        10,
        2,
        t,
    );
    equal_fee.signature = signature.clone();
    assert_eq!(
        bc.replace_transaction(equal_fee),
        Err(ReplaceError::FeeNotHigher)
    );

    let mut higher_fee = Transaction::new_at(
        "rbf".to_string(),
        addr.clone(),
        "bob".to_string(),
        10,
        5,
        t,
    );
    higher_fee.signature = signature;
    assert_eq!(bc.replace_transaction(higher_fee), Ok(()));
    assert_eq!(bc.mempool.len(), 1);
    assert_eq!(bc.mempool[0].id, "rbf");
    assert_eq!(bc.mempool[0].fee, 5);

    let missing = signed(&key, "other", &addr, "bob", 1, 1, t);
    assert_eq!(bc.replace_transaction(missing), Err(ReplaceError::NotFound));
}

#[test]
fn take_skips_expired_entries() {
    let mut bc = Blockchain::new(1, 100, 10);
    let (key, addr) = keypair();
    bc.add_balance(&addr, 1000);
    let t = now();
    let fresh = signed(&key, "fresh", &addr, "bob", 10, 1, t);
    assert_eq!(bc.add_to_mempool(fresh), Ok(()));
    // an expired entry planted directly in the pool: physically present
    let stale = Transaction::new_at(
        "stale".to_string(),
        "Blockchain".to_string(),
        "bob".to_string(),
        1,
        1,
        t - 7200,
    );
    bc.mempool.push(stale);
    let taken = bc.get_transactions_from_mempool(10);
    assert_eq!(taken.len(), 1);
    assert_eq!(taken[0].id, "fresh");
    assert!(bc.mempool.is_empty());
}

#[test]
fn sweep_purges_expired_entries() {
    let mut bc = Blockchain::new(1, 100, 10);
    let (key, addr) = keypair();
    bc.add_balance(&addr, 1000);
    let t = now();
    let fresh = signed(&key, "fresh", &addr, "bob", 10, 1, t);
    assert_eq!(bc.add_to_mempool(fresh), Ok(()));
    let stale = Transaction::new_at(
        "stale".to_string(),
        "Blockchain".to_string(),
        "bob".to_string(),
        1,
        1,
        t - 7200,
    );
    bc.mempool.push(stale);
    bc.clean_expired_transactions();
    assert_eq!(bc.mempool.len(), 1);
    assert_eq!(bc.mempool[0].id, "fresh");
}

#[test]
fn balance_recalculation_is_idempotent() {
    let mut bc = Blockchain::new(1, 100, 10);
    let (alice_key, alice) = keypair();
    let (_bob_key, bob) = keypair();
    bc.add_balance(&alice, 1000);
    let t = now();
    let tx = signed(&alice_key, "tx", &alice, &bob, 100, 1, t);
    assert_eq!(bc.add_to_mempool(tx), Ok(()));
    assert_eq!(bc.mine_pending_transactions(&bob), Ok(()));

    bc.recalculate_balances();
    let first = (bc.get_balance(&alice), bc.get_balance(&bob));
    bc.recalculate_balances();
    let second = (bc.get_balance(&alice), bc.get_balance(&bob));
    assert_eq!(first, second);
    // replay forgets faucet seeding: only chain transactions count
    assert_eq!(bc.get_balance(&alice), -100);
    assert_eq!(bc.get_balance(&bob), 100 + 100);
}

#[test]
fn legacy_pending_buffer_feeds_mining() {
    let mut bc = Blockchain::new(1, 100, 10);
    let (key, addr) = keypair();
    bc.add_balance(&addr, 1000);
    let t = now();
    let tx = signed(&key, "pending", &addr, "bob", 10, 1, t);
    assert_eq!(bc.add_transaction(tx), Ok(()));
    assert_eq!(bc.pending_transactions.len(), 1);
    assert_eq!(bc.mine_pending_transactions("miner"), Ok(()));
    assert!(bc.pending_transactions.is_empty());
    assert_eq!(bc.chain.len(), 2);
    assert_eq!(bc.chain[1].transactions.len(), 2);
    assert_eq!(bc.chain[1].transactions[0].id, "pending");
}

#[test]
fn add_transaction_error_cases() {
    let mut bc = Blockchain::new(1, 100, 10);
    let (key, addr) = keypair();
    let t = now();
    let unsigned = Transaction::new_at("u".to_string(), addr.clone(), "bob".to_string(), 5, 1, t);
    assert_eq!(
        bc.add_transaction(unsigned),
        Err(AdmissionError::InvalidTransaction)
    );
    let poor = signed(&key, "p", &addr, "bob", 5, 1, t);
    assert_eq!(
        bc.add_transaction(poor),
        Err(AdmissionError::InsufficientBalance)
    );
}

#[test]
fn overweight_block_is_reported_as_invalid() {
    let mut bc = Blockchain::new(1, 2_000_000, 10);
    // the reward alone exceeds the per-block value limit
    assert_eq!(
        bc.mine_pending_transactions("miner"),
        Err(MiningError::InvalidMinedBlock)
    );
    assert_eq!(bc.chain.len(), 1);
}

#[test]
fn difficulty_rises_after_a_fast_interval() {
    let mut bc = Blockchain::new(4, 100, 10);
    for _ in 0..9 {
        assert_eq!(bc.mine_pending_transactions("miner"), Ok(()));
    }
    assert_eq!(bc.chain.len(), 10);
    // nine blocks in well under the 100-second target interval
    assert_eq!(bc.difficulty, 5);
    assert_eq!(bc.block_time_window.len(), 1);
}

#[test]
fn transactions_for_address_are_collected() {
    let mut bc = Blockchain::new(1, 100, 10);
    let (alice_key, alice) = keypair();
    let (_bob_key, bob) = keypair();
    bc.add_balance(&alice, 1000);
    let t = now();
    let tx = signed(&alice_key, "tx", &alice, &bob, 100, 1, t);
    assert_eq!(bc.add_to_mempool(tx), Ok(()));
    assert_eq!(bc.mine_pending_transactions("miner"), Ok(()));
    let for_alice = bc.get_transactions_for_address(&alice);
    assert_eq!(for_alice.len(), 1);
    assert_eq!(for_alice[0].id, "tx");
    let for_miner = bc.get_transactions_for_address("miner");
    assert_eq!(for_miner.len(), 1);
    assert_eq!(for_miner[0].amount, 100);
    assert!(bc.get_transactions_for_address("stranger").is_empty());
}

#[test]
fn chain_validation_rejects_tampering() {
    let mut bc = Blockchain::new(1, 100, 10);
    assert_eq!(bc.mine_pending_transactions("miner"), Ok(()));
    assert!(bc.validate_chain());
    assert!(bc.is_chain_valid());
    bc.chain[1].transactions[0].amount += 1;
    assert!(!bc.validate_chain());
    assert!(!bc.is_chain_valid());
}
