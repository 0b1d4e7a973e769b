use kraken_chain::merkle::MerkleTree;
use kraken_chain::transaction::Transaction;

fn tx(id: &str, from: &str, to: &str, amount: u64) -> Transaction {
    Transaction::new_at(
        id.to_string(),
        from.to_string(),
        to.to_string(),
        amount,
        1,
        1_700_000_000,
    )
}

#[test]
fn empty_tree_has_empty_root() {
    let txs: Vec<Transaction> = Vec::new();
    let tree = MerkleTree::new(&txs);
    assert!(tree.root.is_empty());
}

#[test]
fn single_transaction_tree_roundtrip() {
    let txs = vec![tx("a", "alice", "bob", 5)];
    let tree = MerkleTree::new(&txs);
    assert_eq!(tree.root.len(), 32);
    let proof = tree.get_proof(&txs[0]).expect("leaf must be present");
    assert!(MerkleTree::verify_proof(&tree.root, &txs[0], &proof));
}

#[test]
fn every_leaf_roundtrips_even_count() {
    let txs = vec![
        tx("a", "alice", "bob", 5),
        tx("b", "bob", "carol", 7),
        tx("c", "carol", "alice", 9),
        tx("d", "alice", "carol", 11),
    ];
    let tree = MerkleTree::new(&txs);
    for t in &txs {
        let proof = tree.get_proof(t).expect("leaf must be present");
        assert!(MerkleTree::verify_proof(&tree.root, t, &proof));
    }
}

#[test]
fn every_leaf_roundtrips_odd_count() {
    let txs = vec![
        tx("a", "alice", "bob", 5),
        tx("b", "bob", "carol", 7),
        tx("c", "carol", "alice", 9),
    ];
    let tree = MerkleTree::new(&txs);
    for t in &txs {
        let proof = tree.get_proof(t).expect("leaf must be present");
        assert!(MerkleTree::verify_proof(&tree.root, t, &proof));
    }
}

#[test]
fn absent_transaction_has_no_proof() {
    let txs = vec![tx("a", "alice", "bob", 5), tx("b", "bob", "carol", 7)];
    let tree = MerkleTree::new(&txs);
    let stranger = tx("z", "mallory", "bob", 5);
    assert!(tree.get_proof(&stranger).is_none());
}

#[test]
fn forged_proof_is_rejected() {
    let txs = vec![
        tx("a", "alice", "bob", 5),
        tx("b", "bob", "carol", 7),
        tx("c", "carol", "alice", 9),
        tx("d", "alice", "carol", 11),
    ];
    let tree = MerkleTree::new(&txs);
    let mut proof = tree.get_proof(&txs[1]).expect("leaf must be present");
    proof[0].sibling[0] ^= 1;
    assert!(!MerkleTree::verify_proof(&tree.root, &txs[1], &proof));
}

#[test]
fn pair_and_hash_matches_sha256_of_concatenation() {
    // Holds the trusted digest wrapper to the real sha2 output: pairing
    // two nodes must hash the concatenation of their bytes.
    let left = vec![1u8; 32];
    let right = vec![2u8; 32];
    let paired = MerkleTree::pair_and_hash(vec![left.clone(), right.clone()]);
    assert_eq!(paired.len(), 1);
    let mut cat = left.clone();
    cat.extend_from_slice(&right);
    let expected = <sha2::Sha256 as sha2::Digest>::digest(&cat).to_vec();
    assert_eq!(paired[0], expected);
}

#[test]
fn pair_and_hash_duplicates_trailing_node() {
    let only = vec![9u8; 32];
    let paired = MerkleTree::pair_and_hash(vec![only.clone()]);
    let mut cat = only.clone();
    cat.extend_from_slice(&only);
    let expected = <sha2::Sha256 as sha2::Digest>::digest(&cat).to_vec();
    assert_eq!(paired, vec![expected]);
}

#[test]
fn content_hash_matches_sha256_of_serialization() {
    let t = tx("a", "alice", "bob", 5);
    let bytes = t.serialize_for_signing();
    let expected = <sha2::Sha256 as sha2::Digest>::digest(&bytes).to_vec();
    assert_eq!(t.calculate_hash(), expected);
}
