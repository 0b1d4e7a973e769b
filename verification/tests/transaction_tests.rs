use kraken_chain::transaction::Transaction;

fn keypair() -> (ring::signature::Ed25519KeyPair, String) {
    let rng = ring::rand::SystemRandom::new();
    let pkcs8 = ring::signature::Ed25519KeyPair::generate_pkcs8(&rng).unwrap();
    let key_pair = ring::signature::Ed25519KeyPair::from_pkcs8(pkcs8.as_ref()).unwrap();
    let address = hex::encode(<ring::signature::Ed25519KeyPair as ring::signature::KeyPair>::public_key(&key_pair).as_ref());
    (key_pair, address)
}

#[test]
fn new_at_fills_fields_and_expiry() {
    let t = Transaction::new_at(
        "id-1".to_string(),
        "alice".to_string(),
        "bob".to_string(),
        42,
        3,
        1_700_000_000,
    );
    assert_eq!(t.id, "id-1");
    assert_eq!(t.from, "alice");
    assert_eq!(t.to, "bob");
    assert_eq!(t.amount, 42);
    assert_eq!(t.fee, 3);
    assert_eq!(t.timestamp, 1_700_000_000);
    assert_eq!(t.expiration, 1_700_000_000 + 3600);
    assert!(t.signature.is_none());
}

#[test]
fn new_assigns_fresh_identifiers() {
    let a = Transaction::new("alice".to_string(), "bob".to_string(), 1, 1);
    let b = Transaction::new("alice".to_string(), "bob".to_string(), 1, 1);
    assert_eq!(a.id.len(), 36);
    assert_ne!(a.id, b.id);
    assert_eq!(a.expiration, a.timestamp + 3600);
}

#[test]
fn system_transaction_is_valid_without_signature() {
    let t = Transaction::new_at(
        "r".to_string(),
        "Blockchain".to_string(),
        "miner".to_string(),
        100,
        0,
        1_700_000_000,
    );
    assert!(t.is_valid());
}

#[test]
fn unsigned_transaction_is_invalid() {
    let (_key, address) = keypair();
    let t = Transaction::new_at(
        "t".to_string(),
        address,
        "bob".to_string(),
        10,
        1,
        1_700_000_000,
    );
    assert!(!t.is_valid());
}

#[test]
fn zero_amount_transaction_is_invalid() {
    let (key, address) = keypair();
    let mut t = Transaction::new_at(
        "t".to_string(),
        address,
        "bob".to_string(),
        0,
        1,
        1_700_000_000,
    );
    t.sign(&key);
    assert!(!t.is_valid());
}

#[test]
fn signed_transaction_verifies() {
    let (key, address) = keypair();
    let mut t = Transaction::new_at(
        "t".to_string(),
        address,
        "bob".to_string(),
        10,
        1,
        1_700_000_000,
    );
    t.sign(&key);
    assert!(t.signature.is_some());
    assert_eq!(t.signature.as_ref().unwrap().len(), 128);
    assert!(t.is_valid());
}

#[test]
fn tampered_amount_breaks_signature() {
    let (key, address) = keypair();
    let mut t = Transaction::new_at(
        "t".to_string(),
        address,
        "bob".to_string(),
        10,
        1,
        1_700_000_000,
    );
    t.sign(&key);
    t.amount = 11;
    assert!(!t.is_valid());
}

#[test]
fn signature_from_wrong_key_is_rejected() {
    let (_key_a, address_a) = keypair();
    let (key_b, _address_b) = keypair();
    let mut t = Transaction::new_at(
        "t".to_string(),
        address_a,
        "bob".to_string(),
        10,
        1,
        1_700_000_000,
    );
    t.sign(&key_b);
    assert!(!t.is_valid());
}

#[test]
fn non_hex_sender_is_invalid() {
    let mut t = Transaction::new_at(
        "t".to_string(),
        "not-hex!".to_string(),
        "bob".to_string(),
        10,
        1,
        1_700_000_000,
    );
    t.signature = Some("00".repeat(64));
    assert!(!t.is_valid());
}

#[test]
fn estimated_size_counts_base_and_strings() {
    let t = Transaction::new_at(
        "id".to_string(),
        "abcd".to_string(),
        "efg".to_string(),
        1,
        1,
        1_700_000_000,
    );
    assert_eq!(t.estimated_size(), 128 + 4 + 3);
    let mut signed = t.duplicate();
    signed.signature = Some("aa".repeat(64));
    assert_eq!(signed.estimated_size(), 128 + 4 + 3 + 128);
}

#[test]
fn duplicate_copies_every_field() {
    let t = Transaction::new_at(
        "id".to_string(),
        "alice".to_string(),
        "bob".to_string(),
        7,
        2,
        1_700_000_000,
    );
    let d = t.duplicate();
    assert_eq!(d.id, t.id);
    assert_eq!(d.from, t.from);
    assert_eq!(d.to, t.to);
    assert_eq!(d.amount, t.amount);
    assert_eq!(d.fee, t.fee);
    assert_eq!(d.timestamp, t.timestamp);
    assert_eq!(d.expiration, t.expiration);
    assert_eq!(d.signature, t.signature);
}

#[test]
fn content_hash_ignores_fee_and_expiration() {
    let a = Transaction::new_at(
        "id".to_string(),
        "alice".to_string(),
        "bob".to_string(),
        7,
        2,
        1_700_000_000,
    );
    let mut b = a.duplicate();
    b.fee = 99;
    b.expiration = 42;
    assert_eq!(a.calculate_hash(), b.calculate_hash());
}
