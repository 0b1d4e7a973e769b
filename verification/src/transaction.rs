//! Transactions: a transfer request with fee and expiry that owns its own
//! content hash and validity check. Quantities are integers in the ledger's
//! smallest currency unit.
use vstd::prelude::*;
use vstd::utf8::encode_utf8;

use crate::ambient::{new_uuid, now_ts};
use crate::hashing::{hex_decode, hex_encode, hex_of, is_hex_seq, sha256, sha256_of, unhex_of};
use crate::numeric::{dec_digits, dec_signed, i64_to_decimal, u64_to_decimal};
use crate::sig::{ed25519_sign, ed25519_verifies, ed25519_verify};

verus! {

/// Fixed part of a transaction's estimated serialized size, in bytes; the
/// variable part is the byte length of its address and signature strings.
pub const TX_BASE_SIZE: u64 = 128;

/// How long a transaction stays admissible after creation, in seconds.
pub const TX_LIFETIME: u64 = 3600;

/// The reserved sender address of system-issued (mining reward)
/// transactions, which are exempt from signature checks.
pub open spec fn system_sender() -> Seq<char> {
    "Blockchain"@
}

#[derive(Debug, Clone)]
pub struct Transaction {
    pub id: String,
    pub from: String,
    pub to: String,
    pub amount: u64,
    pub fee: u64,
    pub timestamp: i64,
    pub expiration: i64,
    pub signature: Option<String>,
}

/// The canonical byte serialization that is hashed and signed: identifier,
/// sender, recipient, amount and creation time — not fee, not expiration.
pub open spec fn content_bytes(t: Transaction) -> Seq<u8> {
    encode_utf8(t.id@) + encode_utf8(t.from@) + encode_utf8(t.to@) + dec_digits(t.amount as nat)
        + dec_signed(t.timestamp as int)
}

/// A transaction is valid iff it is system-issued, or it moves a positive
/// amount and carries a hex signature that the signature scheme accepts
/// for its content hash under the sender address read as a public key.
pub open spec fn tx_valid(t: Transaction) -> bool {
    ||| t.from@ == system_sender()
    ||| {
        &&& t.amount > 0
        &&& t.signature is Some
        &&& is_hex_seq(t.from@)
        &&& is_hex_seq(t.signature->0@)
        &&& ed25519_verifies(
            unhex_of(t.from@),
            sha256_of(content_bytes(t)),
            unhex_of(t.signature->0@),
        )
    }
}

/// A transaction's estimated serialized size in bytes.
pub open spec fn tx_size(t: Transaction) -> int {
    TX_BASE_SIZE + encode_utf8(t.from@).len() + encode_utf8(t.to@).len() + (match t.signature {
        Some(s) => encode_utf8(s@).len() as int,
        None => 0,
    })
}

/// The sum of the amounts moved by `txs`.
pub open spec fn amount_sum(txs: Seq<Transaction>) -> int
    decreases txs.len(),
{
    if txs.len() == 0 {
        0
    } else {
        amount_sum(txs.drop_last()) + txs.last().amount
    }
}

impl Transaction {
    /// Builds a transaction from explicit identifier and creation time;
    /// the expiration is a fixed offset after creation and the signature
    /// starts empty.
    pub fn new_at(
        id: String,
        from: String,
        to: String,
        amount: u64,
        fee: u64,
        timestamp: i64,
    ) -> (t: Transaction)
        requires
            timestamp + TX_LIFETIME <= i64::MAX,
        ensures
            t == (Transaction {
                id,
                from,
                to,
                amount,
                fee,
                timestamp,
                expiration: (timestamp + TX_LIFETIME) as i64,
                signature: None::<String>,
            }),
    {
        Transaction {
            id,
            from,
            to,
            amount,
            fee,
            timestamp,
            expiration: timestamp + TX_LIFETIME as i64,
            signature: None,
        }
    }

    /// Builds a transaction with a fresh random identifier, stamped at the
    /// current time. Identifier and clock reading cannot be pinned down;
    /// everything else is.
    pub fn new(from: String, to: String, amount: u64, fee: u64) -> (t: Transaction)
        ensures
            t.from == from,
            t.to == to,
            t.amount == amount,
            t.fee == fee,
            t.expiration == t.timestamp + TX_LIFETIME,
            t.signature is None,
            t.id@.len() == 36,
    {
        let id = new_uuid();
        let now = now_ts();
        let now = if now <= i64::MAX - TX_LIFETIME as i64 {
            now
        } else {
            i64::MAX - TX_LIFETIME as i64
        };
        Self::new_at(id, from, to, amount, fee, now)
    }

    /// The canonical bytes of `content_bytes`: what is hashed and signed.
    pub fn serialize_for_signing(&self) -> (r: Vec<u8>)
        ensures
            r@ == content_bytes(*self),
    {
        let mut data: Vec<u8> = Vec::new();
        data.extend_from_slice(self.id.as_str().as_bytes());
        data.extend_from_slice(self.from.as_str().as_bytes());
        data.extend_from_slice(self.to.as_str().as_bytes());
        let mut amount_digits = u64_to_decimal(self.amount);
        data.append(&mut amount_digits);
        let mut time_digits = i64_to_decimal(self.timestamp);
        data.append(&mut time_digits);
        assert(data@ =~= content_bytes(*self));
        data
    }

    /// The transaction's content hash: the Merkle leaf value and the
    /// signing payload.
    pub fn calculate_hash(&self) -> (h: Vec<u8>)
        ensures
            h@ == sha256_of(content_bytes(*self)),
            h@.len() == 32,
    {
        let data = self.serialize_for_signing();
        sha256(data.as_slice())
    }

    /// Decides validity exactly as `tx_valid` states it.
    pub fn is_valid(&self) -> (r: bool)
        ensures
            r == tx_valid(*self),
    {
        let system: String = "Blockchain".to_owned();
        if self.from == system {
            return true;
        }
        if self.amount == 0 {
            return false;
        }
        match &self.signature {
            Some(sig) => {
                match hex_decode(self.from.as_str()) {
                    Some(public_key) => {
                        match hex_decode(sig.as_str()) {
                            Some(sig_bytes) => {
                                let message = self.calculate_hash();
                                ed25519_verify(
                                    public_key.as_slice(),
                                    message.as_slice(),
                                    sig_bytes.as_slice(),
                                )
                            },
                            None => false,
                        }
                    },
                    None => false,
                }
            },
            None => false,
        }
    }

    /// Signs the content hash with the external signature scheme and
    /// stores the signature hex-encoded; every other field is kept.
    pub fn sign(&mut self, key_pair: &ring::signature::Ed25519KeyPair)
        ensures
            final(self).id == old(self).id,
            final(self).from == old(self).from,
            final(self).to == old(self).to,
            final(self).amount == old(self).amount,
            final(self).fee == old(self).fee,
            final(self).timestamp == old(self).timestamp,
            final(self).expiration == old(self).expiration,
            final(self).signature is Some,
            exists|sig: Seq<u8>|
                sig.len() == 64 && final(self).signature->0@ == #[trigger] hex_of(sig),
    {
        let message = self.calculate_hash();
        let sig = ed25519_sign(key_pair, message.as_slice());
        let encoded = hex_encode(sig.as_slice());
        self.signature = Some(encoded);
        proof {
            assert(self.signature->0@ == hex_of(sig@));
        }
    }

    /// A field-for-field copy.
    pub fn duplicate(&self) -> (t: Transaction)
        ensures
            t == *self,
    {
        Transaction {
            id: self.id.clone(),
            from: self.from.clone(),
            to: self.to.clone(),
            amount: self.amount,
            fee: self.fee,
            timestamp: self.timestamp,
            expiration: self.expiration,
            signature: match &self.signature {
                Some(s) => Some(s.clone()),
                None => None,
            },
        }
    }

    /// The estimated serialized size, as `tx_size` states it.
    pub fn estimated_size(&self) -> (n: u128)
        ensures
            n as int == tx_size(*self),
    {
        let variable: u128 = self.from.as_str().as_bytes().len() as u128
            + self.to.as_str().as_bytes().len() as u128 + (match &self.signature {
            Some(s) => s.as_str().as_bytes().len() as u128,
            None => 0u128,
        });
        TX_BASE_SIZE as u128 + variable
    }
}

} // verus!
