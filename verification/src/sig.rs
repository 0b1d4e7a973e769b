//! The external signature scheme, specified only at its interface: Ed25519
//! signing and verification through the ring crate.
use vstd::prelude::*;

verus! {

#[verifier::external_type_specification]
#[verifier::external_body]
pub struct ExEd25519KeyPair(ring::signature::Ed25519KeyPair);

/// Whether Ed25519 verification accepts `sig` as a signature of `message`
/// under `public_key`. Verification is deterministic in its three inputs,
/// so the result can be named; `ed25519_verify` below ties the name to
/// ring's implementation.
pub uninterp spec fn ed25519_verifies(public_key: Seq<u8>, message: Seq<u8>, sig: Seq<u8>) -> bool;

/// Relies on ring's `UnparsedPublicKey::verify` with the `ED25519`
/// algorithm: acceptance is a function of key, message and signature alone.
#[verifier::external_body]
pub(crate) fn ed25519_verify(public_key: &[u8], message: &[u8], sig: &[u8]) -> (r: bool)
    ensures
        r == ed25519_verifies(public_key@, message@, sig@),
{
    ring::signature::UnparsedPublicKey::new(&ring::signature::ED25519, public_key)
        .verify(message, sig)
        .is_ok()
}

/// Relies on ring's `Ed25519KeyPair::sign`: an Ed25519 signature is 64
/// bytes. The key pair is opaque here, so nothing more is stated.
#[verifier::external_body]
pub(crate) fn ed25519_sign(key_pair: &ring::signature::Ed25519KeyPair, message: &[u8]) -> (r: Vec<
    u8,
>)
    ensures
        r@.len() == 64,
{
    key_pair.sign(message).as_ref().to_vec()
}

} // verus!
