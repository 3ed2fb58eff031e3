//! The identity and signature provider, consumed as an opaque capability.
//!
//! Keys live in the library as their protobuf-encoded bytes; only the
//! trusted items below hand them to the outside provider. What the provider
//! decides is named by the two uninterpreted spec functions: the library
//! never restates the cryptography, it only carries the verdicts.

use vstd::prelude::*;

verus! {

/// Whether the identity provider can decode `key` as a public key. Fixed by
/// the provider's decoder alone; the library learns it through [`key_ok`].
pub uninterp spec fn key_wf(key: Seq<u8>) -> bool;

/// Whether `sig` is a valid signature over `msg` by the public key encoded
/// as `key` (false whenever `key` itself does not decode). Fixed by the
/// signature algorithm alone; the library learns it through [`verify_sig`].
pub uninterp spec fn sig_valid(key: Seq<u8>, msg: Seq<u8>, sig: Seq<u8>) -> bool;

#[verifier::external_type_specification]
#[verifier::external_body]
pub struct ExKeypair(libp2p_identity::Keypair);

/// Relies on libp2p_identity's `PublicKey::try_decode_protobuf`: whether it
/// accepts a byte string is a function of the bytes alone.
#[verifier::external_body]
pub(crate) fn key_ok(key: &[u8]) -> (r: bool)
    ensures
        r == key_wf(key@),
{
    libp2p_identity::PublicKey::try_decode_protobuf(key).is_ok()
}

/// Relies on libp2p_identity's `PublicKey::try_decode_protobuf` and
/// `PublicKey::verify`: both are functions of their byte arguments alone,
/// and a key that does not decode verifies nothing.
#[verifier::external_body]
pub(crate) fn verify_sig(key: &[u8], msg: &[u8], sig: &[u8]) -> (r: bool)
    ensures
        r == sig_valid(key@, msg@, sig@),
{
    match libp2p_identity::PublicKey::try_decode_protobuf(key) {
        Ok(k) => k.verify(msg, sig),
        Err(_) => false,
    }
}

/// Relies on libp2p_identity's `Keypair::public` and
/// `PublicKey::encode_protobuf`: the encoded public half of a keypair is a
/// byte string that `PublicKey::try_decode_protobuf` accepts again.
#[verifier::external_body]
pub fn public_key_bytes(kp: &libp2p_identity::Keypair) -> (r: Vec<u8>)
    ensures
        key_wf(r@),
{
    kp.public().encode_protobuf()
}

/// Relies on libp2p_identity's `Keypair::sign`. Nothing is promised of the
/// signature; the projector checks every signature it reads.
#[verifier::external_body]
pub fn sign_bytes(kp: &libp2p_identity::Keypair, msg: &[u8]) -> Option<Vec<u8>> {
    kp.sign(msg).ok()
}

} // verus!
