//! Signature recovery and identity derivation: an uncompressed secp256k1
//! public key is recovered from a 65-byte r‖s‖v signature (v in {27, 28})
//! over the run's shared 32-byte digest, and the 20-byte identity is the low
//! 20 bytes of the Keccak-256 digest of the key's coordinates.

use vstd::prelude::*;
use crate::hashing::{keccak_of, keccak256_bytes};

verus! {

/// The uncompressed secp256k1 public key that ECDSA recovery yields for a
/// 32-byte prehashed digest, a 64-byte r‖s signature and a recovery id, or
/// None when no valid curve point is recovered.  The result is a function of
/// the three arguments alone.
pub uninterp spec fn recover_of(digest: Seq<u8>, sig64: Seq<u8>, recid: u8) -> Option<Seq<u8>>;

/// Relies on k256's ECDSA recovery: ecdsa::RecoveryId::try_from and
/// ecdsa::Signature::try_from to build the call's arguments (both return
/// errors, never panic), VerifyingKey::recover_from_prehash for the recovery
/// itself, and VerifyingKey::to_encoded_point(false), whose uncompressed
/// SEC1 encoding is 65 bytes beginning with 0x04.  The recovered key is a
/// function of digest, signature scalars and recovery id alone.
#[verifier::external_body]
fn recover_uncompressed(digest: &[u8], sig64: &[u8], recid: u8) -> (r: Option<Vec<u8>>)
    requires
        digest@.len() == 32,
        sig64@.len() == 64,
    ensures
        match r {
            Some(k) => recover_of(digest@, sig64@, recid) == Some(k@) && k@.len() == 65 && k@[0]
                == 4,
            None => recover_of(digest@, sig64@, recid) is None,
        },
{
    let rid = match k256::ecdsa::RecoveryId::try_from(recid) {
        Ok(rid) => rid,
        Err(_) => return None,
    };
    let sig = match k256::ecdsa::Signature::try_from(sig64) {
        Ok(sig) => sig,
        Err(_) => return None,
    };
    match k256::ecdsa::VerifyingKey::recover_from_prehash(digest, &sig, rid) {
        Ok(key) => Some(key.to_encoded_point(false).as_bytes().to_vec()),
        Err(_) => None,
    }
}

/// The key a 65-byte r‖s‖v signature recovers to over a digest: the v byte
/// must be 27 or 28 (mapped to recovery id 0 or 1); any other shape is
/// rejected.
pub open spec fn recovered_key_of(digest: Seq<u8>, sig: Seq<u8>) -> Option<Seq<u8>> {
    if sig.len() == 65 && (sig[64] == 27 || sig[64] == 28) {
        recover_of(digest, sig.take(64), (sig[64] - 27) as u8)
    } else {
        None
    }
}

/// Recover the uncompressed public key a 65-byte signature vouches with,
/// over the run's 32-byte digest; None on any structural failure (wrong
/// length, recovery indicator outside {27, 28}, or failed point recovery).
pub fn recover_pubkey_with_digest(digest: &[u8], signature: &[u8]) -> (r: Option<Vec<u8>>)
    requires
        digest@.len() == 32,
    ensures
        r is Some <==> recovered_key_of(digest@, signature@) is Some,
        r is Some ==> Some(r->0@) == recovered_key_of(digest@, signature@),
        r is Some ==> r->0@.len() == 65 && r->0@[0] == 4,
{
    if signature.len() != 65 {
        return None;
    }
    let v = signature[64];
    if v != 27 && v != 28 {
        return None;
    }
    let sig64 = vstd::slice::slice_subrange(signature, 0, 64);
    proof {
        assert(sig64@ =~= signature@.take(64));
    }
    recover_uncompressed(digest, sig64, v - 27)
}

/// The identity a public key stands for: the low 20 bytes of the Keccak-256
/// digest of the key's 64 coordinate bytes (the 0x04 prefix, when present,
/// is not hashed).
pub open spec fn address_of_key(key: Seq<u8>) -> Seq<u8> {
    let hashed = keccak_of(
        if key.len() > 0 && key[0] == 4 {
            key.skip(1)
        } else {
            key
        },
    );
    hashed.skip(hashed.len() - 20)
}

/// Derive the 20-byte identity of a public key.
pub fn pubkey_to_address(pubkey: &[u8]) -> (r: Vec<u8>)
    ensures
        r@ == address_of_key(pubkey@),
        r@.len() == 20,
{
    let to_hash: &[u8] = if pubkey.len() > 0 && pubkey[0] == 4 {
        vstd::slice::slice_subrange(pubkey, 1, pubkey.len())
    } else {
        pubkey
    };
    proof {
        assert(to_hash@ =~= (if pubkey@.len() > 0 && pubkey@[0] == 4 {
            pubkey@.skip(1)
        } else {
            pubkey@
        }));
    }
    let hashed = keccak256_bytes(to_hash);
    let tail = vstd::slice::slice_subrange(hashed.as_slice(), 12, 32);
    proof {
        assert(tail@ =~= hashed@.skip(hashed@.len() - 20));
    }
    vstd::slice::slice_to_vec(tail)
}

/// The identity a claim's signature recovers to over a digest, or None on
/// any structural failure of the signature.
pub open spec fn claim_identity_of(digest: Seq<u8>, sig: Seq<u8>) -> Option<Seq<u8>> {
    match recovered_key_of(digest, sig) {
        Some(key) => Some(address_of_key(key)),
        None => None,
    }
}

/// Recover a signature's identity over the run's digest.
pub fn derive_identity(digest: &[u8], signature: &[u8]) -> (r: Option<Vec<u8>>)
    requires
        digest@.len() == 32,
    ensures
        r is Some <==> claim_identity_of(digest@, signature@) is Some,
        r is Some ==> Some(r->0@) == claim_identity_of(digest@, signature@),
        r is Some ==> r->0@.len() == 20,
{
    match recover_pubkey_with_digest(digest, signature) {
        Some(key) => Some(pubkey_to_address(key.as_slice())),
        None => None,
    }
}

} // verus!
