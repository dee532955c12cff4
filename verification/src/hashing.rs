//! Canonical hashing: the fixed 256-bit hash used both for identity
//! derivation and for Merkle leaves and nodes, and the rule that a parent
//! node is the hash of the two children's concatenation.

use vstd::prelude::*;
use sha3::Digest;

verus! {

/// The 32-byte Keccak-256 digest of a byte sequence.  The digest is a
/// function of the input bytes alone; nothing more is assumed of it here.
pub uninterp spec fn keccak_of(input: Seq<u8>) -> Seq<u8>;

/// Relies on sha3::Keccak256 (through the Digest trait's new, update and
/// finalize): it returns a 32-byte digest that is a function of the input
/// bytes alone.
#[verifier::external_body]
pub fn keccak256_bytes(input: &[u8]) -> (r: Vec<u8>)
    ensures
        r@ == keccak_of(input@),
        r@.len() == 32,
{
    let mut hasher = sha3::Keccak256::new();
    hasher.update(input);
    hasher.finalize().to_vec()
}

/// A parent node commits to its children: hash(left ‖ right), no separator.
pub open spec fn node_hash_of(left: Seq<u8>, right: Seq<u8>) -> Seq<u8> {
    keccak_of(left + right)
}

/// Hash the concatenation of two byte strings, as a Merkle parent node does.
pub fn node_hash(left: &[u8], right: &[u8]) -> (r: Vec<u8>)
    ensures
        r@ == node_hash_of(left@, right@),
        r@.len() == 32,
{
    let mut buf: Vec<u8> = Vec::new();
    let mut i: usize = 0;
    while i < left.len()
        invariant
            i <= left@.len(),
            buf@ == left@.take(i as int),
        decreases left@.len() - i,
    {
        buf.push(left[i]);
        proof {
            assert(left@.take(i as int + 1) =~= left@.take(i as int).push(left@[i as int]));
        }
        i = i + 1;
    }
    proof {
        assert(left@.take(left@.len() as int) =~= left@);
    }
    let mut j: usize = 0;
    while j < right.len()
        invariant
            j <= right@.len(),
            buf@ == left@ + right@.take(j as int),
        decreases right@.len() - j,
    {
        buf.push(right[j]);
        proof {
            assert(left@ + right@.take(j as int + 1) =~= (left@ + right@.take(j as int)).push(
                right@[j as int],
            ));
        }
        j = j + 1;
    }
    proof {
        assert(left@ + right@.take(right@.len() as int) =~= left@ + right@);
    }
    keccak256_bytes(buf.as_slice())
}

} // verus!
