//! Merkle inclusion: recompute a root from a leaf commitment and a
//! sibling-path proof keyed by bit position, and compare it with the
//! committed root.  A mismatch is a normal outcome, not a fault.

use vstd::prelude::*;
use crate::hashing::{node_hash, node_hash_of};
use crate::encoding::bytes_eq;

verus! {

/// Bit `i` of the path word, bit 0 least significant; bits beyond the word
/// are 0.
pub open spec fn path_bit(bits: u32, i: int) -> bool {
    0 <= i < 32 && ((bits >> (i as u32)) & 1u32) == 1u32
}

/// The root reached from `cur` at level `i` by absorbing the remaining
/// siblings: at each level the current node is the left child when the
/// path bit is 0 and the right child when it is 1.
pub open spec fn root_from_level(cur: Seq<u8>, bits: u32, siblings: Seq<Seq<u8>>, i: int) -> Seq<u8>
    decreases siblings.len() - i,
{
    if i < 0 || i >= siblings.len() {
        cur
    } else {
        let next = if path_bit(bits, i) {
            node_hash_of(siblings[i], cur)
        } else {
            node_hash_of(cur, siblings[i])
        };
        root_from_level(next, bits, siblings, i + 1)
    }
}

/// The root a leaf commitment reaches through a sibling path.  An empty
/// path leaves the leaf itself as the root.
pub open spec fn inclusion_root_of(leaf: Seq<u8>, bits: u32, siblings: Seq<Seq<u8>>) -> Seq<u8> {
    root_from_level(leaf, bits, siblings, 0)
}

/// Recompute the root from a leaf commitment and a sibling-path proof.
pub fn compute_inclusion_root(commitment: &[u8], path_bits: u32, siblings: &Vec<Vec<u8>>) -> (r:
    Vec<u8>)
    ensures
        r@ == inclusion_root_of(commitment@, path_bits, siblings.deep_view()),
{
    let ghost sibs = siblings.deep_view();
    let mut current: Vec<u8> = vstd::slice::slice_to_vec(commitment);
    let mut i: usize = 0;
    while i < siblings.len()
        invariant
            i <= siblings@.len(),
            sibs == siblings.deep_view(),
            sibs.len() == siblings@.len(),
            root_from_level(current@, path_bits, sibs, i as int) == root_from_level(
                commitment@,
                path_bits,
                sibs,
                0,
            ),
        decreases siblings@.len() - i,
    {
        let bit = if i < 32 {
            ((path_bits >> (i as u32)) & 1u32) == 1u32
        } else {
            false
        };
        proof {
            assert(bit == path_bit(path_bits, i as int));
            assert(sibs[i as int] == siblings@[i as int].deep_view());
            assert(siblings@[i as int].deep_view() =~= siblings@[i as int]@);
        }
        let sibling: &Vec<u8> = &siblings[i];
        let next = if bit {
            node_hash(sibling.as_slice(), current.as_slice())
        } else {
            node_hash(current.as_slice(), sibling.as_slice())
        };
        current = next;
        i = i + 1;
    }
    current
}

/// Check a leaf commitment against the committed root through its
/// sibling-path proof.
pub fn verify_inclusion(
    commitment: &[u8],
    path_bits: u32,
    siblings: &Vec<Vec<u8>>,
    root: &[u8],
) -> (r: bool)
    ensures
        r == (inclusion_root_of(commitment@, path_bits, siblings.deep_view()) == root@),
{
    let computed = compute_inclusion_root(commitment, path_bits, siblings);
    bytes_eq(computed.as_slice(), root)
}

} // verus!
