//! End-to-end scenarios: small Merkle trees built with the canonical
//! leaf/node rules, real secp256k1 signatures, and the aggregate run.

use k256::ecdsa::SigningKey;
use sha3::{Digest, Keccak256};
use token_ownership::aggregate::{
    aggregate_balances, InclusionBranches, PrivateInputs, PublicInputs, SignedMessage, VerifyError,
};

fn keccak(data: &[u8]) -> [u8; 32] {
    let mut hasher = Keccak256::new();
    hasher.update(data);
    let out = hasher.finalize();
    let mut r = [0u8; 32];
    r.copy_from_slice(&out);
    r
}

fn node(left: &[u8; 32], right: &[u8; 32]) -> [u8; 32] {
    let mut buf = [0u8; 64];
    buf[..32].copy_from_slice(left);
    buf[32..].copy_from_slice(right);
    keccak(&buf)
}

fn key(tag: u8) -> SigningKey {
    let mut secret = [0u8; 32];
    secret[31] = tag;
    SigningKey::from_slice(&secret).expect("valid secret scalar")
}

/// Lowercase 0x-prefixed address of a signing key, as the tree builder
/// renders it.
fn address(sk: &SigningKey) -> String {
    let point = sk.verifying_key().to_encoded_point(false);
    let bytes = point.as_bytes();
    assert_eq!(bytes.len(), 65);
    assert_eq!(bytes[0], 4);
    let digest = keccak(&bytes[1..]);
    format!("0x{}", hex::encode(&digest[12..]))
}

fn leaf(address: &str, balance: u64) -> [u8; 32] {
    let text = format!("{}:{}", address.to_lowercase(), balance);
    keccak(text.as_bytes())
}

fn sign(sk: &SigningKey, digest: &[u8; 32]) -> String {
    let (sig, recid) = sk.sign_prehash_recoverable(digest).expect("signable digest");
    let mut bytes = sig.to_bytes().to_vec();
    bytes.push(27 + recid.to_byte());
    format!("0x{}", hex::encode(bytes))
}

fn shared_digest() -> [u8; 32] {
    keccak(b"token distribution claim context")
}

fn claim(signature: String, balance: u64, index: u32, branches: Vec<[u8; 32]>) -> SignedMessage {
    SignedMessage {
        signature,
        balance,
        inclusion_branches: InclusionBranches {
            index,
            branches: branches.iter().map(|b| format!("0x{}", hex::encode(b))).collect(),
        },
    }
}

fn context(digest: &[u8; 32], root: &[u8; 32]) -> PublicInputs {
    PublicInputs {
        message_digest: format!("0x{}", hex::encode(digest)),
        merkle_root: format!("0x{}", hex::encode(root)),
    }
}

/// A two-leaf tree: identities A (balance 100) and B (balance 200).
struct TwoLeafTree {
    digest: [u8; 32],
    root: [u8; 32],
    leaf_a: [u8; 32],
    leaf_b: [u8; 32],
    sig_a: String,
    sig_b: String,
}

fn two_leaf_tree() -> TwoLeafTree {
    let digest = shared_digest();
    let a = key(1);
    let b = key(2);
    let leaf_a = leaf(&address(&a), 100);
    let leaf_b = leaf(&address(&b), 200);
    let root = node(&leaf_a, &leaf_b);
    TwoLeafTree { digest, root, leaf_a, leaf_b, sig_a: sign(&a, &digest), sig_b: sign(&b, &digest) }
}

#[test]
fn round_trip_two_leaves() {
    let t = two_leaf_tree();
    let public = context(&t.digest, &t.root);
    let private = PrivateInputs {
        signed_messages: vec![
            claim(t.sig_a.clone(), 100, 0, vec![t.leaf_b]),
            claim(t.sig_b.clone(), 200, 1, vec![t.leaf_a]),
        ],
    };
    assert_eq!(aggregate_balances(&public, &private), Ok(300));
}

#[test]
fn duplicate_claim_counts_once() {
    let t = two_leaf_tree();
    let public = context(&t.digest, &t.root);
    let private = PrivateInputs {
        signed_messages: vec![
            claim(t.sig_a.clone(), 100, 0, vec![t.leaf_b]),
            claim(t.sig_a.clone(), 100, 0, vec![t.leaf_b]),
        ],
    };
    assert_eq!(aggregate_balances(&public, &private), Ok(100));
}

#[test]
fn first_duplicate_wins_even_with_other_balance() {
    let t = two_leaf_tree();
    let public = context(&t.digest, &t.root);
    // The duplicate asserts a different balance with an invalid proof; the
    // first occurrence has already decided this identity's contribution.
    let private = PrivateInputs {
        signed_messages: vec![
            claim(t.sig_a.clone(), 100, 0, vec![t.leaf_b]),
            claim(t.sig_a.clone(), 999, 1, vec![t.leaf_a]),
        ],
    };
    assert_eq!(aggregate_balances(&public, &private), Ok(100));
}

#[test]
fn mismatched_proof_contributes_nothing() {
    let t = two_leaf_tree();
    let public = context(&t.digest, &t.root);
    // A's signature with B's proof: the recomputed root cannot match.
    let private = PrivateInputs {
        signed_messages: vec![claim(t.sig_a.clone(), 100, 1, vec![t.leaf_a])],
    };
    assert_eq!(aggregate_balances(&public, &private), Ok(0));
}

#[test]
fn tampered_sibling_excluded_without_side_effects() {
    let t = two_leaf_tree();
    let public = context(&t.digest, &t.root);
    let mut tampered = t.leaf_b;
    tampered[0] ^= 1;
    // Tampered claim alone: contributes 0.
    let alone = PrivateInputs {
        signed_messages: vec![claim(t.sig_a.clone(), 100, 0, vec![tampered])],
    };
    assert_eq!(aggregate_balances(&public, &alone), Ok(0));
    // Tampered claim first, then two valid ones: the others are unaffected.
    let mixed = PrivateInputs {
        signed_messages: vec![
            claim(t.sig_a.clone(), 100, 0, vec![tampered]),
            claim(t.sig_a.clone(), 100, 0, vec![t.leaf_b]),
            claim(t.sig_b.clone(), 200, 1, vec![t.leaf_a]),
        ],
    };
    assert_eq!(aggregate_balances(&public, &mixed), Ok(300));
}

#[test]
fn wrong_key_cannot_claim_anothers_balance() {
    let t = two_leaf_tree();
    let public = context(&t.digest, &t.root);
    // A correct proof for A's leaf, signed by an outsider key: the recovered
    // identity is the outsider's, so the leaf does not verify.
    let outsider = key(9);
    let forged = sign(&outsider, &t.digest);
    let private = PrivateInputs {
        signed_messages: vec![
            claim(forged, 100, 0, vec![t.leaf_b]),
            claim(t.sig_b.clone(), 200, 1, vec![t.leaf_a]),
        ],
    };
    assert_eq!(aggregate_balances(&public, &private), Ok(200));
}

#[test]
fn empty_claim_list_yields_zero() {
    let t = two_leaf_tree();
    let public = context(&t.digest, &t.root);
    let private = PrivateInputs { signed_messages: vec![] };
    assert_eq!(aggregate_balances(&public, &private), Ok(0));
}

#[test]
fn single_leaf_tree_leaf_equals_root() {
    let digest = shared_digest();
    let a = key(1);
    let leaf_a = leaf(&address(&a), 100);
    // Single-leaf tree: the leaf itself is the root, the proof is empty.
    let public = context(&digest, &leaf_a);
    let private = PrivateInputs {
        signed_messages: vec![claim(sign(&a, &digest), 100, 0, vec![])],
    };
    assert_eq!(aggregate_balances(&public, &private), Ok(100));
}

/// A four-leaf tree with balances chosen around the 64-bit boundary.
#[test]
fn overflow_boundary_is_a_hard_failure() {
    let digest = shared_digest();
    let a = key(1);
    let b = key(2);
    let c = key(3);
    let leaf_0 = leaf(&address(&a), u64::MAX - 100);
    let leaf_1 = leaf(&address(&b), 100);
    let leaf_2 = leaf(&address(&c), 1);
    let leaf_3 = keccak(b"unclaimed leaf");
    let node_01 = node(&leaf_0, &leaf_1);
    let node_23 = node(&leaf_2, &leaf_3);
    let root = node(&node_01, &node_23);
    let public = context(&digest, &root);
    let claim_a = claim(sign(&a, &digest), u64::MAX - 100, 0, vec![leaf_1, node_23]);
    let claim_b = claim(sign(&b, &digest), 100, 1, vec![leaf_0, node_23]);
    let claim_c = claim(sign(&c, &digest), 1, 2, vec![leaf_3, node_01]);
    // Two balances summing to exactly 2^64 - 1 succeed.
    let exact = PrivateInputs {
        signed_messages: vec![
            claim(claim_a.signature.clone(), u64::MAX - 100, 0, vec![leaf_1, node_23]),
            claim(claim_b.signature.clone(), 100, 1, vec![leaf_0, node_23]),
        ],
    };
    assert_eq!(aggregate_balances(&public, &exact), Ok(u64::MAX));
    // A third verified claim pushing past 2^64 - 1 is a hard failure.
    let over = PrivateInputs { signed_messages: vec![claim_a, claim_b, claim_c] };
    assert_eq!(aggregate_balances(&public, &over), Err(VerifyError::Overflow));
}

#[test]
fn malformed_context_is_rejected() {
    let t = two_leaf_tree();
    let bad_digest = PublicInputs {
        message_digest: String::from("0xzz"),
        merkle_root: format!("0x{}", hex::encode(t.root)),
    };
    let empty = PrivateInputs { signed_messages: vec![] };
    assert_eq!(aggregate_balances(&bad_digest, &empty), Err(VerifyError::MalformedDigest));
    let bad_root = PublicInputs {
        message_digest: format!("0x{}", hex::encode(t.digest)),
        merkle_root: String::from("abcd"),
    };
    assert_eq!(aggregate_balances(&bad_root, &empty), Err(VerifyError::MalformedRoot));
}

#[test]
fn malformed_claims_are_skipped_not_fatal() {
    let t = two_leaf_tree();
    let public = context(&t.digest, &t.root);
    // Bad signature hex, wrong signature length, recovery byte outside
    // {27, 28}, and a bad sibling string: each claim is excluded by itself.
    let mut wrong_v = t.sig_a.clone();
    wrong_v.truncate(wrong_v.len() - 2);
    wrong_v.push_str("00");
    let mut bad_sibling = claim(t.sig_a.clone(), 100, 0, vec![t.leaf_b]);
    bad_sibling.inclusion_branches.branches[0] = String::from("0x1234");
    let private = PrivateInputs {
        signed_messages: vec![
            claim(String::from("0xnothex"), 100, 0, vec![t.leaf_b]),
            claim(String::from("0xabcd"), 100, 0, vec![t.leaf_b]),
            claim(wrong_v, 100, 0, vec![t.leaf_b]),
            bad_sibling,
            claim(t.sig_b.clone(), 200, 1, vec![t.leaf_a]),
        ],
    };
    assert_eq!(aggregate_balances(&public, &private), Ok(200));
}

#[test]
fn repeated_runs_agree() {
    let t = two_leaf_tree();
    let public = context(&t.digest, &t.root);
    let private = PrivateInputs {
        signed_messages: vec![
            claim(t.sig_a.clone(), 100, 0, vec![t.leaf_b]),
            claim(t.sig_b.clone(), 200, 1, vec![t.leaf_a]),
        ],
    };
    let first = aggregate_balances(&public, &private);
    let second = aggregate_balances(&public, &private);
    assert_eq!(first, second);
    assert_eq!(first, Ok(300));
}
