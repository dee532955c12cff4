//! Deduplication, aggregation and the orchestrator: every claim is driven
//! through signature recovery, the duplicate check and Merkle inclusion, in
//! input order; each distinct, successfully verified identity contributes
//! its claimed balance exactly once, and the sum is the run's sole output.
//!
//! Policy (applied uniformly): a structurally malformed claim — bad hex, a
//! wrong-length field, a recovery indicator outside {27, 28}, or failed
//! point recovery — is excluded by itself and contributes nothing; the run
//! goes on.  A malformed context aborts the run, and overflow of the 64-bit
//! accumulator is a hard failure, never a silent wrap.

use vstd::prelude::*;
use vstd::string::StringSliceAdditionalSpecFns;
use crate::encoding::{parsed_bytes, parsed_bytes32, leaf_hash_of, decode_hex_str, hex_to_bytes32,
    hash_leaf, bytes_eq};
use crate::recovery::claim_identity_of;
use crate::recovery::derive_identity;
use crate::merkle::{inclusion_root_of, compute_inclusion_root};

verus! {

/// The context shared by a whole run: every claim is checked against the
/// same hex-encoded 32-byte message digest and Merkle root.
pub struct PublicInputs {
    pub message_digest: String,
    pub merkle_root: String,
}

/// A sibling-path Merkle proof: hex-encoded 32-byte sibling hashes, ordered
/// leaf-first, keyed by the bit positions of `index`.
pub struct InclusionBranches {
    pub index: u32,
    pub branches: Vec<String>,
}

/// One claim: a hex-encoded 65-byte r‖s‖v signature over the run's digest,
/// the balance asserted for the identity the signature recovers to, and
/// that identity's inclusion proof.  No identity is ever supplied directly.
pub struct SignedMessage {
    pub signature: String,
    pub balance: u64,
    pub inclusion_branches: InclusionBranches,
}

/// The ordered claim list of one run; order decides which duplicate wins.
pub struct PrivateInputs {
    pub signed_messages: Vec<SignedMessage>,
}

/// How a run fails: a context field that is not 32 hex-encoded bytes, or
/// overflow of the 64-bit accumulator.
#[derive(Clone, Copy, Debug, PartialEq, Eq, Structural)]
pub enum VerifyError {
    MalformedDigest,
    MalformedRoot,
    Overflow,
}

/// The bytes a string holds.
pub open spec fn string_bytes(s: String) -> Seq<u8> {
    vstd::utf8::encode_utf8(s@)
}

/// The decoded signature of a claim: 65 bytes, or None when the hex is
/// malformed or the length is wrong.
pub open spec fn sig_bytes_of(m: SignedMessage) -> Option<Seq<u8>> {
    match parsed_bytes(string_bytes(m.signature)) {
        Some(b) => if b.len() == 65 {
            Some(b)
        } else {
            None
        },
        None => None,
    }
}

/// Every sibling of the claim's proof decodes to 32 bytes.
pub open spec fn siblings_ok(m: SignedMessage) -> bool {
    forall|i: int|
        0 <= i < m.inclusion_branches.branches@.len() ==> parsed_bytes32(
            string_bytes(#[trigger] m.inclusion_branches.branches@[i]),
        ) is Some
}

/// The decoded sibling hashes of the claim's proof, in order.
pub open spec fn siblings_of(m: SignedMessage) -> Seq<Seq<u8>> {
    Seq::new(
        m.inclusion_branches.branches@.len(),
        |i: int| parsed_bytes32(string_bytes(m.inclusion_branches.branches@[i]))->0,
    )
}

/// What a claim amounts to under a digest: the identity its signature
/// recovers to and the root its proof recomputes, or None on any
/// structural failure.
pub open spec fn claim_eval(digest: Seq<u8>, m: SignedMessage) -> Option<(Seq<u8>, Seq<u8>)> {
    match sig_bytes_of(m) {
        Some(sig) => match claim_identity_of(digest, sig) {
            Some(id) => if siblings_ok(m) {
                Some(
                    (
                        id,
                        inclusion_root_of(
                            leaf_hash_of(id, m.balance),
                            m.inclusion_branches.index,
                            siblings_of(m),
                        ),
                    ),
                )
            } else {
                None
            },
            None => None,
        },
        None => None,
    }
}

/// A claim contributes exactly when it is structurally sound, its identity
/// has not contributed before, and its recomputed root matches the
/// committed one.
pub open spec fn claim_contributes(
    digest: Seq<u8>,
    root: Seq<u8>,
    seen: Set<Seq<u8>>,
    m: SignedMessage,
) -> bool {
    match claim_eval(digest, m) {
        Some(outcome) => !seen.contains(outcome.0) && outcome.1 == root,
        None => false,
    }
}

/// The set of identities that have contributed after the first `n` claims.
pub open spec fn seen_after(digest: Seq<u8>, root: Seq<u8>, claims: Seq<SignedMessage>, n: int) -> Set<
    Seq<u8>,
>
    decreases n,
{
    if n <= 0 {
        Set::empty()
    } else {
        let prev = seen_after(digest, root, claims, n - 1);
        if claim_contributes(digest, root, prev, claims[n - 1]) {
            prev.insert((claim_eval(digest, claims[n - 1])->0).0)
        } else {
            prev
        }
    }
}

/// The mathematical sum of the balances contributed by the first `n`
/// claims.
pub open spec fn total_after(digest: Seq<u8>, root: Seq<u8>, claims: Seq<SignedMessage>, n: int) -> nat
    decreases n,
{
    if n <= 0 {
        0
    } else {
        let prev = total_after(digest, root, claims, n - 1);
        if claim_contributes(digest, root, seen_after(digest, root, claims, n - 1), claims[n - 1]) {
            prev + claims[n - 1].balance as nat
        } else {
            prev
        }
    }
}

/// The aggregate total of a whole run, as a mathematical number.
pub open spec fn aggregate_total_of(digest: Seq<u8>, root: Seq<u8>, claims: Seq<SignedMessage>) -> nat {
    total_after(digest, root, claims, claims.len() as int)
}

/// Whether the claim at position `i` contributes in its run.
pub open spec fn contributes_at(
    digest: Seq<u8>,
    root: Seq<u8>,
    claims: Seq<SignedMessage>,
    i: int,
) -> bool {
    claim_contributes(digest, root, seen_after(digest, root, claims, i), claims[i])
}

/// Evaluate one claim under the run's digest: recover its identity and
/// recompute the root its proof reaches, or None on structural failure.
pub fn evaluate_claim(digest: &[u8], m: &SignedMessage) -> (r: Option<(Vec<u8>, Vec<u8>)>)
    requires
        digest@.len() == 32,
    ensures
        r is Some <==> claim_eval(digest@, *m) is Some,
        r is Some ==> (r->0).0@ == (claim_eval(digest@, *m)->0).0,
        r is Some ==> (r->0).1@ == (claim_eval(digest@, *m)->0).1,
        r is Some ==> (r->0).0@.len() == 20,
{
    let sig = match decode_hex_str(m.signature.as_str()) {
        Some(v) => v,
        None => {
            return None;
        },
    };
    if sig.len() != 65 {
        return None;
    }
    let id = match derive_identity(digest, sig.as_slice()) {
        Some(v) => v,
        None => {
            return None;
        },
    };
    let branches: &Vec<String> = &m.inclusion_branches.branches;
    let mut sibs: Vec<Vec<u8>> = Vec::new();
    let mut i: usize = 0;
    while i < branches.len()
        invariant
            branches@ == m.inclusion_branches.branches@,
            i <= branches@.len(),
            sibs@.len() == i,
            forall|j: int|
                0 <= j < i ==> parsed_bytes32(
                    string_bytes(#[trigger] branches@[j]),
                ) is Some,
            forall|j: int|
                0 <= j < i ==> (#[trigger] sibs@[j])@ == parsed_bytes32(
                    string_bytes(branches@[j]),
                )->0,
        decreases branches@.len() - i,
    {
        let entry: &String = &branches[i];
        match hex_to_bytes32(entry.as_str()) {
            Some(b) => {
                sibs.push(b);
            },
            None => {
                proof {
                    assert(parsed_bytes32(
                        string_bytes(m.inclusion_branches.branches@[i as int]),
                    ) is None);
                    assert(!siblings_ok(*m));
                }
                return None;
            },
        }
        i = i + 1;
    }
    proof {
        assert(siblings_ok(*m));
        assert forall|j: int| 0 <= j < sibs@.len() implies #[trigger] sibs.deep_view()[j]
            == siblings_of(*m)[j] by {
            assert(sibs@[j].deep_view() =~= sibs@[j]@);
        }
        assert(sibs.deep_view() =~= siblings_of(*m));
    }
    let leaf = hash_leaf(id.as_slice(), m.balance);
    let computed_root = compute_inclusion_root(leaf.as_slice(), m.inclusion_branches.index, &sibs);
    Some((id, computed_root))
}

/// The identities of a run's seen vector, as a set.
pub open spec fn id_set_of(s: Seq<Vec<u8>>) -> Set<Seq<u8>> {
    Set::new(|x: Seq<u8>| exists|j: int| 0 <= j < s.len() && (#[trigger] s[j])@ == x)
}

proof fn lemma_id_set_push(s: Seq<Vec<u8>>, v: Vec<u8>)
    ensures
        id_set_of(s.push(v)) == id_set_of(s).insert(v@),
{
    assert forall|x: Seq<u8>| id_set_of(s.push(v)).contains(x) implies id_set_of(s).insert(
        v@,
    ).contains(x) by {
        let j = choose|j: int| 0 <= j < s.push(v).len() && (#[trigger] s.push(v)[j])@ == x;
        if j < s.len() {
            assert((s[j])@ == x);
        } else {
            assert(x == v@);
        }
    }
    assert forall|x: Seq<u8>| id_set_of(s).insert(v@).contains(x) implies id_set_of(
        s.push(v),
    ).contains(x) by {
        if x == v@ {
            assert((s.push(v)[s.len() as int])@ == x);
        } else {
            let j = choose|j: int| 0 <= j < s.len() && (#[trigger] s[j])@ == x;
            assert((s.push(v)[j])@ == x);
        }
    }
    assert(id_set_of(s.push(v)) =~= id_set_of(s).insert(v@));
}

/// Membership of an identity in the seen vector.
fn seen_contains(seen: &Vec<Vec<u8>>, id: &[u8]) -> (r: bool)
    ensures
        r == id_set_of(seen@).contains(id@),
{
    let mut i: usize = 0;
    while i < seen.len()
        invariant
            i <= seen@.len(),
            forall|j: int| 0 <= j < i ==> (#[trigger] seen@[j])@ != id@,
        decreases seen@.len() - i,
    {
        if bytes_eq(seen[i].as_slice(), id) {
            proof {
                assert((seen@[i as int])@ == id@);
            }
            return true;
        }
        i = i + 1;
    }
    false
}

/// If the running sum ever exceeds the 64-bit range, so does every later
/// running sum, the final aggregate included.
pub proof fn lemma_total_monotonic(
    digest: Seq<u8>,
    root: Seq<u8>,
    claims: Seq<SignedMessage>,
    a: int,
    b: int,
)
    requires
        0 <= a <= b,
    ensures
        total_after(digest, root, claims, a) <= total_after(digest, root, claims, b),
    decreases b - a,
{
    if a < b {
        lemma_total_monotonic(digest, root, claims, a, b - 1);
    }
}

/// For a fixed context and claim list the aggregate total is one
/// mathematical value: two runs over equal inputs yield equal totals.
pub proof fn lemma_determinism(
    digest1: Seq<u8>,
    root1: Seq<u8>,
    claims1: Seq<SignedMessage>,
    digest2: Seq<u8>,
    root2: Seq<u8>,
    claims2: Seq<SignedMessage>,
)
    requires
        digest1 == digest2,
        root1 == root2,
        claims1 == claims2,
    ensures
        aggregate_total_of(digest1, root1, claims1) == aggregate_total_of(digest2, root2, claims2),
{
}

/// A claim's effect is decided by the identity recovered from its signature
/// together with its balance and proof; no prover-supplied identity enters
/// the decision.  Two claims whose signatures recover to the same identity,
/// with equal balance and equal proof, are accepted or rejected alike.
pub proof fn lemma_no_spoofing(
    digest: Seq<u8>,
    root: Seq<u8>,
    seen: Set<Seq<u8>>,
    m1: SignedMessage,
    m2: SignedMessage,
)
    requires
        sig_bytes_of(m1) is Some,
        sig_bytes_of(m2) is Some,
        claim_identity_of(digest, sig_bytes_of(m1)->0) == claim_identity_of(
            digest,
            sig_bytes_of(m2)->0,
        ),
        m1.balance == m2.balance,
        m1.inclusion_branches.index == m2.inclusion_branches.index,
        siblings_ok(m1),
        siblings_ok(m2),
        siblings_of(m1) == siblings_of(m2),
    ensures
        claim_contributes(digest, root, seen, m1) == claim_contributes(digest, root, seen, m2),
        claim_eval(digest, m1) == claim_eval(digest, m2),
{
}

/// The seen set only grows as a run advances.
pub proof fn lemma_seen_monotonic(
    digest: Seq<u8>,
    root: Seq<u8>,
    claims: Seq<SignedMessage>,
    a: int,
    b: int,
)
    requires
        0 <= a <= b,
    ensures
        seen_after(digest, root, claims, a).subset_of(seen_after(digest, root, claims, b)),
    decreases b - a,
{
    if a < b {
        lemma_seen_monotonic(digest, root, claims, a, b - 1);
        assert(seen_after(digest, root, claims, b - 1).subset_of(
            seen_after(digest, root, claims, b),
        ));
    }
}

/// At most once per identity: of two claims whose signatures recover to the
/// same identity, only the first in input order can contribute; once it has,
/// every later claim with that identity is skipped, whatever balance or
/// proof it carries.
pub proof fn lemma_at_most_once(
    digest: Seq<u8>,
    root: Seq<u8>,
    claims: Seq<SignedMessage>,
    i: int,
    j: int,
)
    requires
        0 <= i < j < claims.len(),
        claim_eval(digest, claims[i]) is Some,
        claim_eval(digest, claims[j]) is Some,
        (claim_eval(digest, claims[i])->0).0 == (claim_eval(digest, claims[j])->0).0,
        contributes_at(digest, root, claims, i),
    ensures
        !contributes_at(digest, root, claims, j),
        total_after(digest, root, claims, i + 1) == total_after(digest, root, claims, i)
            + claims[i].balance as nat,
        total_after(digest, root, claims, j + 1) == total_after(digest, root, claims, j),
{
    let id = (claim_eval(digest, claims[i])->0).0;
    assert(seen_after(digest, root, claims, i + 1).contains(id));
    lemma_seen_monotonic(digest, root, claims, i + 1, j);
    assert(seen_after(digest, root, claims, j).contains(id));
}

/// A run's state after `n` claims depends only on those first `n` claims.
pub proof fn lemma_prefix_determines_state(
    digest: Seq<u8>,
    root: Seq<u8>,
    claims1: Seq<SignedMessage>,
    claims2: Seq<SignedMessage>,
    n: int,
)
    requires
        forall|k: int| 0 <= k < n ==> claims1[k] == claims2[k],
    ensures
        seen_after(digest, root, claims1, n) == seen_after(digest, root, claims2, n),
        total_after(digest, root, claims1, n) == total_after(digest, root, claims2, n),
    decreases n,
{
    if n > 0 {
        lemma_prefix_determines_state(digest, root, claims1, claims2, n - 1);
    }
}

/// Two runs in the same state evolve alike over equal claim stretches.
pub proof fn lemma_shifted_suffix(
    digest: Seq<u8>,
    root: Seq<u8>,
    claims1: Seq<SignedMessage>,
    claims2: Seq<SignedMessage>,
    a: int,
    b: int,
    n: int,
)
    requires
        0 <= a,
        0 <= b,
        0 <= n,
        seen_after(digest, root, claims1, a) == seen_after(digest, root, claims2, b),
        total_after(digest, root, claims1, a) == total_after(digest, root, claims2, b),
        forall|k: int| 0 <= k < n ==> #[trigger] claims1[a + k] == claims2[b + k],
    ensures
        seen_after(digest, root, claims1, a + n) == seen_after(digest, root, claims2, b + n),
        total_after(digest, root, claims1, a + n) == total_after(digest, root, claims2, b + n),
    decreases n,
{
    if n > 0 {
        lemma_shifted_suffix(digest, root, claims1, claims2, a, b, n - 1);
        assert(claims1[a + n - 1] == claims2[b + n - 1]);
    }
}

/// A claim that does not contribute — failed recovery, failed inclusion or a
/// duplicate identity — leaves every other claim's outcome and the final
/// total untouched: removing it from the list changes nothing.
pub proof fn lemma_excluded_claim_no_effect(
    digest: Seq<u8>,
    root: Seq<u8>,
    claims: Seq<SignedMessage>,
    i: int,
)
    requires
        0 <= i < claims.len(),
        !contributes_at(digest, root, claims, i),
    ensures
        aggregate_total_of(digest, root, claims.remove(i)) == aggregate_total_of(
            digest,
            root,
            claims,
        ),
{
    let shorter = claims.remove(i);
    claims.remove_ensures(i);
    lemma_prefix_determines_state(digest, root, shorter, claims, i);
    assert(seen_after(digest, root, claims, i + 1) == seen_after(digest, root, claims, i));
    assert(total_after(digest, root, claims, i + 1) == total_after(digest, root, claims, i));
    lemma_shifted_suffix(digest, root, shorter, claims, i, i + 1, claims.len() - 1 - i);
}

/// An empty claim list yields an aggregate total of zero.
pub proof fn lemma_empty_input(digest: Seq<u8>, root: Seq<u8>)
    ensures
        aggregate_total_of(digest, root, Seq::<SignedMessage>::empty()) == 0,
{
}

/// An identity stands in the seen set exactly when some earlier claim
/// contributed it, so the seen set is the set of contributing identities.
pub proof fn lemma_seen_iff_contributed(
    digest: Seq<u8>,
    root: Seq<u8>,
    claims: Seq<SignedMessage>,
    n: int,
    x: Seq<u8>,
)
    requires
        0 <= n,
    ensures
        seen_after(digest, root, claims, n).contains(x) <==> exists|k: int|
            0 <= k < n && #[trigger] contributes_at(digest, root, claims, k) && (claim_eval(
                digest,
                claims[k],
            )->0).0 == x,
    decreases n,
{
    if n > 0 {
        lemma_seen_iff_contributed(digest, root, claims, n - 1, x);
        let prev = seen_after(digest, root, claims, n - 1);
        if claim_contributes(digest, root, prev, claims[n - 1]) && (claim_eval(
            digest,
            claims[n - 1],
        )->0).0 == x {
            assert(contributes_at(digest, root, claims, n - 1));
            assert(seen_after(digest, root, claims, n).contains(x));
        } else {
            assert(seen_after(digest, root, claims, n).contains(x) <==> prev.contains(x));
            if exists|k: int|
                0 <= k < n && #[trigger] contributes_at(digest, root, claims, k) && (claim_eval(
                    digest,
                    claims[k],
                )->0).0 == x {
                let k = choose|k: int|
                    0 <= k < n && #[trigger] contributes_at(digest, root, claims, k) && (claim_eval(
                        digest,
                        claims[k],
                    )->0).0 == x;
                assert(k < n - 1 || k == n - 1);
                assert(k < n - 1);
            }
        }
    }
}

/// Run every claim through recovery, deduplication and inclusion in input
/// order and sum the verified balances.
///
/// The result is a function of the inputs alone: for a fixed context and
/// claim list, every run returns the same value.  `Ok` is returned exactly
/// when both context fields decode to 32 bytes and the mathematical sum of
/// the contributed balances fits in 64 bits; the sum overflowing is a hard
/// failure, and a malformed context names the offending field.
#[verifier::rlimit(50)]
pub fn aggregate_balances(public_inputs: &PublicInputs, private_inputs: &PrivateInputs) -> (r:
    Result<u64, VerifyError>)
    ensures
        ({
            let d = parsed_bytes32(string_bytes(public_inputs.message_digest));
            let rt = parsed_bytes32(string_bytes(public_inputs.merkle_root));
            match r {
                Ok(total) => d is Some && rt is Some && total as nat == aggregate_total_of(
                    d->0,
                    rt->0,
                    private_inputs.signed_messages@,
                ),
                Err(VerifyError::MalformedDigest) => d is None,
                Err(VerifyError::MalformedRoot) => d is Some && rt is None,
                Err(VerifyError::Overflow) => d is Some && rt is Some && aggregate_total_of(
                    d->0,
                    rt->0,
                    private_inputs.signed_messages@,
                ) > u64::MAX,
            }
        }),
{
    let digest = match hex_to_bytes32(public_inputs.message_digest.as_str()) {
        Some(d) => d,
        None => {
            return Err(VerifyError::MalformedDigest);
        },
    };
    let root = match hex_to_bytes32(public_inputs.merkle_root.as_str()) {
        Some(rt) => rt,
        None => {
            return Err(VerifyError::MalformedRoot);
        },
    };
    let messages: &Vec<SignedMessage> = &private_inputs.signed_messages;
    let mut seen: Vec<Vec<u8>> = Vec::new();
    let mut total: u64 = 0;
    let mut i: usize = 0;
    while i < messages.len()
        invariant
            messages@ == private_inputs.signed_messages@,
            i <= messages@.len(),
            digest@.len() == 32,
            Some(digest@) == parsed_bytes32(string_bytes(public_inputs.message_digest)),
            Some(root@) == parsed_bytes32(string_bytes(public_inputs.merkle_root)),
            id_set_of(seen@) == seen_after(digest@, root@, messages@, i as int),
            total as nat == total_after(digest@, root@, messages@, i as int),
        decreases messages@.len() - i,
    {
        let m: &SignedMessage = &messages[i];
        let ghost prev_seen = seen_after(digest@, root@, messages@, i as int);
        match evaluate_claim(digest.as_slice(), m) {
            None => {
                proof {
                    assert(!claim_contributes(digest@, root@, prev_seen, messages@[i as int]));
                }
            },
            Some((id, computed_root)) => {
                if seen_contains(&seen, id.as_slice()) {
                    proof {
                        assert(!claim_contributes(digest@, root@, prev_seen, messages@[i as int]));
                    }
                } else if bytes_eq(computed_root.as_slice(), root.as_slice()) {
                    proof {
                        assert(claim_contributes(digest@, root@, prev_seen, messages@[i as int]));
                    }
                    if m.balance <= u64::MAX - total {
                        let ghost seen_prev = seen@;
                        let ghost pushed = id;
                        total = total + m.balance;
                        seen.push(id);
                        proof {
                            lemma_id_set_push(seen_prev, pushed);
                            assert(id_set_of(seen@) == prev_seen.insert(pushed@));
                        }
                    } else {
                        proof {
                            assert(total_after(digest@, root@, messages@, i as int + 1)
                                > u64::MAX);
                            lemma_total_monotonic(
                                digest@,
                                root@,
                                messages@,
                                i as int + 1,
                                messages@.len() as int,
                            );
                            assert(aggregate_total_of(digest@, root@, messages@) > u64::MAX);
                        }
                        return Err(VerifyError::Overflow);
                    }
                } else {
                    proof {
                        assert(!claim_contributes(digest@, root@, prev_seen, messages@[i as int]));
                    }
                }
            },
        }
        i = i + 1;
    }
    Ok(total)
}

} // verus!
