//! Canonical byte encodings: hexadecimal parsing and rendering, decimal
//! rendering of balances, and the leaf commitment encoding
//! `"0x" + lowercase-hex(identity) + ":" + decimal(balance)`.

use vstd::prelude::*;
use vstd::string::StringSliceAdditionalSpecFns;
use crate::hashing::{keccak_of, keccak256_bytes};

verus! {

/// A hexadecimal digit, upper or lower case.
pub open spec fn is_hex_digit(b: u8) -> bool {
    (48 <= b && b <= 57) || (97 <= b && b <= 102) || (65 <= b && b <= 70)
}

/// Numeric value of a hexadecimal digit (0 on other bytes).
pub open spec fn hex_val(b: u8) -> u8 {
    if 48 <= b && b <= 57 {
        (b - 48) as u8
    } else if 97 <= b && b <= 102 {
        (b - 87) as u8
    } else if 65 <= b && b <= 70 {
        (b - 55) as u8
    } else {
        0
    }
}

/// A well-formed hex string: even length, every byte a hex digit.
pub open spec fn hex_ok(s: Seq<u8>) -> bool {
    s.len() % 2 == 0 && (forall|i: int| 0 <= i < s.len() ==> is_hex_digit(#[trigger] s[i]))
}

/// The bytes a well-formed hex string denotes, two digits per byte.
pub open spec fn hex_decode_of(s: Seq<u8>) -> Seq<u8>
    decreases s.len(),
{
    if s.len() < 2 {
        Seq::empty()
    } else {
        seq![(hex_val(s[0]) * 16 + hex_val(s[1])) as u8] + hex_decode_of(s.skip(2))
    }
}

/// A leading `0x`, if present, is dropped before decoding.
pub open spec fn strip_hex_prefix(s: Seq<u8>) -> Seq<u8> {
    if s.len() >= 2 && s[0] == 48 && s[1] == 120 {
        s.skip(2)
    } else {
        s
    }
}

/// The bytes a hex string (with optional `0x` prefix) denotes, or None when
/// it is not well formed.
pub open spec fn parsed_bytes(s: Seq<u8>) -> Option<Seq<u8>> {
    if hex_ok(strip_hex_prefix(s)) {
        Some(hex_decode_of(strip_hex_prefix(s)))
    } else {
        None
    }
}

/// `parsed_bytes`, accepted only when exactly 32 bytes are denoted.
pub open spec fn parsed_bytes32(s: Seq<u8>) -> Option<Seq<u8>> {
    match parsed_bytes(s) {
        Some(b) => if b.len() == 32 {
            Some(b)
        } else {
            None
        },
        None => None,
    }
}

/// Classify one byte as a hex digit and give its value.
pub fn hex_digit_value(b: u8) -> (r: Option<u8>)
    ensures
        r is Some <==> is_hex_digit(b),
        r is Some ==> r->0 == hex_val(b) && r->0 <= 15,
{
    if 48 <= b && b <= 57 {
        Some(b - 48)
    } else if 97 <= b && b <= 102 {
        Some(b - 87)
    } else if 65 <= b && b <= 70 {
        Some(b - 55)
    } else {
        None
    }
}

/// Decode a hex digit string (no prefix) into bytes.
pub fn decode_hex_digits(s: &[u8]) -> (r: Option<Vec<u8>>)
    ensures
        r is Some <==> hex_ok(s@),
        r is Some ==> r->0@ == hex_decode_of(s@),
{
    if s.len() % 2 != 0 {
        return None;
    }
    let mut out: Vec<u8> = Vec::new();
    let mut i: usize = 0;
    proof {
        assert(Seq::<u8>::empty() + hex_decode_of(s@.skip(0)) =~= hex_decode_of(s@.skip(0)));
        assert(s@.skip(0) =~= s@);
    }
    while i < s.len()
        invariant
            s@.len() % 2 == 0,
            i % 2 == 0,
            i <= s@.len(),
            forall|j: int| 0 <= j < i ==> is_hex_digit(#[trigger] s@[j]),
            hex_decode_of(s@) == out@ + hex_decode_of(s@.skip(i as int)),
        decreases s@.len() - i,
    {
        let hi = match hex_digit_value(s[i]) {
            Some(v) => v,
            None => {
                return None;
            },
        };
        let lo = match hex_digit_value(s[i + 1]) {
            Some(v) => v,
            None => {
                return None;
            },
        };
        proof {
            let t = s@.skip(i as int);
            assert(t.len() >= 2);
            assert(t[0] == s@[i as int]);
            assert(t[1] == s@[i as int + 1]);
            assert(t.skip(2) =~= s@.skip(i as int + 2));
            assert(hex_decode_of(t) == seq![(hex_val(t[0]) * 16 + hex_val(t[1])) as u8]
                + hex_decode_of(s@.skip(i as int + 2)));
            assert(out@ + hex_decode_of(t) =~= out@.push((hex_val(t[0]) * 16 + hex_val(
                t[1],
            )) as u8) + hex_decode_of(s@.skip(i as int + 2)));
        }
        out.push(hi * 16 + lo);
        i = i + 2;
    }
    proof {
        assert(hex_decode_of(s@.skip(s@.len() as int)) =~= Seq::<u8>::empty());
        assert(out@ + Seq::<u8>::empty() =~= out@);
    }
    Some(out)
}

/// Decode a hex string with optional `0x` prefix into bytes.
pub fn decode_hex_str(s: &str) -> (r: Option<Vec<u8>>)
    ensures
        r is Some <==> parsed_bytes(s.spec_bytes()) is Some,
        r is Some ==> Some(r->0@) == parsed_bytes(s.spec_bytes()),
{
    let bytes: &[u8] = s.as_bytes();
    let stripped: &[u8] = if bytes.len() >= 2 && bytes[0] == 48 && bytes[1] == 120 {
        vstd::slice::slice_subrange(bytes, 2, bytes.len())
    } else {
        bytes
    };
    proof {
        assert(stripped@ =~= strip_hex_prefix(s.spec_bytes()));
    }
    decode_hex_digits(stripped)
}

/// Parse a hex string (optional `0x` prefix) that must denote exactly 32
/// bytes; any other input is rejected.
pub fn hex_to_bytes32(hex: &str) -> (r: Option<Vec<u8>>)
    ensures
        r is Some <==> parsed_bytes32(hex.spec_bytes()) is Some,
        r is Some ==> Some(r->0@) == parsed_bytes32(hex.spec_bytes()),
        r is Some ==> r->0@.len() == 32,
{
    match decode_hex_str(hex) {
        Some(v) => if v.len() == 32 {
            Some(v)
        } else {
            None
        },
        None => None,
    }
}

/// Lowercase hex digit for a nibble value.
pub open spec fn hex_char_of(n: u8) -> u8 {
    if n < 10 {
        (48 + n) as u8
    } else {
        (87 + n) as u8
    }
}

/// Lowercase hexadecimal rendering of bytes, two digits per byte.
pub open spec fn hex_encode_of(b: Seq<u8>) -> Seq<u8>
    decreases b.len(),
{
    if b.len() == 0 {
        Seq::empty()
    } else {
        hex_encode_of(b.drop_last()).push(hex_char_of((b.last() / 16) as u8)).push(
            hex_char_of((b.last() % 16) as u8),
        )
    }
}

/// Lowercase hex digit of a nibble.
pub fn hex_char(n: u8) -> (r: u8)
    requires
        n < 16,
    ensures
        r == hex_char_of(n),
{
    if n < 10 {
        48 + n
    } else {
        87 + n
    }
}

/// Render bytes as lowercase hexadecimal.
pub fn encode_hex_lower(b: &[u8]) -> (r: Vec<u8>)
    ensures
        r@ == hex_encode_of(b@),
{
    let mut out: Vec<u8> = Vec::new();
    let mut i: usize = 0;
    while i < b.len()
        invariant
            i <= b@.len(),
            out@ == hex_encode_of(b@.take(i as int)),
        decreases b@.len() - i,
    {
        let x = b[i];
        out.push(hex_char(x / 16));
        out.push(hex_char(x % 16));
        proof {
            assert(b@.take(i as int + 1).drop_last() =~= b@.take(i as int));
            assert(b@.take(i as int + 1).last() == b@[i as int]);
        }
        i = i + 1;
    }
    proof {
        assert(b@.take(b@.len() as int) =~= b@);
    }
    out
}

/// Decimal ASCII rendering of a natural number, most significant digit first.
pub open spec fn dec_digits_of(n: nat) -> Seq<u8>
    decreases n,
{
    if n < 10 {
        seq![(48 + n) as u8]
    } else {
        dec_digits_of(n / 10).push((48 + n % 10) as u8)
    }
}

/// Append the decimal rendering of `n` to `out`.
pub fn push_decimal_digits(n: u64, out: &mut Vec<u8>)
    ensures
        final(out)@ == old(out)@ + dec_digits_of(n as nat),
    decreases n,
{
    if n >= 10 {
        push_decimal_digits(n / 10, out);
        proof {
            assert((n / 10) as nat == n as nat / 10);
        }
    }
    out.push(48 + (n % 10) as u8);
    proof {
        if n < 10 {
            assert(old(out)@ + dec_digits_of(n as nat) =~= old(out)@.push((48 + n as nat) as u8));
        } else {
            assert(old(out)@ + dec_digits_of(n as nat) =~= (old(out)@ + dec_digits_of(
                n as nat / 10,
            )).push((48 + n as nat % 10) as u8));
        }
    }
}

/// The leaf commitment encoding: `0x`, the identity in lowercase hex, a
/// colon, then the balance in decimal.
pub open spec fn leaf_bytes_of(identity: Seq<u8>, balance: u64) -> Seq<u8> {
    seq![48u8, 120u8] + hex_encode_of(identity) + seq![58u8] + dec_digits_of(balance as nat)
}

/// The 32-byte leaf commitment of an (identity, balance) pair.
pub open spec fn leaf_hash_of(identity: Seq<u8>, balance: u64) -> Seq<u8> {
    keccak_of(leaf_bytes_of(identity, balance))
}

/// Build the canonical leaf encoding for an (identity, balance) pair.
pub fn leaf_bytes(identity: &[u8], balance: u64) -> (r: Vec<u8>)
    ensures
        r@ == leaf_bytes_of(identity@, balance),
{
    let mut out: Vec<u8> = Vec::new();
    out.push(48);
    out.push(120);
    let mut hex_part = encode_hex_lower(identity);
    proof {
        assert(out@ =~= seq![48u8, 120u8]);
    }
    out.append(&mut hex_part);
    out.push(58);
    proof {
        assert(out@ =~= seq![48u8, 120u8] + hex_encode_of(identity@) + seq![58u8]);
    }
    push_decimal_digits(balance, &mut out);
    proof {
        assert((seq![48u8, 120u8] + hex_encode_of(identity@) + seq![58u8]) + dec_digits_of(
            balance as nat,
        ) =~= leaf_bytes_of(identity@, balance));
    }
    out
}

/// Hash an (identity, balance) pair into its leaf commitment.
pub fn hash_leaf(identity: &[u8], balance: u64) -> (r: Vec<u8>)
    ensures
        r@ == leaf_hash_of(identity@, balance),
        r@.len() == 32,
{
    let bytes = leaf_bytes(identity, balance);
    keccak256_bytes(bytes.as_slice())
}

/// Byte-string equality.
pub fn bytes_eq(a: &[u8], b: &[u8]) -> (r: bool)
    ensures
        r == (a@ == b@),
{
    if a.len() != b.len() {
        return false;
    }
    let mut i: usize = 0;
    while i < a.len()
        invariant
            a@.len() == b@.len(),
            i <= a@.len(),
            forall|j: int| 0 <= j < i ==> a@[j] == b@[j],
        decreases a@.len() - i,
    {
        if a[i] != b[i] {
            return false;
        }
        i = i + 1;
    }
    proof {
        assert(a@ =~= b@);
    }
    true
}

} // verus!
