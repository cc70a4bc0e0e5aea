//! Hex encoding and decoding of digests.  The store's keys cross its
//! boundary as fixed-length hex strings, so encoding and decoding must agree
//! exactly: encoding emits lowercase digits, decoding accepts either case.

use vstd::prelude::*;
use vstd::string::StringSliceAdditionalSpecFns;
use crate::types::CommonplaceError;

verus! {

/// The lowercase hex digit (as an ASCII byte) for a nibble value.
pub open spec fn hex_digit(n: int) -> u8
    recommends
        0 <= n < 16,
{
    if n < 10 {
        (48 + n) as u8
    } else {
        (87 + n) as u8
    }
}

/// Whether an ASCII byte is a hex digit, in either case.
pub open spec fn is_hex_digit(d: u8) -> bool {
    (48 <= d <= 57) || (97 <= d <= 102) || (65 <= d <= 70)
}

/// The nibble value of a hex digit byte.
pub open spec fn hex_val(d: u8) -> int {
    if 48 <= d <= 57 {
        d - 48
    } else if 97 <= d <= 102 {
        d - 87
    } else if 65 <= d <= 70 {
        d - 55
    } else {
        0
    }
}

/// The lowercase hex encoding of a byte sequence: two digits per byte, high
/// nibble first, no separators.
pub open spec fn hex_of(bytes: Seq<u8>) -> Seq<u8> {
    Seq::new(
        bytes.len() * 2,
        |i: int|
            if i % 2 == 0 {
                hex_digit((bytes[i / 2] / 16) as int)
            } else {
                hex_digit((bytes[i / 2] % 16) as int)
            },
    )
}

/// The bytes denoted by a sequence of hex digits, two digits per byte.
pub open spec fn bytes_of_hex(digits: Seq<u8>) -> Seq<u8> {
    Seq::new(digits.len() / 2, |i: int| (hex_val(digits[2 * i]) * 16 + hex_val(digits[2 * i + 1])) as u8)
}

/// Whether a digit sequence is a well-formed hex encoding: even length, all
/// hex digits.
pub open spec fn valid_hex(digits: Seq<u8>) -> bool {
    digits.len() % 2 == 0 && forall|i: int| 0 <= i < digits.len() ==> is_hex_digit(#[trigger] digits[i])
}

fn hex_digit_exec(n: u8) -> (d: u8)
    requires
        n < 16,
    ensures
        d == hex_digit(n as int),
{
    if n < 10 {
        48 + n
    } else {
        87 + n
    }
}

/// The nibble value of a hex digit byte, or `None` when the byte is no hex
/// digit.
fn hex_val_exec(d: u8) -> (v: Option<u8>)
    ensures
        v is Some <==> is_hex_digit(d),
        v matches Some(n) ==> n == hex_val(d) && n < 16,
{
    if 48 <= d && d <= 57 {
        Some(d - 48)
    } else if 97 <= d && d <= 102 {
        Some(d - 87)
    } else if 65 <= d && d <= 70 {
        Some(d - 55)
    } else {
        None
    }
}

/// Encodes bytes as lowercase hex, two digits per byte.
pub fn bytes_to_hex(bytes: &Vec<u8>) -> (out: Vec<u8>)
    ensures
        out@ == hex_of(bytes@),
{
    let mut out: Vec<u8> = Vec::new();
    let mut i: usize = 0;
    while i < bytes.len()
        invariant
            i <= bytes@.len(),
            out@ == hex_of(bytes@.subrange(0, i as int)),
        decreases bytes@.len() - i,
    {
        let b = bytes[i];
        out.push(hex_digit_exec(b / 16));
        out.push(hex_digit_exec(b % 16));
        i = i + 1;
        proof {
            assert(out@ =~= hex_of(bytes@.subrange(0, i as int)));
        }
    }
    proof {
        assert(bytes@.subrange(0, bytes@.len() as int) =~= bytes@);
    }
    out
}

/// Decodes a hex digit sequence back into bytes; `None` exactly when the
/// input is not a well-formed hex encoding.
pub fn hex_to_bytes(digits: &[u8]) -> (out: Option<Vec<u8>>)
    ensures
        out is Some <==> valid_hex(digits@),
        out matches Some(v) ==> v@ == bytes_of_hex(digits@),
{
    if digits.len() % 2 != 0 {
        return None;
    }
    let mut out: Vec<u8> = Vec::new();
    let mut i: usize = 0;
    while i + 1 < digits.len()
        invariant
            digits@.len() % 2 == 0,
            i % 2 == 0,
            i <= digits@.len(),
            out@ == bytes_of_hex(digits@.subrange(0, i as int)),
            forall|j: int| 0 <= j < i ==> is_hex_digit(#[trigger] digits@[j]),
        decreases digits@.len() - i,
    {
        let hi = match hex_val_exec(digits[i]) {
            Some(v) => v,
            None => {
                return None;
            },
        };
        let lo = match hex_val_exec(digits[i + 1]) {
            Some(v) => v,
            None => {
                return None;
            },
        };
        out.push(hi * 16 + lo);
        i = i + 2;
        proof {
            assert(out@ =~= bytes_of_hex(digits@.subrange(0, i as int)));
        }
    }
    proof {
        assert(digits@.subrange(0, digits@.len() as int) =~= digits@);
    }
    Some(out)
}

/// Parses a digest given as exactly 64 hex digits into its 32 bytes;
/// rejects anything else as `Malformed` before any storage access.
pub fn hash_from_str(s: &str) -> (r: Result<Vec<u8>, CommonplaceError>)
    ensures
        r is Ok <==> s.spec_bytes().len() == 64 && valid_hex(s.spec_bytes()),
        r matches Ok(d) ==> d@ == bytes_of_hex(s.spec_bytes()) && d@.len() == 32,
        r matches Err(e) ==> e == CommonplaceError::Malformed,
{
    let bytes = s.as_bytes();
    if bytes.len() != 64 {
        return Err(CommonplaceError::Malformed);
    }
    match hex_to_bytes(bytes) {
        Some(d) => Ok(d),
        None => Err(CommonplaceError::Malformed),
    }
}

/// Law: decoding a lowercase hex encoding restores the original bytes, so
/// the two directions of the boundary agree exactly.
pub proof fn lemma_hex_round_trip(bytes: Seq<u8>)
    ensures
        valid_hex(hex_of(bytes)),
        bytes_of_hex(hex_of(bytes)) == bytes,
{
    assert forall|i: int| 0 <= i < hex_of(bytes).len() implies is_hex_digit(
        #[trigger] hex_of(bytes)[i],
    ) by {
        let b = bytes[i / 2];
        assert(0 <= b / 16 < 16);
        assert(0 <= b % 16 < 16);
    }
    assert forall|i: int| 0 <= i < bytes.len() implies bytes_of_hex(hex_of(bytes))[i] == bytes[i] by {
        let b = bytes[i];
        assert(hex_of(bytes)[2 * i] == hex_digit((b / 16) as int));
        assert(hex_of(bytes)[2 * i + 1] == hex_digit((b % 16) as int));
        assert(hex_val(hex_digit((b / 16) as int)) == b / 16);
        assert(hex_val(hex_digit((b % 16) as int)) == b % 16);
        assert(b / 16 * 16 + b % 16 == b);
    }
    assert(bytes_of_hex(hex_of(bytes)) =~= bytes);
}

} // verus!
