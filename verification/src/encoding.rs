//! Hex transport encoding for field elements and byte strings.
//!
//! Encoding and decoding are delegated to the `hex` crate through trusted
//! wrappers whose contracts state the digit-for-digit relation between the
//! string and the bytes.
use vstd::prelude::*;

verus! {

/// Whether `c` is a hex digit, either case.
pub open spec fn is_hex_digit(c: char) -> bool {
    (48 <= c as int && c as int <= 57) || (97 <= c as int && c as int <= 102) || (65 <= c as int
        && c as int <= 70)
}

/// The value of a hex digit, either case.
pub open spec fn hex_digit_val(c: char) -> int {
    if 48 <= c as int && c as int <= 57 {
        c as int - 48
    } else if 97 <= c as int && c as int <= 102 {
        c as int - 87
    } else if 65 <= c as int && c as int <= 70 {
        c as int - 55
    } else {
        0
    }
}

/// A decodable hex string: even length, hex digits throughout.
pub open spec fn valid_hex(s: Seq<char>) -> bool {
    s.len() % 2 == 0 && forall|i: int| 0 <= i < s.len() ==> is_hex_digit(#[trigger] s[i])
}

/// The bytes a valid hex string decodes to: one byte per digit pair.
pub open spec fn spec_hex_decode(s: Seq<char>) -> Seq<u8> {
    Seq::new(
        s.len() / 2,
        |i: int| (16 * hex_digit_val(s[2 * i]) + hex_digit_val(s[2 * i + 1])) as u8,
    )
}

/// The character code of the lowercase hex digit for a nibble value.
pub open spec fn hex_char_code(v: int) -> int {
    if v < 10 {
        48 + v
    } else {
        87 + v
    }
}

/// Whether `s` is the lowercase hex encoding of `b`: two digits per byte,
/// high nibble first.
pub open spec fn is_hex_of(s: Seq<char>, b: Seq<u8>) -> bool {
    &&& s.len() == 2 * b.len()
    &&& forall|i: int| 0 <= i < b.len() ==> (#[trigger] s[2 * i]) as int == hex_char_code(
        b[i] as int / 16,
    ) && s[2 * i + 1] as int == hex_char_code(b[i] as int % 16)
}

/// Relies on `hex::decode`: turns digit pairs into bytes, accepting either
/// case, and refuses an odd-length string or any non-digit.
#[verifier::external_body]
pub fn hex_decode(s: &String) -> (r: Option<Vec<u8>>)
    ensures
        match r {
            Some(v) => valid_hex(s@) && v@ == spec_hex_decode(s@),
            None => !valid_hex(s@),
        },
{
    match hex::decode(s.as_bytes()) {
        Ok(v) => Some(v),
        Err(_) => None,
    }
}

/// Relies on `hex::encode`: two lowercase digits per byte, high nibble
/// first.
#[verifier::external_body]
pub fn hex_encode(b: &Vec<u8>) -> (r: String)
    ensures
        is_hex_of(r@, b@),
{
    hex::encode(b.as_slice())
}

/// A lowercase hex encoding is always decodable, and decodes to exactly
/// the bytes it was made from: the two transports round-trip.
pub proof fn lemma_hex_round_trip(s: Seq<char>, b: Seq<u8>)
    requires
        is_hex_of(s, b),
    ensures
        valid_hex(s),
        spec_hex_decode(s) == b,
{
    assert forall|j: int| 0 <= j < s.len() implies is_hex_digit(#[trigger] s[j]) by {
        let i = j / 2;
        if j % 2 == 0 {
            assert(j == 2 * i);
            assert(s[2 * i] as int == hex_char_code(b[i] as int / 16));
        } else {
            assert(j == 2 * i + 1);
            assert(s[2 * i] as int == hex_char_code(b[i] as int / 16));
            assert(s[2 * i + 1] as int == hex_char_code(b[i] as int % 16));
        }
    }
    assert forall|i: int| 0 <= i < b.len() implies spec_hex_decode(s)[i] == b[i] by {
        assert(s[2 * i] as int == hex_char_code(b[i] as int / 16));
        assert(s[2 * i + 1] as int == hex_char_code(b[i] as int % 16));
        assert(hex_digit_val(s[2 * i]) == b[i] as int / 16);
        assert(hex_digit_val(s[2 * i + 1]) == b[i] as int % 16);
    }
    assert(spec_hex_decode(s) =~= b);
}

} // verus!
