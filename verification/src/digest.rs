//! Content digests and their hexadecimal spelling.

use vstd::prelude::*;

verus! {

/// The 32-byte BLAKE3 digest of a byte string.
pub uninterp spec fn blake3_digest(bytes: Seq<u8>) -> Seq<u8>;

/// Hashes a byte string with `blake3::hash`; the result is the digest of
/// exactly those bytes.
#[verifier::external_body]
pub(crate) fn blake3_bytes(bytes: &[u8]) -> (r: [u8; 32])
    ensures
        r@ == blake3_digest(bytes@),
{
    *blake3::hash(bytes).as_bytes()
}

/// Lower-case hexadecimal digit of a value below sixteen.
pub open spec fn hex_digit(value: int) -> char {
    if value < 10 {
        ('0' as u32 + value) as char
    } else {
        ('a' as u32 + value - 10) as char
    }
}

/// Lower-case hexadecimal spelling of a byte string, high half first.
pub open spec fn hex_chars(bytes: Seq<u8>) -> Seq<char> {
    Seq::new(
        2 * bytes.len(),
        |i: int|
            hex_digit(
                if i % 2 == 0 {
                    bytes[i / 2] as int / 16
                } else {
                    bytes[i / 2] as int % 16
                },
            ),
    )
}

/// Spells bytes with `hex::encode`, which writes two lower-case hexadecimal
/// digits for each byte, the high half first.
#[verifier::external_body]
pub(crate) fn hex_text(bytes: &[u8]) -> (r: String)
    ensures
        r@ == hex_chars(bytes@),
{
    hex::encode(bytes)
}

/// Value of a hexadecimal digit of either case.
pub open spec fn hex_value(digit: char) -> Option<int> {
    if '0' <= digit <= '9' {
        Some(digit as int - '0' as int)
    } else if 'a' <= digit <= 'f' {
        Some(digit as int - 'a' as int + 10)
    } else if 'A' <= digit <= 'F' {
        Some(digit as int - 'A' as int + 10)
    } else {
        None
    }
}

/// Whether a text spells bytes: an even number of hexadecimal digits.
pub open spec fn spells_bytes(text: Seq<char>) -> bool {
    &&& text.len() % 2 == 0
    &&& forall|i: int| 0 <= i < text.len() ==> hex_value(#[trigger] text[i]) is Some
}

/// The bytes that a text spells.
pub open spec fn spelled_bytes(text: Seq<char>) -> Seq<u8> {
    Seq::new(
        text.len() / 2,
        |i: int| (16 * hex_value(text[2 * i])->0 + hex_value(text[2 * i + 1])->0) as u8,
    )
}

/// Reads bytes with `hex::decode`, which accepts an even number of hexadecimal digits
/// of either case, and takes two of them for each byte, the high half first.
#[verifier::external_body]
pub(crate) fn hex_bytes(text: &str) -> (r: Option<Vec<u8>>)
    ensures
        r is Some == spells_bytes(text@),
        r matches Some(bytes) ==> bytes@ == spelled_bytes(text@),
{
    hex::decode(text).ok()
}

/// The hexadecimal spelling of bytes reads back as those bytes.
pub proof fn spelling_reads_back(bytes: Seq<u8>)
    ensures
        spells_bytes(hex_chars(bytes)),
        spelled_bytes(hex_chars(bytes)) == bytes,
{
    let text = hex_chars(bytes);
    assert(text.len() == 2 * bytes.len());
    assert forall|i: int| 0 <= i < text.len() implies hex_value(#[trigger] text[i]) is Some by {
        let byte = bytes[i / 2] as int;
        assert(0 <= byte / 16 < 16 && 0 <= byte % 16 < 16);
    }
    assert forall|i: int| 0 <= i < bytes.len() implies spelled_bytes(text)[i] == bytes[i] by {
        let byte = bytes[i] as int;
        assert((2 * i) / 2 == i && (2 * i) % 2 == 0 && (2 * i + 1) / 2 == i && (2 * i + 1) % 2 == 1);
        assert(0 <= byte / 16 < 16 && 0 <= byte % 16 < 16);
        assert(text[2 * i] == hex_digit(byte / 16));
        assert(text[2 * i + 1] == hex_digit(byte % 16));
        assert(hex_value(hex_digit(byte / 16)) == Some(byte / 16));
        assert(hex_value(hex_digit(byte % 16)) == Some(byte % 16));
        assert(16 * (byte / 16) + byte % 16 == byte);
    }
    assert(spelled_bytes(text) =~= bytes);
}

} // verus!
