//! Lower-case hexadecimal encoding and decoding of byte strings, as the
//! signatures and content hashes are stored.

use vstd::prelude::*;
use vstd::string::*;
use vstd::utf8::*;
use crate::text::push_char;

verus! {

broadcast use vstd::utf8::group_utf8_lib;

/// The lower-case hexadecimal digit for a nibble `n < 16`.
pub open spec fn hex_digit(n: int) -> char {
    if n < 10 {
        (48 + n) as char
    } else {
        (87 + n) as char
    }
}

/// The lower-case hexadecimal encoding of `bytes`: two digits per byte,
/// high nibble first.
pub open spec fn hex_encoding(bytes: Seq<u8>) -> Seq<char> {
    Seq::new(
        2 * bytes.len(),
        |i: int|
            if i % 2 == 0 {
                hex_digit((bytes[i / 2] / 16) as int)
            } else {
                hex_digit((bytes[i / 2] % 16) as int)
            },
    )
}

/// The value of an ASCII hexadecimal digit, either case.
pub open spec fn hex_value(b: u8) -> Option<u8> {
    if 48 <= b <= 57 {
        Some((b - 48) as u8)
    } else if 97 <= b <= 102 {
        Some((b - 87) as u8)
    } else if 65 <= b <= 70 {
        Some((b - 55) as u8)
    } else {
        None
    }
}

/// Every byte of `text` is a hexadecimal digit.
pub open spec fn all_hex_digits(text: Seq<u8>) -> bool {
    forall|i: int| 0 <= i < text.len() ==> (#[trigger] hex_value(text[i])) is Some
}

/// The bytes that an even-length string of hexadecimal digits denotes.
pub open spec fn hex_pairs(text: Seq<u8>) -> Seq<u8> {
    Seq::new(
        text.len() / 2,
        |i: int|
            (hex_value(text[2 * i])->0 * 16 + hex_value(text[2 * i + 1])->0) as u8,
    )
}

/// Why a string is not a hexadecimal encoding.
#[derive(Debug, Clone, Copy, PartialEq, Eq, Structural)]
pub enum HexError {
    /// The string has an odd number of bytes.
    OddLength,
    /// The byte at `index` (the first such) is not a hexadecimal digit.
    InvalidHexCharacter { byte: u8, index: usize },
    /// The digits do not fill a buffer of fixed size.
    InvalidStringLength,
}

/// What decoding `text` gives: an error for an odd length, else an error at
/// the first byte that is not a digit, else the bytes denoted.
pub open spec fn hex_decoding(text: Seq<u8>) -> Result<Seq<u8>, HexError> {
    if text.len() % 2 != 0 {
        Err(HexError::OddLength)
    } else if all_hex_digits(text) {
        Ok(hex_pairs(text))
    } else {
        let index = choose|i: int| first_invalid(text, i);
        Err(HexError::InvalidHexCharacter { byte: text[index], index: index as usize })
    }
}

fn digit_of(n: u8) -> (c: char)
    requires
        n < 16,
    ensures
        c == hex_digit(n as int),
        c as u32 == (if n < 10 { 48 + n } else { 87 + n }),
{
    if n < 10 {
        (48u8 + n) as char
    } else {
        (87u8 + n) as char
    }
}

/// Encodes bytes as lower-case hexadecimal.
pub fn hex_encode(data: &[u8]) -> (res: String)
    ensures
        res@ == hex_encoding(data@),
{
    let mut res = String::new();
    let mut i: usize = 0;
    while i < data.len()
        invariant
            i <= data@.len(),
            res@ =~= hex_encoding(data@.subrange(0, i as int)),
        decreases data@.len() - i,
    {
        let b = data[i];
        push_char(&mut res, digit_of(b / 16));
        push_char(&mut res, digit_of(b % 16));
        i = i + 1;
        assert(res@ =~= hex_encoding(data@.subrange(0, i as int)));
    }
    assert(data@.subrange(0, data@.len() as int) =~= data@);
    res
}

/// `index` is the first byte of `text` that is not a hexadecimal digit.
pub open spec fn first_invalid(text: Seq<u8>, index: int) -> bool {
    &&& 0 <= index < text.len()
    &&& hex_value(text[index]) is None
    &&& forall|j: int| 0 <= j < index ==> (#[trigger] hex_value(text[j])) is Some
}

/// `hex::decode` on raw bytes. The crate's source rejects an odd length
/// first, then reports the first byte that is not a digit of either case
/// (as a `char` made from that byte, with its index), and otherwise gives
/// the byte of each pair of digits, high nibble first. `InvalidStringLength`
/// is only produced when decoding into fixed-size arrays, never into a `Vec`.
#[verifier::external_body]
fn decode_hex_bytes(text: &[u8]) -> (res: Result<Vec<u8>, HexError>)
    ensures
        text@.len() % 2 != 0 ==> res is Err && res->Err_0 == HexError::OddLength,
        text@.len() % 2 == 0 && all_hex_digits(text@) ==> res is Ok && res->Ok_0@ == hex_pairs(text@),
        text@.len() % 2 == 0 && !all_hex_digits(text@) ==> res is Err && res->Err_0
            is InvalidHexCharacter && first_invalid(text@, res->Err_0->index as int) && res->Err_0->byte
            == text@[res->Err_0->index as int],
{
    match hex::decode(text) {
        Ok(v) => Ok(v),
        Err(hex::FromHexError::OddLength) => Err(HexError::OddLength),
        Err(hex::FromHexError::InvalidHexCharacter { c, index }) => Err(
            HexError::InvalidHexCharacter { byte: c as u8, index },
        ),
        Err(hex::FromHexError::InvalidStringLength) => Err(HexError::InvalidStringLength),
    }
}

/// Decodes a hexadecimal string (either case) into bytes.
pub fn hex_decode(text: &str) -> (res: Result<Vec<u8>, HexError>)
    ensures
        match res {
            Ok(v) => hex_decoding(text.spec_bytes()) == Ok::<Seq<u8>, HexError>(v@),
            Err(e) => hex_decoding(text.spec_bytes()) == Err::<Seq<u8>, HexError>(e),
        },
{
    let bytes = text.as_bytes();
    let res = decode_hex_bytes(bytes);
    proof {
        let t = text.spec_bytes();
        if t.len() % 2 == 0 && !all_hex_digits(t) {
            lemma_first_invalid(t, res->Err_0->index as int);
        }
    }
    res
}

proof fn lemma_first_invalid(t: Seq<u8>, k: int)
    requires
        t.len() % 2 == 0,
        k <= usize::MAX,
        first_invalid(t, k),
    ensures
        hex_decoding(t) == Err::<Seq<u8>, HexError>(
            HexError::InvalidHexCharacter { byte: t[k], index: k as usize },
        ),
{
    assert(!all_hex_digits(t));
    let index = choose|x: int| first_invalid(t, x);
    if index < k {
        assert(hex_value(t[index]) is Some);
    }
    if index > k {
        assert(hex_value(t[k]) is Some);
    }
    assert(index == k);
}

/// Decoding the hexadecimal encoding of any bytes gives those bytes back.
pub proof fn lemma_hex_round_trip(bytes: Seq<u8>)
    ensures
        is_ascii_chars(hex_encoding(bytes)),
        encode_utf8(hex_encoding(bytes)).len() == 2 * bytes.len(),
        hex_decoding(encode_utf8(hex_encoding(bytes))) == Ok::<Seq<u8>, HexError>(bytes),
{
    let chars = hex_encoding(bytes);
    assert forall|i: int| 0 <= i < chars.len() implies '\0' <= #[trigger] chars[i] <= '\u{7f}' by {
        let n: int = if i % 2 == 0 { (bytes[i / 2] / 16) as int } else { (bytes[i / 2] % 16) as int };
        assert(0 <= n < 16);
        assert(chars[i] == hex_digit(n));
    }
    assert(is_ascii_chars(chars));
    is_ascii_chars_encode_utf8(chars);
    let text = encode_utf8(chars);
    assert forall|i: int| 0 <= i < text.len() implies (#[trigger] hex_value(text[i])) is Some
        && hex_value(text[i])->0 == (if i % 2 == 0 { (bytes[i / 2] / 16) as int } else { (bytes[i / 2] % 16) as int }) by {
        let n: int = if i % 2 == 0 { (bytes[i / 2] / 16) as int } else { (bytes[i / 2] % 16) as int };
        assert(chars[i] as u8 == text[i]);
        assert(chars[i] == hex_digit(n));
        if n < 10 {
            assert(text[i] == 48 + n);
        } else {
            assert(text[i] == 87 + n);
        }
    }
    assert(all_hex_digits(text));
    assert(hex_pairs(text) =~= bytes) by {
        assert forall|k: int| 0 <= k < bytes.len() implies #[trigger] hex_pairs(text)[k] == bytes[k] by {
            assert(hex_value(text[2 * k]) is Some);
            assert(hex_value(text[2 * k + 1]) is Some);
            assert((2 * k) / 2 == k);
            assert((2 * k + 1) / 2 == k);
            assert((2 * k) % 2 == 0);
            assert((2 * k + 1) % 2 == 1);
        }
    }
}

} // verus!
