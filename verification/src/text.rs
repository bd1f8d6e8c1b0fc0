//! Reading characters out of UTF-8 text, one character at a time, by byte
//! position.

use vstd::prelude::*;
use vstd::utf8::*;

verus! {

/// The bytes of `bytes` from position `pos` to the end.
pub open spec fn suffix(bytes: Seq<u8>, pos: int) -> Seq<u8> {
    bytes.subrange(pos, bytes.len() as int)
}

/// Converts a Unicode scalar value into the `char` that it denotes.
///
/// Calls `char::from_u32`, which std documents to return `Some(c)` exactly
/// for the values that are valid `char`s, i.e. the Unicode scalar values, with
/// `c as u32` equal to its argument; the `requires` rules out the `None` case.
#[verifier::external_body]
fn char_from_scalar(value: u32) -> (c: char)
    requires
        is_scalar(value),
    ensures
        c as u32 == value,
{
    char::from_u32(value).unwrap()
}

/// Decodes the character that starts at byte `pos` of the UTF-8 text `bytes`.
///
/// Returns the character and the number of bytes that encode it, or `None`
/// when `pos` is the end of the text.
pub fn char_at(bytes: &[u8], pos: usize) -> (r: Option<(char, usize)>)
    requires
        pos <= bytes@.len(),
        valid_utf8(suffix(bytes@, pos as int)),
    ensures
        r is None <==> pos == bytes@.len(),
        r matches Some((c, w)) ==> {
            &&& valid_first_scalar(suffix(bytes@, pos as int))
            &&& w == length_of_first_scalar(suffix(bytes@, pos as int))
            &&& c == decode_first_scalar(suffix(bytes@, pos as int)) as char
        },
{
    if pos == bytes.len() {
        return None;
    }
    let ghost s = suffix(bytes@, pos as int);
    assert(valid_first_scalar(s));
    let b1 = bytes[pos];
    assert(b1 == s[0]);
    if b1 < 0x80 {
        let cp: u32 = (b1 & 0x7F) as u32;
        assert(cp == decode_first_scalar(s));
        assert(is_scalar(cp)) by (bit_vector)
            requires cp == (b1 & 0x7F) as u32;
        let c = char_from_scalar(cp);
        proof { char_u32_cast(c, cp); }
        Some((c, 1))
    } else if b1 < 0xe0 {
        let b2 = bytes[pos + 1];
        assert(b2 == s[1]);
        let cp: u32 = (((b1 & 0x1F) as u32) << 6) | ((b2 & 0x3f) as u32);
        assert(cp == decode_first_scalar(s));
        assert(cp <= 0x7FF) by (bit_vector)
            requires cp == (((b1 & 0x1F) as u32) << 6) | ((b2 & 0x3f) as u32);
        let c = char_from_scalar(cp);
        proof { char_u32_cast(c, cp); }
        Some((c, 2))
    } else if b1 < 0xf0 {
        let b2 = bytes[pos + 1];
        let b3 = bytes[pos + 2];
        assert(b2 == s[1] && b3 == s[2]);
        let cp: u32 = (((b1 & 0x0F) as u32) << 12) | (((b2 & 0x3f) as u32) << 6) | ((b3
            & 0x3f) as u32);
        assert(cp == decode_first_scalar(s));
        assert(cp <= 0xFFFF) by (bit_vector)
            requires
                cp == (((b1 & 0x0F) as u32) << 12) | (((b2 & 0x3f) as u32) << 6) | ((b3
                    & 0x3f) as u32),
        ;
        let c = char_from_scalar(cp);
        proof { char_u32_cast(c, cp); }
        Some((c, 3))
    } else {
        let b2 = bytes[pos + 1];
        let b3 = bytes[pos + 2];
        let b4 = bytes[pos + 3];
        assert(b2 == s[1] && b3 == s[2] && b4 == s[3]);
        let cp: u32 = (((b1 & 0x07) as u32) << 18) | (((b2 & 0x3f) as u32) << 12) | (((b3
            & 0x3f) as u32) << 6) | ((b4 & 0x3f) as u32);
        assert(cp == decode_first_scalar(s));
        let c = char_from_scalar(cp);
        proof { char_u32_cast(c, cp); }
        Some((c, 4))
    }
}

} // verus!
