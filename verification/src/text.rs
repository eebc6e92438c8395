//! Characters, and the bytes that they take up.
use vstd::prelude::*;

verus! {

/// The number of bytes that a character takes up.
pub open spec fn char_bytes(c: char) -> nat {
    if (c as u32) < 0x80 {
        1
    } else if (c as u32) < 0x800 {
        2
    } else if (c as u32) < 0x1_0000 {
        3
    } else {
        4
    }
}

/// The number of bytes that a character takes up.
pub fn count_bytes(c: char) -> (bytes: u128)
    ensures
        bytes == char_bytes(c),
{
    let code: u32 = c as u32;
    if code < 0x80 {
        1
    } else if code < 0x800 {
        2
    } else if code < 0x1_0000 {
        3
    } else {
        4
    }
}

/// Whether the byte at that place of a text starts a character, or whether the text ends there.
pub open spec fn is_cut(text: Seq<char>, place: int) -> bool {
    vstd::utf8::is_char_boundary(vstd::utf8::encode_utf8(text), place)
}

/// Whether the byte at that place of a text starts a character, or whether the text ends there.
pub fn can_cut(text: &str, place: u128) -> (cut: bool)
    ensures
        cut == is_cut(text@, place as int),
{
    proof {
        vstd::utf8::encode_utf8_valid_utf8(text@);
    }
    let len: usize = text.as_bytes().len();
    if place > len as u128 {
        return false;
    }
    text.is_char_boundary(place as usize)
}

} // verus!
