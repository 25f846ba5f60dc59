//! The Base64 alphabet: the ordered table of 64 symbols, the padding
//! character, and the lookup from a character back to its 6-bit value.

use vstd::prelude::*;

verus! {

/// The padding character that marks absent trailing data in a final
/// undersized group.
pub open spec fn pad_char() -> char {
    '='
}

/// The canonical symbol for the 6-bit value `v`: position `v` in the
/// ordered alphabet `A`-`Z`, `a`-`z`, `0`-`9`, `+`, `/`.
pub open spec fn alphabet_char(v: int) -> char
    recommends
        0 <= v < 64,
{
    if v < 26 {
        ((v + 65) as u8) as char
    } else if v < 52 {
        ((v + 71) as u8) as char
    } else if v < 62 {
        ((v - 4) as u8) as char
    } else if v == 62 {
        '+'
    } else {
        '/'
    }
}

/// The ordered 64-symbol table itself.
pub open spec fn alphabet() -> Seq<char> {
    Seq::new(64, |v: int| alphabet_char(v))
}

/// The 6-bit value whose canonical symbol is `c`, or `-1` if `c` is not an
/// alphabet member (the padding character is not a member).
pub open spec fn sym_index(c: char) -> int {
    let u = c as u32;
    if 65 <= u && u <= 90 {
        u - 65
    } else if 97 <= u && u <= 122 {
        u - 97 + 26
    } else if 48 <= u && u <= 57 {
        u - 48 + 52
    } else if u == 43 {
        62
    } else if u == 47 {
        63
    } else {
        -1
    }
}

/// Looking an alphabet member up gives back the value it stands for; every
/// member is distinct from the padding character and is plain ASCII.
pub proof fn lemma_alphabet_inverse(v: int)
    requires
        0 <= v < 64,
    ensures
        sym_index(alphabet_char(v)) == v,
        alphabet_char(v) != pad_char(),
        (alphabet_char(v) as u32) < 128,
{
}

/// The canonical symbol of the 6-bit value `v`.
pub fn sextet_char(v: u8) -> (c: char)
    requires
        v < 64,
    ensures
        c == alphabet_char(v as int),
{
    if v < 26 {
        (65 + v) as char
    } else if v < 52 {
        (71 + v) as char
    } else if v < 62 {
        (v - 4) as char
    } else if v == 62 {
        '+'
    } else {
        '/'
    }
}

/// A character is in the ASCII range exactly when its code point is below
/// 128.
pub proof fn lemma_char_ascii_code(c: char)
    ensures
        ('\0' <= c <= '\u{7f}') <==> ((c as u32) < 128),
{
}

/// An ASCII character survives the round trip through its byte.
pub proof fn lemma_ascii_char_byte(c: char)
    requires
        (c as u32) < 128,
    ensures
        ((c as u8) as char) == c,
        ((c as u8) as u32) == c as u32,
{
}

} // verus!
