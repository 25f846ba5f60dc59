//! The Base64 decoder: maps each character back to one of the 6-bit values and
//! repacks groups of four symbols into up to three 8-bit bytes. Decoding
//! is proved to invert encoding.

use vstd::prelude::*;
use vstd::string::StringSliceAdditionalSpecFns;
use vstd::utf8::decode_utf8;
use vstd::utf8::valid_utf8;

use crate::alphabet::lemma_alphabet_inverse;
use crate::alphabet::pad_char;
use crate::alphabet::sym_index;
use crate::base64_encoder::encoded;
use crate::base64_encoder::lemma_sextets_bounded;
use crate::base64_encoder::sextet0;
use crate::base64_encoder::sextet1;
use crate::base64_encoder::sextet2;
use crate::base64_encoder::sextet3;

verus! {

/// A character the decoder accepts: an alphabet member or padding.
pub open spec fn is_symbol(c: char) -> bool {
    sym_index(c) >= 0 || c == pad_char()
}

/// Every character of the text is an alphabet member or padding.
pub open spec fn valid_symbols(s: Seq<char>) -> bool {
    forall|i: int| 0 <= i < s.len() ==> is_symbol(#[trigger] s[i])
}

/// Text the decoder accepts: every character an alphabet member or
/// padding, and a length that is a multiple of four.
pub open spec fn decodable(s: Seq<char>) -> bool {
    valid_symbols(s) && s.len() % 4 == 0
}

/// The byte holding all 6 bits of symbol 0 and the top 2 bits of symbol 1.
pub open spec fn octet0(v0: u8, v1: u8) -> u8 {
    (v0 << 2) | (v1 >> 4)
}

/// The byte holding the bottom 4 bits of symbol 1 and the top 4 bits of
/// symbol 2.
pub open spec fn octet1(v1: u8, v2: u8) -> u8 {
    ((v1 & 0x0f) << 4) | (v2 >> 2)
}

/// The byte holding the bottom 2 bits of symbol 2 and all 6 bits of
/// symbol 3.
pub open spec fn octet2(v2: u8, v3: u8) -> u8 {
    ((v2 & 0x03) << 6) | v3
}

/// The bytes reconstructed from one group of four symbols: the group ends
/// at the first padding symbol, and no byte is emitted whose bits would
/// come from padding.
pub open spec fn decoded_group(c0: char, c1: char, c2: char, c3: char) -> Seq<u8> {
    if c0 == pad_char() || c1 == pad_char() {
        seq![]
    } else {
        let v0 = sym_index(c0) as u8;
        let v1 = sym_index(c1) as u8;
        if c2 == pad_char() {
            seq![octet0(v0, v1)]
        } else {
            let v2 = sym_index(c2) as u8;
            if c3 == pad_char() {
                seq![octet0(v0, v1), octet1(v1, v2)]
            } else {
                seq![octet0(v0, v1), octet1(v1, v2), octet2(v2, sym_index(c3) as u8)]
            }
        }
    }
}

/// The bytes encoded by a Base64 text, taken group by group.
pub open spec fn decoded_bytes(s: Seq<char>) -> Seq<u8>
    recommends
        decodable(s),
    decreases s.len(),
{
    if s.len() < 4 {
        seq![]
    } else {
        decoded_group(s[0], s[1], s[2], s[3]) + decoded_bytes(s.skip(4))
    }
}

/// A decoding splits at any group boundary of the text.
pub proof fn lemma_decoded_split(s: Seq<char>, i: int)
    requires
        0 <= i <= s.len(),
        i % 4 == 0,
    ensures
        decoded_bytes(s) == decoded_bytes(s.take(i)) + decoded_bytes(s.skip(i)),
    decreases i,
{
    if i == 0 {
        assert(s.take(0) =~= Seq::empty());
        assert(s.skip(0) =~= s);
        assert(decoded_bytes(s) =~= decoded_bytes(s.take(0)) + decoded_bytes(s.skip(0)));
    } else {
        let rest = s.skip(4);
        lemma_decoded_split(rest, i - 4);
        assert(rest.take(i - 4) =~= s.take(i).skip(4));
        assert(rest.skip(i - 4) =~= s.skip(i));
        assert(s.take(i)[0] == s[0] && s.take(i)[1] == s[1] && s.take(i)[2] == s[2] && s.take(i)[3]
            == s[3]);
        assert(decoded_bytes(s) =~= decoded_bytes(s.take(i)) + decoded_bytes(s.skip(i)));
    }
}

/// Repacking the sextets of a byte group gives the bytes back.
proof fn lemma_octets_invert_sextets(b0: u8, b1: u8, b2: u8)
    by (bit_vector)
    ensures
        octet0(sextet0(b0), sextet1(b0, b1)) == b0,
        octet1(sextet1(b0, b1), sextet2(b1, b2)) == b1,
        octet2(sextet2(b1, b2), sextet3(b2)) == b2,
{
}

/// Round-trip law: the encoding of any byte sequence is decodable, and
/// decoding it gives the original bytes back.
pub proof fn lemma_round_trip(b: Seq<u8>)
    ensures
        decodable(encoded(b)),
        decoded_bytes(encoded(b)) == b,
    decreases b.len(),
{
    let e = encoded(b);
    if b.len() == 0 {
        assert(decoded_bytes(e) =~= b);
    } else if b.len() == 1 {
        lemma_sextets_bounded(b[0], 0, 0);
        lemma_alphabet_inverse(sextet0(b[0]) as int);
        lemma_alphabet_inverse(sextet1(b[0], 0) as int);
        lemma_octets_invert_sextets(b[0], 0, 0);
        assert(e.skip(4) =~= Seq::<char>::empty());
        assert(decoded_bytes(e.skip(4)) =~= Seq::<u8>::empty());
        assert(decoded_group(e[0], e[1], e[2], e[3]) =~= seq![b[0]]);
        assert(decoded_bytes(e) =~= b);
    } else if b.len() == 2 {
        lemma_sextets_bounded(b[0], b[1], 0);
        lemma_alphabet_inverse(sextet0(b[0]) as int);
        lemma_alphabet_inverse(sextet1(b[0], b[1]) as int);
        lemma_alphabet_inverse(sextet2(b[1], 0) as int);
        lemma_octets_invert_sextets(b[0], b[1], 0);
        assert(e.skip(4) =~= Seq::<char>::empty());
        assert(decoded_bytes(e.skip(4)) =~= Seq::<u8>::empty());
        assert(decoded_group(e[0], e[1], e[2], e[3]) =~= seq![b[0], b[1]]);
        assert(decoded_bytes(e) =~= b);
    } else {
        lemma_sextets_bounded(b[0], b[1], b[2]);
        lemma_alphabet_inverse(sextet0(b[0]) as int);
        lemma_alphabet_inverse(sextet1(b[0], b[1]) as int);
        lemma_alphabet_inverse(sextet2(b[1], b[2]) as int);
        lemma_alphabet_inverse(sextet3(b[2]) as int);
        lemma_octets_invert_sextets(b[0], b[1], b[2]);
        lemma_round_trip(b.skip(3));
        let t = encoded(b.skip(3));
        assert(e.skip(4) =~= t);
        assert(decoded_bytes(e) =~= decoded_group(e[0], e[1], e[2], e[3]) + decoded_bytes(t));
        assert(decoded_group(e[0], e[1], e[2], e[3]) =~= seq![b[0], b[1], b[2]]);
        assert(decoded_bytes(e) =~= b);
        assert(valid_symbols(e));
    }
}

/// Round-trip law at the text level: when the original bytes themselves
/// spell valid UTF-8 text, the encoding decodes back to exactly that text.
pub proof fn lemma_round_trip_text(b: Seq<u8>)
    requires
        valid_utf8(b),
    ensures
        decodable(encoded(b)),
        valid_utf8(decoded_bytes(encoded(b))),
        decode_utf8(decoded_bytes(encoded(b))) == decode_utf8(b),
{
    lemma_round_trip(b);
}

/// Why a text was rejected by the decoder.
#[derive(Clone, Copy, Debug, PartialEq, Eq, Structural)]
pub enum DecodeError {
    /// The text holds a character that is neither an alphabet member nor
    /// padding.
    InvalidChar,
    /// The text's length is not a multiple of four.
    InvalidLength,
    /// The decoded bytes are not a valid UTF-8 encoding of text.
    InvalidUtf8,
}

/// The 6-bit value a character stands for, or 64 for the padding
/// character.
pub open spec fn sym_value(c: char) -> int {
    if c == pad_char() {
        64
    } else {
        sym_index(c)
    }
}

/// Relies on `String::from_utf8`, which returns the string holding the
/// given bytes exactly when they are a valid UTF-8 encoding, and fails
/// otherwise.
#[verifier::external_body]
fn utf8_string(bytes: Vec<u8>) -> (r: Option<String>)
    ensures
        r is Some <==> valid_utf8(bytes@),
        r matches Some(t) ==> t@ == decode_utf8(bytes@),
{
    String::from_utf8(bytes).ok()
}

/// The 6-bit value for one ASCII character, 64 for padding, or 255 for a
/// character outside the alphabet-plus-padding set.
fn classify_byte(b: u8) -> (r: u8)
    requires
        b < 128,
    ensures
        r <= 64 ==> is_symbol(b as char) && r as int == sym_value(b as char),
        r > 64 ==> r == 255 && !is_symbol(b as char),
{
    if 65 <= b && b <= 90 {
        b - 65
    } else if 97 <= b && b <= 122 {
        b - 97 + 26
    } else if 48 <= b && b <= 57 {
        b - 48 + 52
    } else if b == 43 {
        62
    } else if b == 47 {
        63
    } else if b == 61 {
        64
    } else {
        255
    }
}

/// Decodes a borrowed Base64 text.
pub struct Base64Decoder<'message> {
    message: &'message str,
}

impl<'message> View for Base64Decoder<'message> {
    type V = Seq<char>;

    closed spec fn view(&self) -> Seq<char> {
        self.message@
    }
}

impl<'message> Base64Decoder<'message> {
    /// A decoder over the given text.
    pub fn new(message: &'message str) -> (r: Self)
        ensures
            r@ == message@,
    {
        Base64Decoder { message }
    }

    /// The bytes the text encodes. Fails with `InvalidChar` exactly when
    /// some character is neither an alphabet member nor padding, and with
    /// `InvalidLength` exactly when the characters are all acceptable but
    /// the length is not a multiple of four.
    pub fn decode_bytes(&self) -> (r: Result<Vec<u8>, DecodeError>)
        ensures
            match r {
                Ok(bytes) => decodable(self@) && bytes@ == decoded_bytes(self@),
                Err(DecodeError::InvalidChar) => !valid_symbols(self@),
                Err(DecodeError::InvalidLength) => valid_symbols(self@) && self@.len() % 4 != 0,
                Err(DecodeError::InvalidUtf8) => false,
            },
    {
        let s = self.message;
        if !s.is_ascii() {
            proof {
                let witness = choose|j: int| 0 <= j < s@.len() && !('\0' <= #[trigger] s@[j]
                    <= '\u{7f}');
                assert(0 <= witness < s@.len() && !('\0' <= s@[witness] <= '\u{7f}'));
                crate::alphabet::lemma_char_ascii_code(s@[witness]);
                assert((s@[witness] as u32) >= 128);
                assert(!is_symbol(s@[witness]));
            }
            return Err(DecodeError::InvalidChar);
        }
        proof {
            vstd::string::is_ascii_spec_bytes(s);
        }
        let bytes = s.as_bytes();
        let n = bytes.len();
        let mut vals: Vec<u8> = Vec::new();
        let mut i: usize = 0;
        while i < n
            invariant
                s@ == self@,
                s.is_ascii(),
                bytes@ =~= Seq::new(s@.len(), |j: int| s@[j] as u8),
                n == s@.len(),
                i <= n,
                vals@.len() == i,
                forall|j: int|
                    0 <= j < i ==> is_symbol(#[trigger] s@[j]) && vals@[j] as int == sym_value(
                        s@[j],
                    ),
            decreases n - i,
        {
            let b = bytes[i];
            proof {
                let c = s@[i as int];
                assert('\0' <= c <= '\u{7f}');
                crate::alphabet::lemma_char_ascii_code(c);
                crate::alphabet::lemma_ascii_char_byte(c);
                assert(b == c as u8);
                assert(b < 128);
                assert((b as char) == c);
            }
            let v = classify_byte(b);
            if v > 64 {
                proof {
                    assert(!is_symbol(s@[i as int]));
                    assert(!valid_symbols(self@));
                }
                return Err(DecodeError::InvalidChar);
            }
            vals.push(v);
            i += 1;
        }
        if n % 4 != 0 {
            return Err(DecodeError::InvalidLength);
        }
        let mut out: Vec<u8> = Vec::new();
        let mut i: usize = 0;
        while i < n
            invariant
                n == s@.len(),
                n % 4 == 0,
                i % 4 == 0,
                i <= n,
                vals@.len() == n,
                forall|j: int|
                    0 <= j < n ==> is_symbol(#[trigger] s@[j]) && vals@[j] as int == sym_value(
                        s@[j],
                    ),
                out@ == decoded_bytes(self@.take(i as int)),
                s@ == self@,
            decreases n - i,
        {
            proof {
                assert(i + 4 <= n) by (nonlinear_arith)
                    requires
                        i < n,
                        i % 4 == 0,
                        n % 4 == 0,
                ;
            }
            let v0 = vals[i];
            let v1 = vals[i + 1];
            let v2 = vals[i + 2];
            let v3 = vals[i + 3];
            let ghost prev = out@;
            if v0 != 64 && v1 != 64 {
                out.push((v0 << 2) | (v1 >> 4));
                if v2 != 64 {
                    out.push(((v1 & 0x0f) << 4) | (v2 >> 2));
                    if v3 != 64 {
                        out.push(((v2 & 0x03) << 6) | v3);
                    }
                }
            }
            proof {
                let c0 = s@[i as int];
                let c1 = s@[i + 1];
                let c2 = s@[i + 2];
                let c3 = s@[i + 3];
                let p = self@.take(i + 4);
                lemma_decoded_split(p, i as int);
                assert(p.take(i as int) =~= self@.take(i as int));
                assert(p.skip(i as int) =~= seq![c0, c1, c2, c3]);
                assert(seq![c0, c1, c2, c3].skip(4) =~= Seq::<char>::empty());
                assert(decoded_bytes(seq![c0, c1, c2, c3].skip(4)) =~= Seq::<u8>::empty());
                assert(decoded_bytes(seq![c0, c1, c2, c3]) =~= decoded_group(c0, c1, c2, c3));
                assert(out@ =~= prev + decoded_group(c0, c1, c2, c3));
                assert(out@ =~= decoded_bytes(p));
            }
            i += 4;
        }
        proof {
            assert(self@.take(n as int) =~= self@);
        }
        Ok(out)
    }

    /// The text the decoded bytes spell in UTF-8. Fails as `decode_bytes`
    /// does, and with `InvalidUtf8` exactly when the text decodes to bytes
    /// that are not a valid UTF-8 encoding.
    pub fn decode(&self) -> (r: Result<String, DecodeError>)
        ensures
            match r {
                Ok(t) => decodable(self@) && valid_utf8(decoded_bytes(self@)) && t@ == decode_utf8(
                    decoded_bytes(self@),
                ),
                Err(DecodeError::InvalidChar) => !valid_symbols(self@),
                Err(DecodeError::InvalidLength) => valid_symbols(self@) && self@.len() % 4 != 0,
                Err(DecodeError::InvalidUtf8) => decodable(self@) && !valid_utf8(
                    decoded_bytes(self@),
                ),
            },
    {
        let bytes = match self.decode_bytes() {
            Ok(bytes) => bytes,
            Err(e) => {
                return Err(e);
            },
        };
        match utf8_string(bytes) {
            Some(t) => Ok(t),
            None => Err(DecodeError::InvalidUtf8),
        }
    }
}

} // verus!
