//! The Base64 encoder: packs groups of three 8-bit bytes into four 6-bit
//! symbols, padding a final undersized group with `=`.

use vstd::prelude::*;

use crate::alphabet::alphabet;
use crate::alphabet::alphabet_char;
use crate::alphabet::lemma_alphabet_inverse;
use crate::alphabet::pad_char;
use crate::alphabet::sextet_char;

verus! {

/// Bits [23..18] of a 3-byte group: the top 6 bits of byte 0.
pub open spec fn sextet0(b0: u8) -> u8 {
    b0 >> 2
}

/// Bits [17..12]: the bottom 2 bits of byte 0 and the top 4 bits of byte 1.
pub open spec fn sextet1(b0: u8, b1: u8) -> u8 {
    ((b0 & 0x03) << 4) | (b1 >> 4)
}

/// Bits [11..6]: the bottom 4 bits of byte 1 and the top 2 bits of byte 2.
pub open spec fn sextet2(b1: u8, b2: u8) -> u8 {
    ((b1 & 0x0f) << 2) | (b2 >> 6)
}

/// Bits [5..0]: the bottom 6 bits of byte 2.
pub open spec fn sextet3(b2: u8) -> u8 {
    b2 & 0x3f
}

/// Each sextet is a 6-bit value.
pub proof fn lemma_sextets_bounded(b0: u8, b1: u8, b2: u8)
    by (bit_vector)
    ensures
        sextet0(b0) < 64,
        sextet1(b0, b1) < 64,
        sextet2(b1, b2) < 64,
        sextet3(b2) < 64,
{
}

/// The Base64 encoding of a byte sequence: each full 3-byte group becomes
/// four alphabet symbols; a trailing group of 1 or 2 bytes becomes 2 or 3
/// symbols followed by 2 or 1 padding characters, the absent byte
/// contributing zero bits.
pub open spec fn encoded(b: Seq<u8>) -> Seq<char>
    decreases b.len(),
{
    if b.len() == 0 {
        Seq::empty()
    } else if b.len() == 1 {
        seq![
            alphabet_char(sextet0(b[0]) as int),
            alphabet_char(sextet1(b[0], 0) as int),
            pad_char(),
            pad_char(),
        ]
    } else if b.len() == 2 {
        seq![
            alphabet_char(sextet0(b[0]) as int),
            alphabet_char(sextet1(b[0], b[1]) as int),
            alphabet_char(sextet2(b[1], 0) as int),
            pad_char(),
        ]
    } else {
        seq![
            alphabet_char(sextet0(b[0]) as int),
            alphabet_char(sextet1(b[0], b[1]) as int),
            alphabet_char(sextet2(b[1], b[2]) as int),
            alphabet_char(sextet3(b[2]) as int),
        ] + encoded(b.skip(3))
    }
}

/// An encoding splits at any group boundary of the input.
pub proof fn lemma_encoded_split(b: Seq<u8>, i: int)
    requires
        0 <= i <= b.len(),
        i % 3 == 0,
    ensures
        encoded(b) == encoded(b.take(i)) + encoded(b.skip(i)),
    decreases i,
{
    if i == 0 {
        assert(b.take(0) =~= Seq::empty());
        assert(b.skip(0) =~= b);
        assert(encoded(b) =~= encoded(b.take(0)) + encoded(b.skip(0)));
    } else {
        let rest = b.skip(3);
        lemma_encoded_split(rest, i - 3);
        assert(rest.take(i - 3) =~= b.take(i).skip(3));
        assert(rest.skip(i - 3) =~= b.skip(i));
        assert(b.take(i)[0] == b[0] && b.take(i)[1] == b[1] && b.take(i)[2] == b[2]);
        assert(encoded(b) =~= encoded(b.take(i)) + encoded(b.skip(i)));
    }
}

/// Length law: an encoding is empty for empty input; otherwise its length
/// is four times the number of 3-byte groups, the last group rounded up.
pub proof fn lemma_encoded_len(b: Seq<u8>)
    ensures
        b.len() == 0 ==> encoded(b).len() == 0,
        b.len() > 0 ==> encoded(b).len() == 4 * ((b.len() + 2) / 3),
    decreases b.len(),
{
    if b.len() >= 3 {
        lemma_encoded_len(b.skip(3));
    }
}

/// Alphabet membership law: every character of an encoding is either the
/// padding character or a member of the alphabet.
pub proof fn lemma_encoded_chars(b: Seq<u8>)
    ensures
        forall|i: int|
            0 <= i < encoded(b).len() ==> encoded(b)[i] == pad_char() || alphabet().contains(
                #[trigger] encoded(b)[i],
            ),
    decreases b.len(),
{
    lemma_sextets_bounded(0, 0, 0);
    if b.len() == 0 {
    } else if b.len() <= 2 {
        assert forall|i: int| 0 <= i < encoded(b).len() implies encoded(b)[i] == pad_char()
            || alphabet().contains(#[trigger] encoded(b)[i]) by {
            lemma_sextets_bounded(b[0], if b.len() == 2 { b[1] } else { 0 }, 0);
            let c = encoded(b)[i];
            if c != pad_char() {
                assert(exists|j: int| 0 <= j < 64 && alphabet()[j] == c) by {
                    assert(alphabet()[choose_sextet(b, i)] == c);
                }
            }
        }
    } else {
        lemma_encoded_chars(b.skip(3));
        assert forall|i: int| 0 <= i < encoded(b).len() implies encoded(b)[i] == pad_char()
            || alphabet().contains(#[trigger] encoded(b)[i]) by {
            lemma_sextets_bounded(b[0], b[1], b[2]);
            if i < 4 {
                let c = encoded(b)[i];
                assert(alphabet()[choose_sextet(b, i)] == c);
            } else {
                assert(encoded(b)[i] == encoded(b.skip(3))[i - 4]);
            }
        }
    }
}

/// The 6-bit value behind position `i` of the first group of `encoded(b)`.
pub open spec fn choose_sextet(b: Seq<u8>, i: int) -> int {
    if i == 0 {
        sextet0(b[0]) as int
    } else if i == 1 {
        sextet1(b[0], if b.len() >= 2 { b[1] } else { 0 }) as int
    } else if i == 2 {
        sextet2(b[1], if b.len() >= 3 { b[2] } else { 0 }) as int
    } else {
        sextet3(b[2]) as int
    }
}

/// The number of trailing padding characters of an encoded text.
pub open spec fn trailing_pad_count(s: Seq<char>) -> int
    decreases s.len(),
{
    if s.len() == 0 {
        0
    } else if s[s.len() - 1] == pad_char() {
        1 + trailing_pad_count(s.take(s.len() - 1))
    } else {
        0
    }
}

/// Appending to a sequence whose first character is not padding leaves the
/// trailing padding count of the appended part unchanged.
proof fn lemma_trailing_pad_append(a: Seq<char>, t: Seq<char>)
    requires
        t.len() > 0,
        t[0] != pad_char(),
    ensures
        trailing_pad_count(a + t) == trailing_pad_count(t),
    decreases t.len(),
{
    let s = a + t;
    assert(s[s.len() - 1] == t[t.len() - 1]);
    if t[t.len() - 1] == pad_char() {
        assert(s.take(s.len() - 1) =~= a + t.take(t.len() - 1));
        lemma_trailing_pad_append(a, t.take(t.len() - 1));
    }
}

/// Padding count law: the number of trailing padding characters of
/// `encoded(b)` is `(3 - b.len() % 3) % 3`: zero, one or two.
pub proof fn lemma_encoded_padding(b: Seq<u8>)
    ensures
        trailing_pad_count(encoded(b)) == (3 - b.len() % 3) % 3,
    decreases b.len(),
{
    let e = encoded(b);
    if b.len() == 0 {
    } else if b.len() == 1 {
        lemma_sextets_bounded(b[0], 0, 0);
        lemma_alphabet_inverse(sextet1(b[0], 0) as int);
        let e3 = e.take(3);
        let e2 = seq![
            alphabet_char(sextet0(b[0]) as int),
            alphabet_char(sextet1(b[0], 0) as int),
        ];
        assert(e3.take(2) =~= e2);
        assert(e2[e2.len() - 1] != pad_char());
        assert(trailing_pad_count(e2) == 0);
        assert(e3[e3.len() - 1] == pad_char());
        assert(trailing_pad_count(e3) == 1);
        assert(e[e.len() - 1] == pad_char());
        assert(trailing_pad_count(e) == 2);
    } else if b.len() == 2 {
        lemma_sextets_bounded(b[0], b[1], 0);
        lemma_alphabet_inverse(sextet2(b[1], 0) as int);
        let e3 = e.take(3);
        assert(e3[e3.len() - 1] != pad_char());
        assert(trailing_pad_count(e3) == 0);
        assert(e[e.len() - 1] == pad_char());
        assert(trailing_pad_count(e) == 1);
    } else {
        lemma_sextets_bounded(b[0], b[1], b[2]);
        lemma_alphabet_inverse(sextet3(b[2]) as int);
        lemma_encoded_padding(b.skip(3));
        let g = seq![
            alphabet_char(sextet0(b[0]) as int),
            alphabet_char(sextet1(b[0], b[1]) as int),
            alphabet_char(sextet2(b[1], b[2]) as int),
            alphabet_char(sextet3(b[2]) as int),
        ];
        let t = encoded(b.skip(3));
        if b.len() == 3 {
            assert(t =~= Seq::empty());
            assert(e =~= g);
            assert(trailing_pad_count(e) == 0);
        } else {
            lemma_sextets_bounded(b.skip(3)[0], 0, 0);
            lemma_alphabet_inverse(sextet0(b.skip(3)[0]) as int);
            lemma_trailing_pad_append(g, t);
            assert(b.skip(3).len() % 3 == b.len() % 3);
        }
    }
}

/// Relies on `String::push`, which appends the given character to the end
/// of the string.
#[verifier::external_body]
fn push_char(s: &mut String, c: char)
    ensures
        final(s)@ == old(s)@.push(c),
{
    s.push(c);
}

/// Encodes a borrowed byte sequence as Base64 text.
pub struct Base64Encoder<'message> {
    message: &'message [u8],
}

impl<'message> View for Base64Encoder<'message> {
    type V = Seq<u8>;

    closed spec fn view(&self) -> Seq<u8> {
        self.message@
    }
}

impl<'message> Base64Encoder<'message> {
    /// An encoder over the given bytes.
    pub fn new(message: &'message [u8]) -> (r: Self)
        ensures
            r@ == message@,
    {
        Base64Encoder { message }
    }

    /// The Base64 encoding of the bytes: always succeeds, and is empty
    /// exactly when the input is empty.
    pub fn encode(&self) -> (r: String)
        ensures
            r@ == encoded(self@),
    {
        let n = self.message.len();
        let mut out = String::new();
        let mut i: usize = 0;
        while n - i >= 3
            invariant
                n == self@.len(),
                i % 3 == 0,
                i <= n,
                out@ == encoded(self@.take(i as int)),
            decreases n - i,
        {
            let b0 = self.message[i];
            let b1 = self.message[i + 1];
            let b2 = self.message[i + 2];
            proof {
                lemma_sextets_bounded(b0, b1, b2);
            }
            let ghost prev = out@;
            push_char(&mut out, sextet_char(b0 >> 2));
            push_char(&mut out, sextet_char(((b0 & 0x03) << 4) | (b1 >> 4)));
            push_char(&mut out, sextet_char(((b1 & 0x0f) << 2) | (b2 >> 6)));
            push_char(&mut out, sextet_char(b2 & 0x3f));
            proof {
                let p = self@.take(i + 3);
                lemma_encoded_split(p, i as int);
                let g = seq![b0, b1, b2];
                assert(p.take(i as int) =~= self@.take(i as int));
                assert(p.skip(i as int) =~= g);
                assert(g.skip(3) =~= Seq::<u8>::empty());
                assert(encoded(g.skip(3)) == Seq::<char>::empty());
                assert(encoded(g) =~= seq![
                    alphabet_char(sextet0(b0) as int),
                    alphabet_char(sextet1(b0, b1) as int),
                    alphabet_char(sextet2(b1, b2) as int),
                    alphabet_char(sextet3(b2) as int),
                ]);
                assert(out@ =~= prev + encoded(g));
                assert(out@ =~= encoded(p));
            }
            i += 3;
        }
        let ghost prev = out@;
        if i < n {
            let b0 = self.message[i];
            proof {
                lemma_sextets_bounded(b0, 0, 0);
            }
            push_char(&mut out, sextet_char(b0 >> 2));
            if i + 1 < n {
                let b1 = self.message[i + 1];
                proof {
                    lemma_sextets_bounded(b0, b1, 0);
                    assert((b1 & 0x0f) << 2 == sextet2(b1, 0)) by (bit_vector);
                }
                push_char(&mut out, sextet_char(((b0 & 0x03) << 4) | (b1 >> 4)));
                push_char(&mut out, sextet_char((b1 & 0x0f) << 2));
                push_char(&mut out, '=');
                proof {
                    lemma_encoded_split(self@, i as int);
                    let g = self@.skip(i as int);
                    assert(g =~= seq![b0, b1]);
                    assert(out@ =~= prev + seq![
                        alphabet_char(sextet0(b0) as int),
                        alphabet_char(sextet1(b0, b1) as int),
                        alphabet_char(sextet2(b1, 0) as int),
                        pad_char(),
                    ]);
                    assert(out@ =~= encoded(self@));
                }
            } else {
                proof {
                    assert((b0 & 0x03) << 4 == sextet1(b0, 0)) by (bit_vector);
                }
                push_char(&mut out, sextet_char((b0 & 0x03) << 4));
                push_char(&mut out, '=');
                push_char(&mut out, '=');
                proof {
                    lemma_encoded_split(self@, i as int);
                    let g = self@.skip(i as int);
                    assert(g =~= seq![b0]);
                    assert(out@ =~= prev + seq![
                        alphabet_char(sextet0(b0) as int),
                        alphabet_char(sextet1(b0, 0) as int),
                        pad_char(),
                        pad_char(),
                    ]);
                    assert(out@ =~= encoded(self@));
                }
            }
        } else {
            proof {
                assert(self@.take(i as int) =~= self@);
            }
        }
        out
    }
}

} // verus!
