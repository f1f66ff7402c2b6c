//! The four-byte chunk type code and the naming-convention bits it carries.

use crate::text::{ascii_text, lemma_ascii_is_utf8, string_from_utf8};
use vstd::prelude::*;
use vstd::slice::slice_to_vec;
use vstd::string::StringSliceAdditionalSpecFns;
use vstd::utf8::encode_utf8_decode_utf8;

verus! {

/// Whether `b` is an upper-case ASCII letter.
pub open spec fn is_uppercase(b: u8) -> bool {
    65 <= b <= 90
}

/// Whether `b` is a lower-case ASCII letter.
pub open spec fn is_lowercase(b: u8) -> bool {
    97 <= b <= 122
}

/// Whether `b` is an ASCII letter.
pub open spec fn is_letter(b: u8) -> bool {
    is_uppercase(b) || is_lowercase(b)
}

/// Whether `s` is usable as a chunk type code: four ASCII letters.
pub open spec fn is_type_code(s: Seq<u8>) -> bool {
    &&& s.len() == 4
    &&& forall|i: int| 0 <= i < 4 ==> is_letter(#[trigger] s[i])
}

/// How many bytes of `s` are ASCII letters.
pub open spec fn letter_count(s: Seq<u8>) -> nat
    decreases s.len(),
{
    if s.len() == 0 {
        0
    } else {
        letter_count(s.drop_last()) + if is_letter(s.last()) {
            1nat
        } else {
            0nat
        }
    }
}

/// Whether bit 5 of `b`, the bit that tells upper case from lower case, is 0.
pub open spec fn bit_five_clear(b: u8) -> bool {
    b & 0x20 == 0
}

/// The position of the first byte of `s` that is not a letter, or the length
/// of `s` if every byte is one.
pub open spec fn first_non_letter(s: Seq<u8>) -> int
    decreases s.len(),
{
    if s.len() == 0 || !is_letter(s[0]) {
        0
    } else {
        1 + first_non_letter(s.drop_first())
    }
}

/// Why a byte sequence is not a chunk type code.
#[derive(Debug, Clone, Copy, PartialEq, Eq, Structural)]
pub enum ChunkTypeError {
    /// The text does not have exactly four bytes; `len` is the length found.
    WrongLength { len: usize },
    /// `byte`, at position `index`, is the first byte that is not a letter.
    NotAlphabetic { index: usize, byte: u8 },
}

/// A validated chunk type code: four ASCII letters.
#[derive(Debug, Clone, Copy)]
pub struct ChunkType {
    chunk: [u8; 4],
}

impl View for ChunkType {
    type V = Seq<u8>;

    closed spec fn view(&self) -> Seq<u8> {
        self.chunk@
    }
}

impl PartialEq for ChunkType {
    fn eq(&self, other: &ChunkType) -> (r: bool) {
        proof {
            if self.chunk[0] == other.chunk[0] && self.chunk[1] == other.chunk[1] && self.chunk[2]
                == other.chunk[2] && self.chunk[3] == other.chunk[3] {
                assert(self@ =~= other@);
            }
        }
        self.chunk[0] == other.chunk[0] && self.chunk[1] == other.chunk[1] && self.chunk[2]
            == other.chunk[2] && self.chunk[3] == other.chunk[3]
    }
}

impl vstd::std_specs::cmp::PartialEqSpecImpl for ChunkType {
    open spec fn obeys_eq_spec() -> bool {
        true
    }

    open spec fn eq_spec(&self, other: &ChunkType) -> bool {
        self@ == other@
    }
}

impl Eq for ChunkType {

}

impl TryFrom<[u8; 4]> for ChunkType {
    type Error = ChunkTypeError;

    /// Accepts `value` exactly when its four bytes are ASCII letters, and
    /// otherwise reports the first byte that is not.
    fn try_from(value: [u8; 4]) -> (r: Result<ChunkType, ChunkTypeError>)
        ensures
            r is Ok <==> is_type_code(value@),
            r matches Ok(t) ==> t@ == value@,
    {
        if !ChunkType::check_valid(value.as_slice()) {
            let index = position_of_non_letter(value.as_slice());
            return Err(ChunkTypeError::NotAlphabetic { index, byte: value[index] });
        }
        Ok(ChunkType { chunk: value })
    }
}

impl core::str::FromStr for ChunkType {
    type Err = ChunkTypeError;

    /// Reads a type code from text: succeeds exactly when `s` is four bytes
    /// long and each byte is an ASCII letter.
    fn from_str(s: &str) -> (r: Result<ChunkType, ChunkTypeError>)
        ensures
            r == ChunkType::parse_text(s.spec_bytes()),
            r is Ok <==> is_type_code(s.spec_bytes()),
            r matches Ok(t) ==> t@ == s.spec_bytes(),
    {
        let bytes = s.as_bytes();
        if bytes.len() != 4 {
            return Err(ChunkTypeError::WrongLength { len: bytes.len() });
        }
        let chunk: [u8; 4] = [bytes[0], bytes[1], bytes[2], bytes[3]];
        proof {
            assert(chunk@ =~= bytes@);
            ChunkType::lemma_of_seq(bytes@);
        }
        ChunkType::try_from(chunk)
    }
}

impl vstd::std_specs::convert::TryFromSpecImpl<[u8; 4]> for ChunkType {
    open spec fn obeys_try_from_spec() -> bool {
        true
    }

    open spec fn try_from_spec(value: [u8; 4]) -> Result<ChunkType, ChunkTypeError> {
        if is_type_code(value@) {
            Ok(ChunkType::of_bytes(value))
        } else {
            Err(
                ChunkTypeError::NotAlphabetic {
                    index: first_non_letter(value@) as usize,
                    byte: value@[first_non_letter(value@)],
                },
            )
        }
    }
}

impl ChunkType {
    /// The type code that holds the bytes of `value`.
    pub closed spec fn of_bytes(value: [u8; 4]) -> ChunkType {
        ChunkType { chunk: value }
    }

    /// Every value of the type holds four ASCII letters.
    #[verifier::type_invariant]
    pub open spec fn well_formed(&self) -> bool {
        is_type_code(self@)
    }

    /// What reading a type code from the bytes of a text gives: the code
    /// when `text` is four letters, and otherwise the reason why not. A wrong
    /// length is reported before a byte that is not a letter.
    pub open spec fn parse_text(text: Seq<u8>) -> Result<ChunkType, ChunkTypeError> {
        if text.len() != 4 {
            Err(ChunkTypeError::WrongLength { len: text.len() as usize })
        } else if !is_type_code(text) {
            Err(
                ChunkTypeError::NotAlphabetic {
                    index: first_non_letter(text) as usize,
                    byte: text[first_non_letter(text)],
                },
            )
        } else {
            Ok(ChunkType::of_seq(text))
        }
    }

    /// The type code whose bytes are `s`, for an `s` of four bytes.
    pub closed spec fn of_seq(s: Seq<u8>) -> ChunkType {
        ChunkType { chunk: [s[0], s[1], s[2], s[3]] }
    }

    /// `of_seq` and `of_bytes` build the value whose view is the bytes given.
    pub proof fn lemma_of_seq(s: Seq<u8>)
        requires
            s.len() == 4,
        ensures
            ChunkType::of_seq(s)@ == s,
            forall|value: [u8; 4]| value@ == s ==> ChunkType::of_bytes(value) == ChunkType::of_seq(s),
    {
        assert(ChunkType::of_seq(s)@ =~= s);
        assert forall|value: [u8; 4]| value@ == s implies ChunkType::of_bytes(value)
            == ChunkType::of_seq(s) by {
            let built: [u8; 4] = [s[0], s[1], s[2], s[3]];
            assert(built@ =~= s);
            assert(value =~= built);
        }
    }

    /// Two type codes with the same bytes are the same value.
    pub proof fn lemma_view_injective(a: ChunkType, b: ChunkType)
        requires
            a@ == b@,
        ensures
            a == b,
    {
        assert(a.chunk =~= b.chunk);
    }

    /// Whether exactly four of the bytes in `chunks` are ASCII letters; for
    /// four bytes, whether they form a type code.
    pub fn check_valid(chunks: &[u8]) -> (r: bool)
        ensures
            r == (letter_count(chunks@) == 4),
            chunks@.len() == 4 ==> r == is_type_code(chunks@),
    {
        let mut count: usize = 0;
        let mut i: usize = 0;
        while i < chunks.len()
            invariant
                i <= chunks.len(),
                count == letter_count(chunks@.take(i as int)),
                count <= i,
            decreases chunks.len() - i,
        {
            let b = chunks[i];
            proof {
                assert(chunks@.take(i + 1).drop_last() =~= chunks@.take(i as int));
            }
            if (65 <= b && b <= 90) || (97 <= b && b <= 122) {
                count += 1;
            }
            i += 1;
        }
        proof {
            assert(chunks@.take(i as int) =~= chunks@);
            lemma_letter_count(chunks@);
        }
        count == 4
    }

    /// Whether the chunk is critical: bit 5 of the first byte is 0, that is,
    /// the first letter is upper case.
    pub fn is_critical(&self) -> (r: bool)
        ensures
            r == bit_five_clear(self@[0]),
            r == is_uppercase(self@[0]),
    {
        proof {
            use_type_invariant(self);
            lemma_case_bit(self.chunk[0]);
        }
        (self.chunk[0] >> 5) & 1 == 0
    }

    /// Whether the chunk is public: bit 5 of the second byte is 0, that is,
    /// the second letter is upper case.
    pub fn is_public(&self) -> (r: bool)
        ensures
            r == bit_five_clear(self@[1]),
            r == is_uppercase(self@[1]),
    {
        proof {
            use_type_invariant(self);
            lemma_case_bit(self.chunk[1]);
        }
        (self.chunk[1] >> 5) & 1 == 0
    }

    /// Whether the reserved bit is valid: bit 5 of the third byte is 0, that
    /// is, the third letter is upper case.
    pub fn is_reserved_bit_valid(&self) -> (r: bool)
        ensures
            r == bit_five_clear(self@[2]),
            r == is_uppercase(self@[2]),
    {
        proof {
            use_type_invariant(self);
            lemma_case_bit(self.chunk[2]);
        }
        (self.chunk[2] >> 5) & 1 == 0
    }

    /// Whether the chunk is safe to copy: bit 5 of the fourth byte is 1, that
    /// is, the fourth letter is lower case.
    pub fn is_safe_to_copy(&self) -> (r: bool)
        ensures
            r == !bit_five_clear(self@[3]),
            r == is_lowercase(self@[3]),
    {
        proof {
            use_type_invariant(self);
            lemma_case_bit(self.chunk[3]);
        }
        (self.chunk[3] >> 5) & 1 == 1
    }

    /// Whether the code is usable as the type of a new chunk: its reserved
    /// bit is valid and its four bytes are letters.
    pub fn is_valid(&self) -> (r: bool)
        ensures
            r == (bit_five_clear(self@[2]) && is_type_code(self@)),
            r == is_uppercase(self@[2]),
    {
        proof {
            use_type_invariant(self);
        }
        self.is_reserved_bit_valid() && ChunkType::check_valid(self.chunk.as_slice())
    }

    /// The code as text: one character for each of its four letters.
    pub fn to_string(&self) -> (r: String)
        ensures
            r@ == ascii_text(self@),
    {
        proof {
            use_type_invariant(self);
            lemma_ascii_is_utf8(self@);
        }
        let bytes = slice_to_vec(self.chunk.as_slice());
        match string_from_utf8(bytes) {
            Some(text) => {
                proof {
                    encode_utf8_decode_utf8(text@);
                }
                text
            },
            None => {
                // Four letters are valid UTF-8: this arm is never taken.
                proof {
                    assert(false);
                }
                String::new()
            },
        }
    }

    /// The four bytes of the code.
    pub fn bytes(&self) -> (r: [u8; 4])
        ensures
            r@ == self@,
            is_type_code(r@),
    {
        proof {
            use_type_invariant(self);
        }
        self.chunk
    }
}

/// The position of the first byte of `bytes` that is not an ASCII letter.
fn position_of_non_letter(bytes: &[u8]) -> (i: usize)
    ensures
        i == first_non_letter(bytes@),
        i <= bytes@.len(),
        i < bytes@.len() ==> !is_letter(bytes@[i as int]),
        forall|j: int| 0 <= j < i ==> is_letter(#[trigger] bytes@[j]),
{
    let mut i: usize = 0;
    proof {
        assert(bytes@.skip(0) =~= bytes@);
    }
    while i < bytes.len()
        invariant
            i <= bytes.len(),
            forall|j: int| 0 <= j < i ==> is_letter(#[trigger] bytes@[j]),
            first_non_letter(bytes@) == i + first_non_letter(bytes@.skip(i as int)),
        decreases bytes.len() - i,
    {
        let b = bytes[i];
        if !((65 <= b && b <= 90) || (97 <= b && b <= 122)) {
            return i;
        }
        proof {
            assert(bytes@.skip(i as int).drop_first() =~= bytes@.skip(i + 1));
        }
        i += 1;
    }
    i
}

/// A sequence has as many letters as bytes exactly when every byte is a letter.
proof fn lemma_letter_count(s: Seq<u8>)
    ensures
        letter_count(s) <= s.len(),
        letter_count(s) == s.len() <==> forall|i: int| 0 <= i < s.len() ==> is_letter(#[trigger] s[i]),
    decreases s.len(),
{
    if s.len() > 0 {
        lemma_letter_count(s.drop_last());
        if letter_count(s) == s.len() {
            assert forall|i: int| 0 <= i < s.len() implies is_letter(#[trigger] s[i]) by {
                if i < s.len() - 1 {
                    assert(s.drop_last()[i] == s[i]);
                }
            }
        } else if forall|i: int| 0 <= i < s.len() ==> is_letter(#[trigger] s[i]) {
            assert forall|i: int| 0 <= i < s.drop_last().len() implies is_letter(
                #[trigger] s.drop_last()[i],
            ) by {
                assert(s.drop_last()[i] == s[i]);
            }
        }
    }
}

/// For an ASCII letter, bit 5 tells the case: 0 is upper, 1 is lower.
proof fn lemma_case_bit(b: u8)
    by (bit_vector)
    requires
        (65 <= b && b <= 90) || (97 <= b && b <= 122),
    ensures
        ((b >> 5) & 1 == 0) <==> (b & 0x20 == 0),
        ((b >> 5) & 1 == 1) <==> (b & 0x20 != 0),
        (b & 0x20 == 0) <==> (65 <= b && b <= 90),
        (b & 0x20 != 0) <==> (97 <= b && b <= 122),
{
}

} // verus!
