//! The chunk record: a type code and a payload, written on the wire as a
//! big-endian length, the type, the payload and a CRC-32 of type and payload.

use crate::chunk_type::{first_non_letter, is_type_code, ChunkType, ChunkTypeError};
use crate::text::{ascii_text, decimal, decimal_string, string_from_utf8};
use vstd::prelude::*;
use vstd::string::StringExecFns;
use vstd::slice::{slice_subrange, slice_to_vec};
use vstd::utf8::{decode_utf8, encode_utf8_decode_utf8, valid_utf8};

verus! {

/// The CRC-32/ISO-HDLC checksum of `bytes`, the variant that zlib and PNG use.
pub uninterp spec fn crc32_iso_hdlc(bytes: Seq<u8>) -> u32;

/// `Crc::<u32>::checksum` of the `crc` crate, on a `Crc` made by
/// `Crc::<u32>::new` for the algorithm `CRC_32_ISO_HDLC`. Trusted: the result
/// depends on the bytes alone and is the checksum named `crc32_iso_hdlc`.
#[verifier::external_body]
fn crc32(bytes: &[u8]) -> (r: u32)
    ensures
        r == crc32_iso_hdlc(bytes@),
{
    crc::Crc::<u32>::new(&crc::CRC_32_ISO_HDLC).checksum(bytes)
}

/// The four bytes of `x`, most significant first.
#[verifier::opaque]
pub open spec fn be_bytes(x: u32) -> Seq<u8> {
    seq![
        (x / 0x100_0000) as u8,
        ((x / 0x1_0000) % 0x100) as u8,
        ((x / 0x100) % 0x100) as u8,
        (x % 0x100) as u8,
    ]
}

/// The number that the first four bytes of `s` spell, most significant first.
#[verifier::opaque]
pub open spec fn be_value(s: Seq<u8>) -> u32 {
    (s[0] * 0x100_0000 + s[1] * 0x1_0000 + s[2] * 0x100 + s[3]) as u32
}

/// A number is read back from its four big-endian bytes.
pub proof fn lemma_be_value_of_bytes(x: u32)
    ensures
        be_bytes(x).len() == 4,
        be_value(be_bytes(x)) == x,
{
    reveal(be_bytes);
    reveal(be_value);
    lemma_split_u32(x);
}

/// Four bytes are written back from the number they spell.
pub proof fn lemma_be_bytes_of_value(s: Seq<u8>)
    requires
        s.len() == 4,
    ensures
        be_bytes(be_value(s)) == s,
{
    reveal(be_bytes);
    reveal(be_value);
    lemma_join_bytes(s[0] as u32, s[1] as u32, s[2] as u32, s[3] as u32);
    assert(be_bytes(be_value(s)) =~= s);
}

/// A 32-bit number is the sum of its four bytes, each at its place.
proof fn lemma_split_u32(x: u32)
    by (bit_vector)
    ensures
        x / 0x100_0000 < 0x100,
        x == (x / 0x100_0000) * 0x100_0000 + ((x / 0x1_0000) % 0x100) * 0x1_0000 + ((x / 0x100)
            % 0x100) * 0x100 + (x % 0x100),
{
}

/// Four bytes, each at its place, add up to a 32-bit number from which
/// division and remainder give each of them back.
proof fn lemma_join_bytes(a: u32, b: u32, c: u32, d: u32)
    by (bit_vector)
    requires
        a < 0x100,
        b < 0x100,
        c < 0x100,
        d < 0x100,
    ensures
        a * 0x100_0000 + b * 0x1_0000 + c * 0x100 + d <= 0xffff_ffff,
        (a * 0x100_0000 + b * 0x1_0000 + c * 0x100 + d) / 0x100_0000 == a,
        ((a * 0x100_0000 + b * 0x1_0000 + c * 0x100 + d) / 0x1_0000) % 0x100 == b,
        ((a * 0x100_0000 + b * 0x1_0000 + c * 0x100 + d) / 0x100) % 0x100 == c,
        (a * 0x100_0000 + b * 0x1_0000 + c * 0x100 + d) % 0x100 == d,
{
}

/// What a chunk is, apart from how it is stored: the bytes of its type code
/// and its payload.
pub struct ChunkView {
    pub chunk_type: Seq<u8>,
    pub data: Seq<u8>,
}

impl ChunkView {
    /// Whether the type code is one: four ASCII letters.
    pub open spec fn well_formed(self) -> bool {
        is_type_code(self.chunk_type)
    }

    /// The checksum of the chunk: the CRC-32 of type code and payload.
    pub open spec fn crc(self) -> u32 {
        crc32_iso_hdlc(self.chunk_type + self.data)
    }

    /// The number of bytes the chunk takes on the wire.
    pub open spec fn encoded_len(self) -> nat {
        self.data.len() + 12
    }

    /// The length field of the chunk on the wire: the payload length, reduced
    /// to 32 bits.
    pub open spec fn length_field(self) -> u32 {
        (self.data.len() % 0x1_0000_0000) as u32
    }

    /// The chunk on the wire: length, type code, payload, checksum.
    pub open spec fn encode(self) -> Seq<u8> {
        be_bytes(self.length_field()) + self.chunk_type + self.data + be_bytes(self.crc())
    }
}

/// A chunk described in one line of text: the length of the payload, the type
/// code, the length again, and the checksum in decimal.
pub open spec fn chunk_text(chunk: ChunkView) -> Seq<char> {
    "Chunk {"@ + "    Length: "@ + decimal(chunk.data.len()) + "    Type: "@ + ascii_text(
        chunk.chunk_type,
    ) + "    Data: "@ + decimal(chunk.data.len()) + " bytes"@ + "    Crc: "@ + decimal(
        chunk.crc() as nat,
    ) + "}"@
}

/// Why a byte buffer does not start with a chunk.
#[derive(Debug, Clone, Copy, PartialEq, Eq, Structural)]
pub enum ChunkParseError {
    /// The buffer ends before the chunk does: `needed` bytes are called for,
    /// `available` are there.
    Truncated { needed: u64, available: u64 },
    /// The four bytes in the place of the type code are not one.
    InvalidType(ChunkTypeError),
    /// The checksum `stored` in the buffer is not the one `computed` from
    /// type code and payload.
    ChecksumMismatch { stored: u32, computed: u32 },
}

/// A payload that is asked for as text and is not valid UTF-8.
#[derive(Debug, Clone, Copy, PartialEq, Eq, Structural)]
pub struct InvalidEncoding;

/// What reading one chunk from the start of `bytes` gives. Bytes after the
/// chunk are not looked at.
pub open spec fn parse_chunk(bytes: Seq<u8>) -> Result<ChunkView, ChunkParseError> {
    if bytes.len() < 4 {
        Err(ChunkParseError::Truncated { needed: 4, available: bytes.len() as u64 })
    } else {
        let length = be_value(bytes.subrange(0, 4));
        if bytes.len() < length + 12 {
            Err(
                ChunkParseError::Truncated {
                    needed: (length + 12) as u64,
                    available: bytes.len() as u64,
                },
            )
        } else {
            let chunk_type = bytes.subrange(4, 8);
            let data = bytes.subrange(8, 8 + length);
            let stored = be_value(bytes.subrange(8 + length, 12 + length));
            let computed = crc32_iso_hdlc(bytes.subrange(4, 8 + length));
            if !is_type_code(chunk_type) {
                Err(
                    ChunkParseError::InvalidType(
                        ChunkTypeError::NotAlphabetic {
                            index: first_non_letter(chunk_type) as usize,
                            byte: chunk_type[first_non_letter(chunk_type)],
                        },
                    ),
                )
            } else if stored != computed {
                Err(ChunkParseError::ChecksumMismatch { stored, computed })
            } else {
                Ok(ChunkView { chunk_type, data })
            }
        }
    }
}

/// Round trip: a chunk with a valid type code and a payload whose length fits
/// in 32 bits is read back from its bytes on the wire with the same type
/// code, the same payload and so the same checksum, whatever bytes follow it
/// in the buffer; and it takes `encoded_len` bytes there.
pub proof fn lemma_chunk_round_trip(chunk: ChunkView, rest: Seq<u8>)
    requires
        chunk.well_formed(),
        chunk.data.len() <= u32::MAX,
    ensures
        chunk.encode().len() == chunk.encoded_len(),
        parse_chunk(chunk.encode()) == Ok::<ChunkView, ChunkParseError>(chunk),
        parse_chunk(chunk.encode() + rest) == Ok::<ChunkView, ChunkParseError>(chunk),
        parse_chunk(chunk.encode() + rest)->Ok_0.crc() == chunk.crc(),
        (chunk.encode() + rest).skip(chunk.encoded_len() as int) == rest,
{
    let covered = chunk.chunk_type + chunk.data;
    let length = chunk.data.len() as int;
    let framed = frame(covered, length, chunk.crc());
    assert(chunk.length_field() == length as u32);
    assert(framed == chunk.encode()) by {
        assert(be_bytes(length as u32) + covered =~= be_bytes(length as u32) + chunk.chunk_type
            + chunk.data);
    }
    assert(covered.subrange(0, 4) == chunk.chunk_type) by {
        assert(covered.subrange(0, 4) =~= chunk.chunk_type);
    }
    assert(covered.subrange(4, 4 + length) == chunk.data) by {
        assert(covered.subrange(4, 4 + length) =~= chunk.data);
    }
    lemma_framed_parse(covered, length, chunk.crc(), rest);
    lemma_framed_parse(covered, length, chunk.crc(), Seq::empty());
    assert(framed + Seq::<u8>::empty() == framed) by {
        assert(framed + Seq::<u8>::empty() =~= framed);
    }
}

/// Reading, then writing: a chunk read from a buffer is one that can be
/// written, and written it takes the very bytes it was read from.
pub proof fn lemma_chunk_parse_then_encode(bytes: Seq<u8>)
    requires
        parse_chunk(bytes) is Ok,
    ensures
        ({
            let chunk = parse_chunk(bytes)->Ok_0;
            &&& chunk.well_formed()
            &&& chunk.data.len() <= u32::MAX
            &&& chunk.encoded_len() <= bytes.len()
            &&& chunk.encode() == bytes.take(chunk.encoded_len() as int)
        }),
{
    let chunk = parse_chunk(bytes)->Ok_0;
    let length = be_value(bytes.subrange(0, 4));
    lemma_be_bytes_of_value(bytes.subrange(0, 4));
    lemma_be_bytes_of_value(bytes.subrange(8 + length, 12 + length));
    lemma_be_value_of_bytes(chunk.crc());
    assert(chunk.length_field() == length);
    assert(chunk.chunk_type + chunk.data =~= bytes.subrange(4, 8 + length));
    assert(chunk.encode() =~= bytes.take(chunk.encoded_len() as int));
}

/// `bytes` with bit `bit` of the byte at `index` flipped.
pub open spec fn flip_bit(bytes: Seq<u8>, index: int, bit: u8) -> Seq<u8> {
    bytes.update(index, bytes[index] ^ (1u8 << bit))
}

/// A bit flipped in the type code or the payload of a chunk on the wire is
/// never read back as the chunk that was written. Where the four bytes in the
/// place of the type code are still letters, reading fails with
/// `ChecksumMismatch` unless the changed bytes have the checksum of the
/// bytes that were written.
pub proof fn lemma_bit_flip_not_read_back(chunk: ChunkView, index: int, bit: u8)
    requires
        chunk.well_formed(),
        chunk.data.len() <= u32::MAX,
        4 <= index < 8 + chunk.data.len(),
        bit < 8,
    ensures
        ({
            let flipped = flip_bit(chunk.encode(), index, bit);
            let covered = flipped.subrange(4, 8 + chunk.data.len() as int);
            &&& covered != chunk.chunk_type + chunk.data
            &&& parse_chunk(flipped) != Ok::<ChunkView, ChunkParseError>(chunk)
            &&& parse_chunk(flipped) is Ok ==> crc32_iso_hdlc(covered) == chunk.crc()
            &&& is_type_code(flipped.subrange(4, 8)) && crc32_iso_hdlc(covered) != chunk.crc()
                ==> parse_chunk(flipped) == Err::<ChunkView, ChunkParseError>(
                ChunkParseError::ChecksumMismatch {
                    stored: chunk.crc(),
                    computed: crc32_iso_hdlc(covered),
                },
            )
        }),
{
    let length = chunk.data.len() as int;
    let written = chunk.chunk_type + chunk.data;
    let flipped = flip_bit(chunk.encode(), index, bit);
    let covered = flipped.subrange(4, 8 + length);
    let byte = chunk.encode()[index];
    lemma_chunk_round_trip(chunk, Seq::empty());
    lemma_be_value_of_bytes(chunk.length_field());
    assert(byte ^ (1u8 << bit) != byte) by (bit_vector)
        requires
            bit < 8,
    ;
    assert(chunk.encode()[index] == written[index - 4]);
    assert(covered[index - 4] != written[index - 4]);
    assert(chunk.length_field() == length as u32);
    assert(flipped == frame(covered, length, chunk.crc()) + Seq::<u8>::empty()) by {
        assert(flipped =~= frame(covered, length, chunk.crc()) + Seq::<u8>::empty());
    }
    lemma_framed_parse(covered, length, chunk.crc(), Seq::empty());
    assert(flipped.subrange(4, 8) == covered.subrange(0, 4)) by {
        assert(flipped.subrange(4, 8) =~= covered.subrange(0, 4));
    }
    if parse_chunk(flipped) == Ok::<ChunkView, ChunkParseError>(chunk) {
        assert(covered =~= covered.subrange(0, 4) + covered.subrange(4, 4 + length));
    }
}

/// The bytes of a frame: the length `length` of a payload, the `covered`
/// bytes that a checksum guards (a type code and the payload), and the
/// checksum `stored`.
spec fn frame(covered: Seq<u8>, length: int, stored: u32) -> Seq<u8> {
    be_bytes(length as u32) + covered + be_bytes(stored)
}

/// What reading a chunk gives on a frame whose `covered` bytes are four bytes
/// and `length` more, with `rest` after it: the type code is checked first,
/// then `stored` against the checksum of `covered`.
proof fn lemma_framed_parse(covered: Seq<u8>, length: int, stored: u32, rest: Seq<u8>)
    requires
        0 <= length <= u32::MAX,
        covered.len() == 4 + length,
    ensures
        frame(covered, length, stored).len() == length + 12,
        (frame(covered, length, stored) + rest).skip(length + 12) == rest,
        parse_chunk(frame(covered, length, stored) + rest) == (if !is_type_code(
            covered.subrange(0, 4),
        ) {
            Err::<ChunkView, ChunkParseError>(
                ChunkParseError::InvalidType(
                    ChunkTypeError::NotAlphabetic {
                        index: first_non_letter(covered.subrange(0, 4)) as usize,
                        byte: covered.subrange(0, 4)[first_non_letter(covered.subrange(0, 4))],
                    },
                ),
            )
        } else if stored != crc32_iso_hdlc(covered) {
            Err::<ChunkView, ChunkParseError>(
                ChunkParseError::ChecksumMismatch { stored, computed: crc32_iso_hdlc(covered) },
            )
        } else {
            Ok::<ChunkView, ChunkParseError>(
                ChunkView {
                    chunk_type: covered.subrange(0, 4),
                    data: covered.subrange(4, 4 + length),
                },
            )
        }),
{
    let bytes = frame(covered, length, stored) + rest;
    lemma_be_value_of_bytes(length as u32);
    lemma_be_value_of_bytes(stored);
    assert(bytes.subrange(0, 4) =~= be_bytes(length as u32));
    assert(bytes.subrange(4, 8) =~= covered.subrange(0, 4));
    assert(bytes.subrange(8, 8 + length) =~= covered.subrange(4, 4 + length));
    assert(bytes.subrange(8 + length, 12 + length) =~= be_bytes(stored));
    assert(bytes.subrange(4, 8 + length) =~= covered);
    assert(bytes.skip(length + 12) =~= rest);
}

/// A chunk: a type code and a payload.
#[derive(Debug)]
pub struct Chunk {
    chunk_type: ChunkType,
    data: Vec<u8>,
}

impl View for Chunk {
    type V = ChunkView;

    closed spec fn view(&self) -> ChunkView {
        ChunkView { chunk_type: self.chunk_type@, data: self.data@ }
    }
}

impl Clone for Chunk {
    fn clone(&self) -> (r: Chunk)
        ensures
            r@ == self@,
    {
        Chunk { chunk_type: self.chunk_type, data: self.data.clone() }
    }
}

impl<'a> TryFrom<&'a [u8]> for Chunk {
    type Error = ChunkParseError;

    /// Reads one chunk from the start of `value`: the length, then as many
    /// bytes as the length calls for, the type code checked before the
    /// checksum. Bytes after the chunk are not looked at.
    fn try_from(value: &'a [u8]) -> (r: Result<Chunk, ChunkParseError>)
        ensures
            (match parse_chunk(value@) {
                Ok(chunk) => r matches Ok(c) && c@ == chunk,
                Err(e) => r == Err::<Chunk, ChunkParseError>(e),
            }),
            r matches Ok(c) ==> c@.well_formed() && c@.data.len() == be_value(
                value@.subrange(0, 4),
            ) && c@.encoded_len() <= value@.len(),
    {
        let available = value.len();
        if available < 4 {
            return Err(ChunkParseError::Truncated { needed: 4, available: available as u64 });
        }
        let length = u32_from_be_bytes(value, 0);
        let needed: u64 = length as u64 + 12;
        if (available as u64) < needed {
            return Err(ChunkParseError::Truncated { needed, available: available as u64 });
        }
        let end: usize = length as usize + 8;
        let code: [u8; 4] = [value[4], value[5], value[6], value[7]];
        proof {
            assert(code@ =~= value@.subrange(4, 8));
        }
        let chunk_type = match ChunkType::try_from(code) {
            Ok(chunk_type) => chunk_type,
            Err(e) => {
                return Err(ChunkParseError::InvalidType(e));
            },
        };
        let data = slice_to_vec(slice_subrange(value, 8, end));
        let stored = u32_from_be_bytes(value, end);
        let computed = Chunk::checksum(slice_subrange(value, 4, end));
        if computed != stored {
            return Err(ChunkParseError::ChecksumMismatch { stored, computed });
        }
        Ok(Chunk { chunk_type, data })
    }
}

impl<'a> vstd::std_specs::convert::TryFromSpecImpl<&'a [u8]> for Chunk {
    open spec fn obeys_try_from_spec() -> bool {
        false
    }

    open spec fn try_from_spec(value: &'a [u8]) -> Result<Chunk, ChunkParseError> {
        match parse_chunk(value@) {
            Ok(chunk) => Ok(choose|c: Chunk| c@ == chunk),
            Err(e) => Err(e),
        }
    }
}

impl Chunk {
    /// A chunk of the type `chunk_type` with the payload `data`.
    pub fn new(chunk_type: ChunkType, data: Vec<u8>) -> (r: Chunk)
        ensures
            r@ == (ChunkView { chunk_type: chunk_type@, data: data@ }),
            r@.well_formed(),
    {
        proof {
            use_type_invariant(&chunk_type);
        }
        Chunk { chunk_type, data }
    }

    /// The length of the payload in bytes.
    pub fn length(&self) -> (r: usize)
        ensures
            r == self@.data.len(),
    {
        self.data.len()
    }

    /// The length of the chunk on the wire: twelve bytes more than the payload.
    pub fn chunk_length(&self) -> (r: usize)
        requires
            self@.encoded_len() <= usize::MAX,
        ensures
            r == self@.encoded_len(),
    {
        self.length() + 4 + 4 + 4
    }

    /// The type code of the chunk.
    pub fn chunk_type(&self) -> (r: &ChunkType)
        ensures
            r@ == self@.chunk_type,
            self@.well_formed(),
    {
        proof {
            use_type_invariant(&self.chunk_type);
        }
        &self.chunk_type
    }

    /// The payload of the chunk.
    pub fn data(&self) -> (r: &[u8])
        ensures
            r@ == self@.data,
    {
        self.data.as_slice()
    }

    /// The payload as text: succeeds exactly when the payload is valid UTF-8.
    pub fn data_as_string(&self) -> (r: Result<String, InvalidEncoding>)
        ensures
            r is Ok <==> valid_utf8(self@.data),
            r matches Ok(text) ==> text@ == decode_utf8(self@.data),
    {
        match string_from_utf8(slice_to_vec(self.data.as_slice())) {
            Some(text) => {
                proof {
                    encode_utf8_decode_utf8(text@);
                }
                Ok(text)
            },
            None => Err(InvalidEncoding),
        }
    }

    /// The checksum of the chunk: the CRC-32 of type code and payload.
    pub fn crc(&self) -> (r: u32)
        ensures
            r == self@.crc(),
    {
        let mut covered: Vec<u8> = Vec::new();
        let code = self.chunk_type.bytes();
        append_bytes(&mut covered, code.as_slice());
        append_bytes(&mut covered, self.data.as_slice());
        Chunk::checksum(covered.as_slice())
    }

    /// The chunk on the wire: big-endian payload length, type code, payload,
    /// big-endian checksum.
    pub fn as_bytes(&self) -> (r: Vec<u8>)
        ensures
            r@ == self@.encode(),
    {
        let length = ((self.data.len() as u64) % 0x1_0000_0000) as u32;
        let mut out: Vec<u8> = Vec::new();
        append_bytes(&mut out, u32_to_be_bytes(length).as_slice());
        append_bytes(&mut out, self.chunk_type.bytes().as_slice());
        append_bytes(&mut out, self.data.as_slice());
        append_bytes(&mut out, u32_to_be_bytes(self.crc()).as_slice());
        out
    }

    /// The chunk described in one line of text: the length of the payload,
    /// the type code, the length again, and the checksum in decimal.
    pub fn to_string(&self) -> (r: String)
        ensures
            r@ == chunk_text(self@),
    {
        let length = decimal_string(self.length() as u64);
        let mut text = String::from_str("Chunk {");
        text.append("    Length: ");
        text.append(length.as_str());
        text.append("    Type: ");
        text.append(self.chunk_type.to_string().as_str());
        text.append("    Data: ");
        text.append(length.as_str());
        text.append(" bytes");
        text.append("    Crc: ");
        text.append(decimal_string(self.crc() as u64).as_str());
        text.append("}");
        text
    }

    /// The CRC-32/ISO-HDLC checksum of `bytes`.
    pub fn checksum(bytes: &[u8]) -> (r: u32)
        ensures
            r == crc32_iso_hdlc(bytes@),
    {
        crc32(bytes)
    }
}

/// The four bytes of `x`, most significant first.
pub fn u32_to_be_bytes(x: u32) -> (r: [u8; 4])
    ensures
        r@ == be_bytes(x),
{
    let r = [
        (x / 0x100_0000) as u8,
        ((x / 0x1_0000) % 0x100) as u8,
        ((x / 0x100) % 0x100) as u8,
        (x % 0x100) as u8,
    ];
    proof {
        reveal(be_bytes);
        assert(r@ =~= be_bytes(x));
    }
    r
}

/// The number that the four bytes at `at` in `bytes` spell, most significant
/// first.
pub fn u32_from_be_bytes(bytes: &[u8], at: usize) -> (r: u32)
    requires
        at + 4 <= bytes@.len(),
    ensures
        r == be_value(bytes@.subrange(at as int, at + 4)),
{
    proof {
        reveal(be_value);
    }
    (bytes[at] as u32) * 0x100_0000 + (bytes[at + 1] as u32) * 0x1_0000 + (bytes[at + 2] as u32)
        * 0x100 + (bytes[at + 3] as u32)
}

/// Appends `bytes` to `out`.
pub(crate) fn append_bytes(out: &mut Vec<u8>, bytes: &[u8])
    ensures
        final(out)@ == old(out)@ + bytes@,
{
    out.extend_from_slice(bytes);
    proof {
        assert(out@ =~= old(out)@ + bytes@);
    }
}

} // verus!
