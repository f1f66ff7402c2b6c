//! The PNG container: the eight signature bytes, then chunk after chunk.

use crate::chunk::{append_bytes, parse_chunk, Chunk, ChunkParseError, ChunkView};
use vstd::prelude::*;
use vstd::slice::slice_subrange;
use vstd::string::StringSliceAdditionalSpecFns;

verus! {

/// The eight bytes that every PNG file starts with.
pub const STANDARD_HEADER: [u8; 8] = [137, 80, 78, 71, 13, 10, 26, 10];

/// The eight bytes that every PNG file starts with.
pub open spec fn signature() -> Seq<u8> {
    seq![137u8, 80u8, 78u8, 71u8, 13u8, 10u8, 26u8, 10u8]
}

/// Why a byte buffer is not a PNG container.
#[derive(Debug, Clone, Copy, PartialEq, Eq, Structural)]
pub enum PngParseError {
    /// The buffer does not start with the eight signature bytes.
    BadSignature,
    /// What starts at `offset` in the buffer is not a chunk, for the reason
    /// `error`.
    Chunk { offset: usize, error: ChunkParseError },
}

/// The chunks of `chunks` on the wire, one after the other.
pub open spec fn encode_chunks(chunks: Seq<ChunkView>) -> Seq<u8>
    decreases chunks.len(),
{
    if chunks.len() == 0 {
        Seq::empty()
    } else {
        encode_chunks(chunks.drop_last()) + chunks.last().encode()
    }
}

/// A container on the wire: the signature, then its chunks.
pub open spec fn encode_png(chunks: Seq<ChunkView>) -> Seq<u8> {
    signature() + encode_chunks(chunks)
}

/// `found` after `before`, where `found` is a sequence; the error of `found`
/// where it is one.
pub open spec fn chunks_after(
    before: Seq<ChunkView>,
    found: Result<Seq<ChunkView>, PngParseError>,
) -> Result<Seq<ChunkView>, PngParseError> {
    match found {
        Ok(rest) => Ok(before + rest),
        Err(e) => Err(e),
    }
}

/// What reading chunk after chunk from `bytes` gives, until `bytes` is used
/// up; `offset` is where `bytes` starts in the whole buffer. The first chunk
/// that cannot be read fails the whole.
pub open spec fn parse_chunks(bytes: Seq<u8>, offset: nat) -> Result<Seq<ChunkView>, PngParseError>
    decreases bytes.len(),
{
    if bytes.len() == 0 {
        Ok(Seq::empty())
    } else {
        match parse_chunk(bytes) {
            Err(error) => Err(PngParseError::Chunk { offset: offset as usize, error }),
            Ok(chunk) => chunks_after(
                seq![chunk],
                parse_chunks(
                    bytes.skip(chunk.encoded_len() as int),
                    offset + chunk.encoded_len(),
                ),
            ),
        }
    }
}

/// What reading a container from `bytes` gives: the chunks that follow the
/// signature, or the reason why `bytes` is no container.
pub open spec fn parse_png(bytes: Seq<u8>) -> Result<Seq<ChunkView>, PngParseError> {
    if bytes.len() < 8 || bytes.subrange(0, 8) != signature() {
        Err(PngParseError::BadSignature)
    } else {
        parse_chunks(bytes.skip(8), 8)
    }
}

/// The position of the first chunk of `chunks` whose type code is `code`, or
/// the length of `chunks` if there is none.
pub open spec fn index_of_type(chunks: Seq<ChunkView>, code: Seq<u8>) -> int
    decreases chunks.len(),
{
    if chunks.len() == 0 || chunks[0].chunk_type == code {
        0
    } else {
        1 + index_of_type(chunks.drop_first(), code)
    }
}

/// Whether a chunk of `chunks` has the type code `code`.
pub open spec fn has_type(chunks: Seq<ChunkView>, code: Seq<u8>) -> bool {
    exists|i: int| 0 <= i < chunks.len() && (#[trigger] chunks[i]).chunk_type == code
}

/// `index_of_type` finds the first chunk of the type, if there is one.
pub proof fn lemma_index_of_type(chunks: Seq<ChunkView>, code: Seq<u8>)
    ensures
        0 <= index_of_type(chunks, code) <= chunks.len(),
        index_of_type(chunks, code) < chunks.len() <==> has_type(chunks, code),
        index_of_type(chunks, code) < chunks.len() ==> chunks[index_of_type(
            chunks,
            code,
        )].chunk_type == code,
        forall|j: int|
            0 <= j < index_of_type(chunks, code) ==> (#[trigger] chunks[j]).chunk_type != code,
    decreases chunks.len(),
{
    if chunks.len() == 0 {
    } else if chunks[0].chunk_type == code {
    } else {
        let rest = chunks.drop_first();
        lemma_index_of_type(rest, code);
        let i = index_of_type(rest, code);
        assert forall|j: int| 0 <= j < 1 + i implies (#[trigger] chunks[j]).chunk_type != code by {
            if j > 0 {
                assert(rest[j - 1] == chunks[j]);
            }
        }
        if i < rest.len() {
            assert(rest[i] == chunks[i + 1]);
        }
        if has_type(chunks, code) {
            let k = choose|k: int| 0 <= k < chunks.len() && (#[trigger] chunks[k]).chunk_type == code;
            assert(rest[k - 1] == chunks[k]);
        }
    }
}

/// Whether each chunk of `chunks` has a valid type code.
pub open spec fn all_well_formed(chunks: Seq<ChunkView>) -> bool {
    forall|i: int| 0 <= i < chunks.len() ==> (#[trigger] chunks[i]).well_formed()
}

/// Whether each chunk of `chunks` has a valid type code and a payload whose
/// length fits in the 32 bits of the length field.
pub open spec fn all_encodable(chunks: Seq<ChunkView>) -> bool {
    forall|i: int|
        0 <= i < chunks.len() ==> (#[trigger] chunks[i]).well_formed() && chunks[i].data.len()
            <= u32::MAX
}

/// The bytes of a run of chunks are the bytes of the first chunk, then those
/// of the others.
proof fn lemma_encode_chunks_front(chunks: Seq<ChunkView>)
    requires
        chunks.len() > 0,
    ensures
        encode_chunks(chunks) == chunks[0].encode() + encode_chunks(chunks.drop_first()),
    decreases chunks.len(),
{
    if chunks.len() == 1 {
        assert(chunks.drop_last() =~= Seq::<ChunkView>::empty());
        assert(chunks.drop_first() =~= Seq::<ChunkView>::empty());
        assert(encode_chunks(chunks) =~= chunks[0].encode() + encode_chunks(chunks.drop_first()));
    } else {
        lemma_encode_chunks_front(chunks.drop_last());
        assert(chunks.drop_last().drop_first() =~= chunks.drop_first().drop_last());
        assert(chunks.drop_last()[0] == chunks[0]);
        assert(chunks.drop_first().last() == chunks.last());
        assert(encode_chunks(chunks) =~= chunks[0].encode() + encode_chunks(chunks.drop_first()));
    }
}

/// Chunks that can be encoded are read back from their bytes, in order.
proof fn lemma_chunks_round_trip(chunks: Seq<ChunkView>, offset: nat)
    requires
        all_encodable(chunks),
    ensures
        parse_chunks(encode_chunks(chunks), offset) == Ok::<Seq<ChunkView>, PngParseError>(chunks),
    decreases chunks.len(),
{
    if chunks.len() == 0 {
        assert(chunks =~= Seq::<ChunkView>::empty());
    } else {
        let first = chunks[0];
        let others = chunks.drop_first();
        let bytes = encode_chunks(chunks);
        lemma_encode_chunks_front(chunks);
        crate::chunk::lemma_chunk_round_trip(first, encode_chunks(others));
        assert(all_encodable(others)) by {
            assert forall|i: int| 0 <= i < others.len() implies (#[trigger] others[i]).well_formed()
                && others[i].data.len() <= u32::MAX by {
                assert(others[i] == chunks[i + 1]);
            }
        }
        lemma_chunks_round_trip(others, offset + first.encoded_len());
        assert(seq![first] + others =~= chunks);
        assert(bytes.len() >= first.encoded_len());
        assert(bytes.skip(first.encoded_len() as int) == encode_chunks(others));
        assert(parse_chunk(bytes) == Ok::<ChunkView, ChunkParseError>(first));
    }
}

/// Container round trip: a container whose chunks can be encoded is read back
/// from its bytes with the same chunks in the same order.
pub proof fn lemma_png_round_trip(chunks: Seq<ChunkView>)
    requires
        all_encodable(chunks),
    ensures
        parse_png(encode_png(chunks)) == Ok::<Seq<ChunkView>, PngParseError>(chunks),
{
    let bytes = encode_png(chunks);
    assert(bytes.subrange(0, 8) =~= signature());
    assert(bytes.skip(8) =~= encode_chunks(chunks));
    lemma_chunks_round_trip(chunks, 8);
}

/// Chunks read from a buffer are ones that can be written, and written they
/// take the very bytes they were read from.
proof fn lemma_chunks_parse_then_encode(bytes: Seq<u8>, offset: nat)
    requires
        parse_chunks(bytes, offset) is Ok,
    ensures
        all_encodable(parse_chunks(bytes, offset)->Ok_0),
        encode_chunks(parse_chunks(bytes, offset)->Ok_0) == bytes,
    decreases bytes.len(),
{
    let all = parse_chunks(bytes, offset)->Ok_0;
    if bytes.len() == 0 {
        assert(encode_chunks(all) =~= bytes);
    } else {
        let first = parse_chunk(bytes)->Ok_0;
        let rest = bytes.skip(first.encoded_len() as int);
        crate::chunk::lemma_chunk_parse_then_encode(bytes);
        lemma_chunks_parse_then_encode(rest, offset + first.encoded_len());
        let others = parse_chunks(rest, offset + first.encoded_len())->Ok_0;
        assert(all == seq![first] + others);
        assert forall|i: int| 0 <= i < all.len() implies (#[trigger] all[i]).well_formed()
            && all[i].data.len() <= u32::MAX by {
            if i > 0 {
                assert(all[i] == others[i - 1]);
            }
        }
        lemma_encode_chunks_front(all);
        assert(all.drop_first() =~= others);
        assert(bytes =~= bytes.take(first.encoded_len() as int) + rest);
    }
}

/// Reading, then writing: the chunks of a container read from a buffer are
/// ones that can be written, and the container written again is the buffer
/// it was read from.
pub proof fn lemma_png_parse_then_encode(bytes: Seq<u8>)
    requires
        parse_png(bytes) is Ok,
    ensures
        all_encodable(parse_png(bytes)->Ok_0),
        encode_png(parse_png(bytes)->Ok_0) == bytes,
{
    lemma_chunks_parse_then_encode(bytes.skip(8), 8);
    assert(bytes =~= bytes.subrange(0, 8) + bytes.skip(8));
}

/// A PNG container: an ordered run of chunks after the signature.
#[derive(Debug)]
pub struct Png {
    chunks: Vec<Chunk>,
}

impl View for Png {
    type V = Seq<ChunkView>;

    closed spec fn view(&self) -> Seq<ChunkView> {
        self.chunks@.map_values(|c: Chunk| c@)
    }
}

impl Png {
    /// Every chunk of a container has a valid type code.
    #[verifier::type_invariant]
    pub open spec fn well_formed(&self) -> bool {
        all_well_formed(self@)
    }
}

impl<'a> TryFrom<&'a [u8]> for Png {
    type Error = PngParseError;

    /// Reads a container: the signature, then chunk after chunk until the
    /// buffer is used up. One chunk that cannot be read fails the whole.
    fn try_from(value: &'a [u8]) -> (r: Result<Png, PngParseError>)
        ensures
            (match parse_png(value@) {
                Ok(chunks) => r matches Ok(png) && png@ == chunks,
                Err(e) => r == Err::<Png, PngParseError>(e),
            }),
    {
        if !starts_with_signature(value) {
            return Err(PngParseError::BadSignature);
        }
        let mut chunks: Vec<Chunk> = Vec::new();
        let mut cursor: usize = 8;
        proof {
            assert(chunks@.map_values(|c: Chunk| c@) =~= Seq::<ChunkView>::empty());
            assert(Seq::<ChunkView>::empty() + parse_chunks(value@.skip(8), 8)->Ok_0
                =~= parse_chunks(value@.skip(8), 8)->Ok_0);
        }
        while cursor < value.len()
            invariant
                8 <= cursor <= value@.len(),
                all_well_formed(chunks@.map_values(|c: Chunk| c@)),
                parse_png(value@) == parse_chunks(value@.skip(8), 8),
                parse_chunks(value@.skip(8), 8) == chunks_after(
                    chunks@.map_values(|c: Chunk| c@),
                    parse_chunks(value@.skip(cursor as int), cursor as nat),
                ),
            decreases value@.len() - cursor,
        {
            let rest = slice_subrange(value, cursor, value.len());
            proof {
                assert(rest@ =~= value@.skip(cursor as int));
            }
            let chunk = match Chunk::try_from(rest) {
                Ok(chunk) => chunk,
                Err(error) => {
                    return Err(PngParseError::Chunk { offset: cursor, error });
                },
            };
            let ghost before = chunks@.map_values(|c: Chunk| c@);
            let ghost step = chunk@.encoded_len();
            let ghost tail = parse_chunks(value@.skip(cursor + step), (cursor + step) as nat);
            proof {
                assert(rest@.skip(step as int) =~= value@.skip(cursor + step));
                if tail is Ok {
                    assert(before.push(chunk@) + tail->Ok_0 =~= before + (seq![chunk@]
                        + tail->Ok_0));
                }
            }
            cursor = cursor + chunk.chunk_length();
            chunks.push(chunk);
            proof {
                assert(chunks@.map_values(|c: Chunk| c@) =~= before.push(chunk@));
            }
        }
        proof {
            assert(chunks@.map_values(|c: Chunk| c@) + Seq::<ChunkView>::empty()
                =~= chunks@.map_values(|c: Chunk| c@));
        }
        Ok(Png { chunks })
    }
}

impl<'a> vstd::std_specs::convert::TryFromSpecImpl<&'a [u8]> for Png {
    open spec fn obeys_try_from_spec() -> bool {
        false
    }

    open spec fn try_from_spec(value: &'a [u8]) -> Result<Png, PngParseError> {
        match parse_png(value@) {
            Ok(chunks) => Ok(choose|png: Png| png@ == chunks),
            Err(e) => Err(e),
        }
    }
}

impl Png {
    /// The chunks of the container, in file order.
    pub fn chunks(&self) -> (r: &[Chunk])
        ensures
            r@.map_values(|c: Chunk| c@) == self@,
            all_well_formed(self@),
    {
        proof {
            use_type_invariant(self);
        }
        self.chunks.as_slice()
    }

    /// The first chunk whose type code is spelled by `chunk_type`, if there
    /// is one.
    pub fn chunk_by_type(&self, chunk_type: &str) -> (r: Option<&Chunk>)
        ensures
            r is Some <==> has_type(self@, chunk_type.spec_bytes()),
            r matches Some(chunk) ==> chunk@ == self@[index_of_type(
                self@,
                chunk_type.spec_bytes(),
            )],
    {
        let i = self.position(chunk_type.as_bytes());
        if i < self.chunks.len() {
            Some(&self.chunks[i])
        } else {
            None
        }
    }

    /// Adds `chunk` at the end of the container.
    pub fn append_chunk(&mut self, chunk: Chunk)
        ensures
            final(self)@ == old(self)@.push(chunk@),
    {
        proof {
            use_type_invariant(&*self);
        }
        let _ = chunk.chunk_type();
        let mut chunks: Vec<Chunk> = Vec::new();
        proof {
            assert(all_well_formed(chunks@.map_values(|c: Chunk| c@)));
        }
        core::mem::swap(&mut self.chunks, &mut chunks);
        chunks.push(chunk);
        proof {
            assert(chunks@.map_values(|c: Chunk| c@) =~= old(self)@.push(chunk@));
        }
        self.chunks = chunks;
    }

    /// Takes the first chunk whose type code is spelled by `chunk_type` out
    /// of the container and returns it. Where there is none, the container
    /// stays as it is.
    pub fn remove_chunk(&mut self, chunk_type: &str) -> (r: Option<Chunk>)
        ensures
            r is Some <==> has_type(old(self)@, chunk_type.spec_bytes()),
            r matches Some(chunk) ==> {
                let i = index_of_type(old(self)@, chunk_type.spec_bytes());
                chunk@ == old(self)@[i] && final(self)@ == old(self)@.remove(i)
            },
            r is None ==> final(self)@ == old(self)@,
    {
        proof {
            use_type_invariant(&*self);
        }
        let i = self.position(chunk_type.as_bytes());
        if i < self.chunks.len() {
            let mut chunks: Vec<Chunk> = Vec::new();
            proof {
                assert(all_well_formed(chunks@.map_values(|c: Chunk| c@)));
            }
            core::mem::swap(&mut self.chunks, &mut chunks);
            let chunk = chunks.remove(i);
            proof {
                assert(chunks@.map_values(|c: Chunk| c@) =~= old(self)@.remove(i as int));
            }
            self.chunks = chunks;
            Some(chunk)
        } else {
            None
        }
    }

    /// The container on the wire: the signature, then each chunk in order.
    pub fn as_bytes(&self) -> (r: Vec<u8>)
        ensures
            r@ == encode_png(self@),
    {
        let mut out: Vec<u8> = Vec::new();
        append_bytes(&mut out, STANDARD_HEADER.as_slice());
        let mut i: usize = 0;
        proof {
            assert(self@.take(0) =~= Seq::<ChunkView>::empty());
        }
        while i < self.chunks.len()
            invariant
                i <= self.chunks@.len(),
                out@ == encode_png(self@.take(i as int)),
            decreases self.chunks@.len() - i,
        {
            let encoded = self.chunks[i].as_bytes();
            proof {
                assert(self@.take(i + 1).drop_last() =~= self@.take(i as int));
                assert(self@.take(i + 1).last() == self.chunks@[i as int]@);
                assert(out@ + encoded@ =~= encode_png(self@.take(i + 1)));
            }
            append_bytes(&mut out, encoded.as_slice());
            i += 1;
        }
        proof {
            assert(self@.take(i as int) =~= self@);
        }
        out
    }

    /// The position of the first chunk whose type code is `code`, or the
    /// number of chunks if there is none.
    fn position(&self, code: &[u8]) -> (i: usize)
        ensures
            i == index_of_type(self@, code@),
            i <= self.chunks@.len(),
            i < self.chunks@.len() <==> has_type(self@, code@),
    {
        let mut i: usize = 0;
        proof {
            assert(self@.skip(0) =~= self@);
            lemma_index_of_type(self@, code@);
        }
        while i < self.chunks.len()
            invariant
                i <= self.chunks@.len(),
                index_of_type(self@, code@) == i + index_of_type(self@.skip(i as int), code@),
            decreases self.chunks@.len() - i,
        {
            if has_code(&self.chunks[i], code) {
                return i;
            }
            proof {
                assert(self@.skip(i as int).drop_first() =~= self@.skip(i + 1));
            }
            i += 1;
        }
        i
    }
}

/// Whether `bytes` starts with the eight signature bytes.
fn starts_with_signature(bytes: &[u8]) -> (r: bool)
    ensures
        r == (bytes@.len() >= 8 && bytes@.subrange(0, 8) == signature()),
{
    if bytes.len() < 8 {
        return false;
    }
    let mut i: usize = 0;
    while i < 8
        invariant
            i <= 8,
            bytes@.len() >= 8,
            forall|j: int| 0 <= j < i ==> bytes@[j] == #[trigger] signature()[j],
        decreases 8 - i,
    {
        if bytes[i] != STANDARD_HEADER[i] {
            proof {
                assert(bytes@.subrange(0, 8)[i as int] == bytes@[i as int]);
            }
            return false;
        }
        i += 1;
    }
    proof {
        assert(bytes@.subrange(0, 8) =~= signature());
    }
    true
}

/// Whether the type code of `chunk` is `code`, byte for byte.
fn has_code(chunk: &Chunk, code: &[u8]) -> (r: bool)
    ensures
        r == (chunk@.chunk_type == code@),
{
    let own = chunk.chunk_type().bytes();
    if code.len() != 4 {
        return false;
    }
    let r = own[0] == code[0] && own[1] == code[1] && own[2] == code[2] && own[3] == code[3];
    proof {
        if r {
            assert(chunk@.chunk_type =~= code@);
        }
    }
    r
}

} // verus!
