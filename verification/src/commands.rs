//! The four workflows on a PNG file held in memory: hide a message in it,
//! read one back, take one out, and list or detect what is hidden.

use crate::chunk::{Chunk, ChunkView, InvalidEncoding};
use crate::chunk_type::{is_type_code, ChunkType, ChunkTypeError};
use core::str::FromStr;
use crate::png::{
    all_encodable, encode_png, has_type, index_of_type, lemma_index_of_type,
    lemma_png_parse_then_encode, lemma_png_round_trip, parse_png, Png, PngParseError,
};
use vstd::prelude::*;
use vstd::slice::slice_to_vec;
use vstd::string::StringSliceAdditionalSpecFns;
use vstd::utf8::{decode_utf8, decode_utf8_encode_utf8, encode_utf8, valid_utf8};

verus! {

/// Why a workflow could not be carried out.
#[derive(Debug, Clone, Copy, PartialEq, Eq, Structural)]
pub enum CommandError {
    /// The file is not a PNG container.
    Png(PngParseError),
    /// The text given for the chunk type is not a type code.
    ChunkType(ChunkTypeError),
    /// The message found is not valid UTF-8.
    InvalidEncoding,
}

/// `chunks` with `chunk` at the end, after the first chunk of the same type,
/// if there is one, has been taken out.
pub open spec fn replace_chunk(chunks: Seq<ChunkView>, chunk: ChunkView) -> Seq<ChunkView> {
    let i = index_of_type(chunks, chunk.chunk_type);
    if i < chunks.len() {
        chunks.remove(i).push(chunk)
    } else {
        chunks.push(chunk)
    }
}

/// How many chunks of `chunks` have the type code `code`.
pub open spec fn count_of_type(chunks: Seq<ChunkView>, code: Seq<u8>) -> nat {
    chunks.filter(|c: ChunkView| c.chunk_type == code).len()
}

/// Whether the payload of `chunk` is a message: valid UTF-8 and not empty.
pub open spec fn holds_text(chunk: ChunkView) -> bool {
    valid_utf8(chunk.data) && chunk.data.len() > 0
}

/// The type codes of the chunks of `chunks` that hold a message, in order.
pub open spec fn text_chunk_types(chunks: Seq<ChunkView>) -> Seq<Seq<u8>> {
    chunks.filter(|c: ChunkView| holds_text(c)).map_values(|c: ChunkView| c.chunk_type)
}

/// Whether a chunk of `chunks` holds a message.
pub open spec fn any_text(chunks: Seq<ChunkView>) -> bool {
    exists|i: int| 0 <= i < chunks.len() && holds_text(#[trigger] chunks[i])
}

/// What hiding `message` under the type spelled by `code` in the file `file`
/// gives: the bytes of the new file.
pub open spec fn encode_outcome(file: Seq<u8>, code: Seq<u8>, message: Seq<u8>) -> Result<
    Seq<u8>,
    CommandError,
> {
    match parse_png(file) {
        Err(e) => Err(CommandError::Png(e)),
        Ok(chunks) => match ChunkType::parse_text(code) {
            Err(e) => Err(CommandError::ChunkType(e)),
            Ok(_) => Ok(
                encode_png(replace_chunk(chunks, ChunkView { chunk_type: code, data: message })),
            ),
        },
    }
}

/// What reading the message under the type spelled by `code` from the file
/// `file` gives: the message, or `None` where no chunk has that type.
pub open spec fn decode_outcome(file: Seq<u8>, code: Seq<u8>) -> Result<
    Option<Seq<char>>,
    CommandError,
> {
    match parse_png(file) {
        Err(e) => Err(CommandError::Png(e)),
        Ok(chunks) => if !has_type(chunks, code) {
            Ok(None)
        } else if valid_utf8(chunks[index_of_type(chunks, code)].data) {
            Ok(Some(decode_utf8(chunks[index_of_type(chunks, code)].data)))
        } else {
            Err(CommandError::InvalidEncoding)
        },
    }
}

/// What taking the first chunk of the type spelled by `code` out of the file
/// `file` gives: the bytes of the new file, or `None` where no chunk has that
/// type.
pub open spec fn remove_outcome(file: Seq<u8>, code: Seq<u8>) -> Result<
    Option<Seq<u8>>,
    CommandError,
> {
    match parse_png(file) {
        Err(e) => Err(CommandError::Png(e)),
        Ok(chunks) => if has_type(chunks, code) {
            Ok(Some(encode_png(chunks.remove(index_of_type(chunks, code)))))
        } else {
            Ok(None)
        },
    }
}

/// Counting over a run of chunks: a chunk put at the end counts if it has the
/// type, and one taken out no longer does.
proof fn lemma_count_of_type(chunks: Seq<ChunkView>, code: Seq<u8>, chunk: ChunkView, i: int)
    requires
        0 <= i < chunks.len(),
    ensures
        count_of_type(chunks.push(chunk), code) == count_of_type(chunks, code) + (if chunk.chunk_type
            == code {
            1nat
        } else {
            0nat
        }),
        count_of_type(chunks, code) == count_of_type(chunks.remove(i), code) + (if chunks[i].chunk_type
            == code {
            1nat
        } else {
            0nat
        }),
        count_of_type(chunks, code) == 0 <==> !has_type(chunks, code),
{
    reveal(Seq::filter);
    let pred = |c: ChunkView| c.chunk_type == code;
    assert(chunks.push(chunk).drop_last() =~= chunks);
    let head = chunks.take(i);
    let one = seq![chunks[i]];
    let tail = chunks.skip(i + 1);
    assert(chunks =~= head + one + tail);
    assert(chunks.remove(i) =~= head + tail);
    Seq::filter_distributes_over_add(head, one, pred);
    Seq::filter_distributes_over_add(head + one, tail, pred);
    Seq::filter_distributes_over_add(head, tail, pred);
    assert(one.drop_last() =~= Seq::<ChunkView>::empty());
    assert(one.drop_last().filter(pred) =~= Seq::<ChunkView>::empty());
    lemma_count_zero(chunks, code);
}

/// No chunk counts exactly when no chunk has the type.
proof fn lemma_count_zero(chunks: Seq<ChunkView>, code: Seq<u8>)
    ensures
        count_of_type(chunks, code) == 0 <==> !has_type(chunks, code),
{
    let pred = |c: ChunkView| c.chunk_type == code;
    #[allow(deprecated)]
    chunks.filter_lemma(pred);
    if has_type(chunks, code) {
        let k = choose|k: int| 0 <= k < chunks.len() && (#[trigger] chunks[k]).chunk_type == code;
        assert(pred(chunks[k]));
        assert(chunks.filter(pred).contains(chunks[k]));
    }
    if count_of_type(chunks, code) != 0 {
        let found = chunks.filter(pred)[0];
        assert(pred(found));
        chunks.lemma_filter_contains_rev(pred, found);
        let k = choose|k: int| 0 <= k < chunks.len() && chunks[k] == found;
        assert(chunks[k].chunk_type == code);
    }
}

/// Replace, not duplicate: after `chunk` has been put into a container that
/// held at most one chunk of its type, the container holds exactly one chunk
/// of that type, and that one is `chunk`, at the end.
pub proof fn lemma_replace_not_duplicate(chunks: Seq<ChunkView>, chunk: ChunkView)
    requires
        count_of_type(chunks, chunk.chunk_type) <= 1,
    ensures
        count_of_type(replace_chunk(chunks, chunk), chunk.chunk_type) == 1,
        replace_chunk(chunks, chunk).last() == chunk,
        forall|j: int|
            0 <= j < replace_chunk(chunks, chunk).len() && (#[trigger] replace_chunk(
                chunks,
                chunk,
            )[j]).chunk_type == chunk.chunk_type ==> replace_chunk(chunks, chunk)[j] == chunk,
{
    let code = chunk.chunk_type;
    let i = index_of_type(chunks, code);
    lemma_index_of_type(chunks, code);
    lemma_count_zero(chunks, code);
    let kept = if i < chunks.len() {
        chunks.remove(i)
    } else {
        chunks
    };
    if i < chunks.len() {
        lemma_count_of_type(chunks, code, chunk, i);
    }
    assert(count_of_type(kept, code) == 0);
    lemma_count_zero(kept, code);
    let after = replace_chunk(chunks, chunk);
    assert(after == kept.push(chunk));
    if kept.len() > 0 {
        lemma_count_of_type(kept, code, chunk, 0);
    } else {
        assert(count_of_type(kept.push(chunk), code) == 1) by {
            reveal(Seq::filter);
            assert(kept.push(chunk).drop_last() =~= kept);
        }
    }
    assert forall|j: int| 0 <= j < after.len() && (#[trigger] after[j]).chunk_type
        == code implies after[j] == chunk by {
        if j < kept.len() {
            assert(kept[j] == after[j]);
        }
    }
}

/// Replace, not duplicate, on files: hiding a message in a file that held at
/// most one chunk of the type gives a file that holds exactly one chunk of
/// that type, with the message as its payload, at the end.
pub proof fn lemma_encode_not_duplicate(file: Seq<u8>, code: Seq<u8>, message: Seq<u8>)
    requires
        parse_png(file) is Ok,
        count_of_type(parse_png(file)->Ok_0, code) <= 1,
        is_type_code(code),
        message.len() <= u32::MAX,
    ensures
        encode_outcome(file, code, message) is Ok,
        parse_png(encode_outcome(file, code, message)->Ok_0) is Ok,
        ({
            let after = parse_png(encode_outcome(file, code, message)->Ok_0)->Ok_0;
            let chunk = ChunkView { chunk_type: code, data: message };
            &&& after == replace_chunk(parse_png(file)->Ok_0, chunk)
            &&& count_of_type(after, code) == 1
            &&& after.last() == chunk
        }),
{
    let chunks = parse_png(file)->Ok_0;
    let chunk = ChunkView { chunk_type: code, data: message };
    let after = replace_chunk(chunks, chunk);
    lemma_png_parse_then_encode(file);
    lemma_index_of_type(chunks, code);
    let i = index_of_type(chunks, code);
    assert(all_encodable(after)) by {
        assert forall|j: int| 0 <= j < after.len() implies (#[trigger] after[j]).well_formed()
            && after[j].data.len() <= u32::MAX by {
            if i < chunks.len() {
                if j < i {
                    assert(after[j] == chunks[j]);
                } else if j < after.len() - 1 {
                    assert(after[j] == chunks[j + 1]);
                }
            } else {
                if j < after.len() - 1 {
                    assert(after[j] == chunks[j]);
                }
            }
        }
    }
    lemma_png_round_trip(after);
    lemma_replace_not_duplicate(chunks, chunk);
}

/// A workflow and what it works on, apart from the file.
#[derive(Debug)]
pub enum Command {
    /// Hide `message` under the type `chunk_type`.
    Encode { chunk_type: String, message: String },
    /// Read the message under the type `chunk_type`.
    Decode { chunk_type: String },
    /// Take the message under the type `chunk_type` out.
    Remove { chunk_type: String },
    /// List the types under which messages are hidden.
    Print,
    /// Tell whether a message is hidden.
    Check,
}

/// What a workflow found or made.
#[derive(Debug)]
pub enum Outcome {
    /// The bytes of the file with the message in it.
    Encoded(Vec<u8>),
    /// The message, or `None` where there is none under the type.
    Decoded(Option<String>),
    /// The bytes of the file without the message, or `None` where there was
    /// none under the type and the file stays as it is.
    Removed(Option<Vec<u8>>),
    /// The types of the chunks that hold a message, in file order.
    Printed(Vec<ChunkType>),
    /// Whether a chunk holds a message.
    Checked(bool),
}

/// What an `Outcome` holds, apart from how it is stored.
pub enum OutcomeView {
    /// The bytes of the file with the message in it.
    Encoded(Seq<u8>),
    /// The characters of the message, if there is one.
    Decoded(Option<Seq<char>>),
    /// The bytes of the file without the message, if there was one.
    Removed(Option<Seq<u8>>),
    /// The bytes of each type code listed.
    Printed(Seq<Seq<u8>>),
    /// Whether a chunk holds a message.
    Checked(bool),
}

impl View for Outcome {
    type V = OutcomeView;

    open spec fn view(&self) -> OutcomeView {
        match self {
            Outcome::Encoded(bytes) => OutcomeView::Encoded(bytes@),
            Outcome::Decoded(Some(text)) => OutcomeView::Decoded(Some(text@)),
            Outcome::Decoded(None) => OutcomeView::Decoded(None),
            Outcome::Removed(Some(bytes)) => OutcomeView::Removed(Some(bytes@)),
            Outcome::Removed(None) => OutcomeView::Removed(None),
            Outcome::Printed(types) => OutcomeView::Printed(types@.map_values(|t: ChunkType| t@)),
            Outcome::Checked(found) => OutcomeView::Checked(*found),
        }
    }
}

/// What listing the types under which the file `file` hides messages gives.
pub open spec fn print_outcome(file: Seq<u8>) -> Result<Seq<Seq<u8>>, CommandError> {
    match parse_png(file) {
        Err(e) => Err(CommandError::Png(e)),
        Ok(chunks) => Ok(text_chunk_types(chunks)),
    }
}

/// What asking whether the file `file` hides a message gives.
pub open spec fn check_outcome(file: Seq<u8>) -> Result<bool, CommandError> {
    match parse_png(file) {
        Err(e) => Err(CommandError::Png(e)),
        Ok(chunks) => Ok(any_text(chunks)),
    }
}

/// What the workflow `command` gives on the file `file`.
pub open spec fn process_outcome(command: Command, file: Seq<u8>) -> Result<
    OutcomeView,
    CommandError,
> {
    match command {
        Command::Encode { chunk_type, message } => match encode_outcome(
            file,
            encode_utf8(chunk_type@),
            encode_utf8(message@),
        ) {
            Ok(bytes) => Ok(OutcomeView::Encoded(bytes)),
            Err(e) => Err(e),
        },
        Command::Decode { chunk_type } => match decode_outcome(file, encode_utf8(chunk_type@)) {
            Ok(found) => Ok(OutcomeView::Decoded(found)),
            Err(e) => Err(e),
        },
        Command::Remove { chunk_type } => match remove_outcome(file, encode_utf8(chunk_type@)) {
            Ok(written) => Ok(OutcomeView::Removed(written)),
            Err(e) => Err(e),
        },
        Command::Print => match print_outcome(file) {
            Ok(types) => Ok(OutcomeView::Printed(types)),
            Err(e) => Err(e),
        },
        Command::Check => match check_outcome(file) {
            Ok(found) => Ok(OutcomeView::Checked(found)),
            Err(e) => Err(e),
        },
    }
}

/// The workflows, on files that are already in memory.
pub struct Commands;

impl Commands {
    /// Carries out the workflow `command` on the file `file`.
    pub fn process(&self, command: &Command, file: &[u8]) -> (r: Result<Outcome, CommandError>)
        ensures
            (match process_outcome(*command, file@) {
                Ok(outcome) => r matches Ok(o) && o@ == outcome,
                Err(e) => r matches Err(x) && x == e,
            }),
    {
        match command {
            Command::Encode { chunk_type, message } => {
                match self.encode(file, chunk_type.as_str(), message.as_str()) {
                    Ok(bytes) => Ok(Outcome::Encoded(bytes)),
                    Err(e) => Err(e),
                }
            },
            Command::Decode { chunk_type } => {
                match self.decode(file, chunk_type.as_str()) {
                    Ok(found) => Ok(Outcome::Decoded(found)),
                    Err(e) => Err(e),
                }
            },
            Command::Remove { chunk_type } => {
                match self.remove(file, chunk_type.as_str()) {
                    Ok(written) => Ok(Outcome::Removed(written)),
                    Err(e) => Err(e),
                }
            },
            Command::Print => {
                match self.print(file) {
                    Ok(types) => Ok(Outcome::Printed(types)),
                    Err(e) => Err(e),
                }
            },
            Command::Check => {
                match self.check(file) {
                    Ok(found) => Ok(Outcome::Checked(found)),
                    Err(e) => Err(e),
                }
            },
        }
    }

    /// Lists the types of the chunks of the file `file` that hold a message,
    /// in file order.
    pub fn print(&self, file: &[u8]) -> (r: Result<Vec<ChunkType>, CommandError>)
        ensures
            (match print_outcome(file@) {
                Ok(types) => r matches Ok(listed) && listed@.map_values(|t: ChunkType| t@)
                    == types,
                Err(e) => r == Err::<Vec<ChunkType>, CommandError>(e),
            }),
    {
        let png = match Png::try_from(file) {
            Ok(png) => png,
            Err(e) => {
                return Err(CommandError::Png(e));
            },
        };
        let chunks = png.chunks();
        let mut listed: Vec<ChunkType> = Vec::new();
        let mut i: usize = 0;
        proof {
            assert(png@.take(0) =~= Seq::<ChunkView>::empty());
            assert(text_chunk_types(png@.take(0)) =~= Seq::<Seq<u8>>::empty()) by {
                reveal(Seq::filter);
            }
            assert(listed@.map_values(|t: ChunkType| t@) =~= Seq::<Seq<u8>>::empty());
        }
        while i < chunks.len()
            invariant
                i <= chunks@.len(),
                chunks@.map_values(|c: Chunk| c@) == png@,
                listed@.map_values(|t: ChunkType| t@) == text_chunk_types(png@.take(i as int)),
            decreases chunks@.len() - i,
        {
            let chunk = &chunks[i];
            let ghost before = listed@.map_values(|t: ChunkType| t@);
            proof {
                assert(png@[i as int] == chunk@);
                lemma_text_chunk_types_step(png@, i as int);
            }
            if has_message(chunk) {
                listed.push(*chunk.chunk_type());
                proof {
                    assert(listed@.map_values(|t: ChunkType| t@) =~= before.push(
                        chunk@.chunk_type,
                    ));
                }
            }
            i += 1;
        }
        proof {
            assert(png@.take(i as int) =~= png@);
        }
        Ok(listed)
    }

    /// Tells whether a chunk of the file `file` holds a message.
    pub fn check(&self, file: &[u8]) -> (r: Result<bool, CommandError>)
        ensures
            r == check_outcome(file@),
    {
        let png = match Png::try_from(file) {
            Ok(png) => png,
            Err(e) => {
                return Err(CommandError::Png(e));
            },
        };
        let chunks = png.chunks();
        let mut i: usize = 0;
        while i < chunks.len()
            invariant
                i <= chunks@.len(),
                chunks@.map_values(|c: Chunk| c@) == png@,
                parse_png(file@) == Ok::<Seq<ChunkView>, PngParseError>(png@),
                forall|j: int| 0 <= j < i ==> !holds_text(#[trigger] png@[j]),
            decreases chunks@.len() - i,
        {
            proof {
                assert(png@[i as int] == chunks@[i as int]@);
            }
            if has_message(&chunks[i]) {
                return Ok(true);
            }
            i += 1;
        }
        Ok(false)
    }

    /// Hides `message` in the file `file` under the type `chunk_type`: the
    /// first chunk of that type, if there is one, is taken out, and a new
    /// chunk with the message is put at the end. Returns the bytes of the new
    /// file.
    pub fn encode(&self, file: &[u8], chunk_type: &str, message: &str) -> (r: Result<
        Vec<u8>,
        CommandError,
    >)
        ensures
            (match encode_outcome(file@, chunk_type.spec_bytes(), message.spec_bytes()) {
                Ok(bytes) => r matches Ok(written) && written@ == bytes,
                Err(e) => r == Err::<Vec<u8>, CommandError>(e),
            }),
    {
        let mut png = match Png::try_from(file) {
            Ok(png) => png,
            Err(e) => {
                return Err(CommandError::Png(e));
            },
        };
        proof {
            lemma_index_of_type(png@, chunk_type.spec_bytes());
        }
        if png.chunk_by_type(chunk_type).is_some() {
            let _ = png.remove_chunk(chunk_type);
        }
        let code = match ChunkType::from_str(chunk_type) {
            Ok(code) => code,
            Err(e) => {
                return Err(CommandError::ChunkType(e));
            },
        };
        let chunk = Chunk::new(code, slice_to_vec(message.as_bytes()));
        png.append_chunk(chunk);
        Ok(png.as_bytes())
    }

    /// Reads the message hidden in the file `file` under the type
    /// `chunk_type`: the payload of the first chunk of that type, as text.
    /// `None` where no chunk has that type.
    pub fn decode(&self, file: &[u8], chunk_type: &str) -> (r: Result<Option<String>, CommandError>)
        ensures
            (match decode_outcome(file@, chunk_type.spec_bytes()) {
                Ok(Some(text)) => r matches Ok(Some(found)) && found@ == text,
                Ok(None) => r matches Ok(None),
                Err(e) => r == Err::<Option<String>, CommandError>(e),
            }),
    {
        let png = match Png::try_from(file) {
            Ok(png) => png,
            Err(e) => {
                return Err(CommandError::Png(e));
            },
        };
        match png.chunk_by_type(chunk_type) {
            Some(chunk) => match chunk.data_as_string() {
                Ok(text) => Ok(Some(text)),
                Err(InvalidEncoding) => Err(CommandError::InvalidEncoding),
            },
            None => Ok(None),
        }
    }

    /// Takes the first chunk of the type `chunk_type` out of the file `file`
    /// and returns the bytes of the new file. `None` where no chunk has that
    /// type, and nothing is to be written.
    pub fn remove(&self, file: &[u8], chunk_type: &str) -> (r: Result<Option<Vec<u8>>, CommandError>)
        ensures
            (match remove_outcome(file@, chunk_type.spec_bytes()) {
                Ok(Some(bytes)) => r matches Ok(Some(written)) && written@ == bytes,
                Ok(None) => r matches Ok(None),
                Err(e) => r == Err::<Option<Vec<u8>>, CommandError>(e),
            }),
    {
        let mut png = match Png::try_from(file) {
            Ok(png) => png,
            Err(e) => {
                return Err(CommandError::Png(e));
            },
        };
        if png.remove_chunk(chunk_type).is_some() {
            Ok(Some(png.as_bytes()))
        } else {
            Ok(None)
        }
    }
}

/// Whether the payload of `chunk` is a message: it reads as text, and the
/// text is not empty.
fn has_message(chunk: &Chunk) -> (r: bool)
    ensures
        r == holds_text(chunk@),
{
    match chunk.data_as_string() {
        Ok(text) => {
            proof {
                decode_utf8_encode_utf8(chunk@.data);
            }
            !text.as_str().is_empty()
        },
        Err(_) => false,
    }
}

/// The types listed for the first `i + 1` chunks are those listed for the
/// first `i`, and the type of the chunk at `i` where it holds a message.
proof fn lemma_text_chunk_types_step(chunks: Seq<ChunkView>, i: int)
    requires
        0 <= i < chunks.len(),
    ensures
        text_chunk_types(chunks.take(i + 1)) == (if holds_text(chunks[i]) {
            text_chunk_types(chunks.take(i)).push(chunks[i].chunk_type)
        } else {
            text_chunk_types(chunks.take(i))
        }),
{
    reveal(Seq::filter);
    let pred = |c: ChunkView| holds_text(c);
    assert(chunks.take(i + 1).drop_last() =~= chunks.take(i));
    assert(chunks.take(i + 1).last() == chunks[i]);
    if holds_text(chunks[i]) {
        assert(chunks.take(i + 1).filter(pred) =~= chunks.take(i).filter(pred).push(chunks[i]));
        assert(text_chunk_types(chunks.take(i + 1)) =~= text_chunk_types(chunks.take(i)).push(
            chunks[i].chunk_type,
        ));
    }
}

} // verus!
