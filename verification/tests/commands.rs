use pngme::chunk::{Chunk, ChunkParseError};
use pngme::chunk_type::{ChunkType, ChunkTypeError};
use pngme::commands::{Command, CommandError, Commands, Outcome};
use pngme::png::{Png, PngParseError, STANDARD_HEADER};
use std::convert::TryFrom;
use std::str::FromStr;

fn chunk_of(chunk_type: &str, payload: &[u8]) -> Chunk {
    Chunk::new(ChunkType::from_str(chunk_type).unwrap(), payload.to_vec())
}

fn file_of(chunks: &[Chunk]) -> Vec<u8> {
    let mut bytes = STANDARD_HEADER.to_vec();
    for chunk in chunks {
        bytes.extend_from_slice(&chunk.as_bytes());
    }
    bytes
}

fn plain_file() -> Vec<u8> {
    file_of(&[
        chunk_of("IHDR", &[0, 0, 0, 1, 0, 0, 0, 1, 8, 2, 0, 0, 0]),
        chunk_of("IDAT", &[0x78, 0x9c, 0x63, 0xf8, 0xff, 0xff]),
        chunk_of("IEND", b""),
    ])
}

fn types_in(file: &[u8]) -> Vec<String> {
    Png::try_from(file).unwrap().chunks().iter().map(|c| c.chunk_type().to_string()).collect()
}

fn count_in(file: &[u8], chunk_type: &str) -> usize {
    types_in(file).iter().filter(|t| t.as_str() == chunk_type).count()
}

#[test]
fn encode_puts_the_message_at_the_end() {
    let written = Commands.encode(&plain_file(), "RuSt", "hello").unwrap();
    assert_eq!(types_in(&written), vec!["IHDR", "IDAT", "IEND", "RuSt"]);
    let png = Png::try_from(written.as_slice()).unwrap();
    assert_eq!(png.chunks()[3].data(), b"hello");
    let mut expected = plain_file();
    expected.extend_from_slice(&chunk_of("RuSt", b"hello").as_bytes());
    assert_eq!(written, expected);
}

#[test]
fn encode_replaces_and_does_not_duplicate() {
    let first = Commands.encode(&plain_file(), "RuSt", "the old message").unwrap();
    let with_other = Commands.encode(&first, "teXt", "something else").unwrap();
    let second = Commands.encode(&with_other, "RuSt", "the new message").unwrap();
    assert_eq!(count_in(&second, "RuSt"), 1);
    assert_eq!(types_in(&second), vec!["IHDR", "IDAT", "IEND", "teXt", "RuSt"]);
    assert_eq!(
        Commands.decode(&second, "RuSt").unwrap(),
        Some(String::from("the new message"))
    );
    assert_eq!(
        Commands.decode(&second, "teXt").unwrap(),
        Some(String::from("something else"))
    );
}

#[test]
fn encode_takes_only_the_first_of_two_out() {
    let file = file_of(&[chunk_of("RuSt", b"one"), chunk_of("IEND", b""), chunk_of("RuSt", b"two")]);
    let written = Commands.encode(&file, "RuSt", "three").unwrap();
    let png = Png::try_from(written.as_slice()).unwrap();
    let found: Vec<(String, Vec<u8>)> = png
        .chunks()
        .iter()
        .map(|c| (c.chunk_type().to_string(), c.data().to_vec()))
        .collect();
    assert_eq!(
        found,
        vec![
            (String::from("IEND"), b"".to_vec()),
            (String::from("RuSt"), b"two".to_vec()),
            (String::from("RuSt"), b"three".to_vec()),
        ]
    );
}

#[test]
fn encode_rejects_text_that_is_no_type_code() {
    assert_eq!(
        Commands.encode(&plain_file(), "Ru1t", "hello").unwrap_err(),
        CommandError::ChunkType(ChunkTypeError::NotAlphabetic { index: 2, byte: b'1' })
    );
    assert_eq!(
        Commands.encode(&plain_file(), "RuStt", "hello").unwrap_err(),
        CommandError::ChunkType(ChunkTypeError::WrongLength { len: 5 })
    );
    assert_eq!(
        Commands.encode(&plain_file(), "", "hello").unwrap_err(),
        CommandError::ChunkType(ChunkTypeError::WrongLength { len: 0 })
    );
}

#[test]
fn encode_accepts_a_type_with_the_reserved_bit_set() {
    let written = Commands.encode(&plain_file(), "rust", "hello").unwrap();
    assert_eq!(types_in(&written), vec!["IHDR", "IDAT", "IEND", "rust"]);
}

#[test]
fn a_file_that_is_no_png_fails_every_workflow() {
    let bad = b"not a png at all".to_vec();
    let e = CommandError::Png(PngParseError::BadSignature);
    assert_eq!(Commands.encode(&bad, "RuSt", "hello").unwrap_err(), e);
    assert_eq!(Commands.decode(&bad, "RuSt").unwrap_err(), e);
    assert_eq!(Commands.remove(&bad, "RuSt").unwrap_err(), e);
    assert_eq!(Commands.print(&bad).unwrap_err(), e);
    assert_eq!(Commands.check(&bad).unwrap_err(), e);
    // the file is looked at before the type
    assert_eq!(Commands.encode(&bad, "Ru1t", "hello").unwrap_err(), e);
}

#[test]
fn a_corrupt_chunk_fails_every_workflow() {
    let mut bad = Commands.encode(&plain_file(), "RuSt", "hello").unwrap();
    let last = bad.len() - 1;
    bad[last] ^= 0x80;
    let offset = plain_file().len();
    let crc = chunk_of("RuSt", b"hello").crc();
    let e = CommandError::Png(PngParseError::Chunk {
        offset,
        error: ChunkParseError::ChecksumMismatch { stored: crc ^ 0x80, computed: crc },
    });
    assert_eq!(Commands.encode(&bad, "teXt", "x").unwrap_err(), e);
    assert_eq!(Commands.decode(&bad, "RuSt").unwrap_err(), e);
    assert_eq!(Commands.remove(&bad, "RuSt").unwrap_err(), e);
    assert_eq!(Commands.print(&bad).unwrap_err(), e);
    assert_eq!(Commands.check(&bad).unwrap_err(), e);
}

#[test]
fn decode_reads_the_message_back() {
    let written = Commands.encode(&plain_file(), "RuSt", "gr\u{fc}\u{df}e").unwrap();
    assert_eq!(Commands.decode(&written, "RuSt").unwrap(), Some(String::from("gr\u{fc}\u{df}e")));
    let written = Commands.encode(&plain_file(), "RuSt", "").unwrap();
    assert_eq!(Commands.decode(&written, "RuSt").unwrap(), Some(String::new()));
}

#[test]
fn decode_of_an_absent_type_is_none() {
    assert_eq!(Commands.decode(&plain_file(), "RuSt").unwrap(), None);
    assert_eq!(Commands.decode(&plain_file(), "Ru1t").unwrap(), None);
    assert_eq!(Commands.decode(&plain_file(), "toolong").unwrap(), None);
}

#[test]
fn decode_of_a_payload_that_is_no_text_fails() {
    assert_eq!(
        Commands.decode(&plain_file(), "IDAT").unwrap_err(),
        CommandError::InvalidEncoding
    );
}

#[test]
fn remove_takes_the_message_out() {
    let written = Commands.encode(&plain_file(), "RuSt", "hello").unwrap();
    let removed = Commands.remove(&written, "RuSt").unwrap().unwrap();
    assert_eq!(removed, plain_file());
    assert_eq!(Commands.decode(&removed, "RuSt").unwrap(), None);
}

#[test]
fn remove_of_an_absent_type_writes_nothing() {
    assert_eq!(Commands.remove(&plain_file(), "RuSt").unwrap(), None);
    assert_eq!(Commands.remove(&plain_file(), "Ru1t").unwrap(), None);
}

#[test]
fn print_lists_the_types_that_hold_a_message() {
    assert_eq!(Commands.print(&plain_file()).unwrap(), vec![ChunkType::from_str("IHDR").unwrap()]);
    let file = file_of(&[
        chunk_of("abCd", b"text"),
        chunk_of("IDAT", &[0xff]),
        chunk_of("teXt", b""),
        chunk_of("RuSt", b"more text"),
        chunk_of("abCd", b"again"),
    ]);
    let listed: Vec<String> = Commands.print(&file).unwrap().iter().map(|t| t.to_string()).collect();
    assert_eq!(listed, vec!["abCd", "RuSt", "abCd"]);
    assert_eq!(Commands.print(&STANDARD_HEADER).unwrap(), vec![]);
}

#[test]
fn check_tells_whether_a_message_is_hidden() {
    let none = file_of(&[chunk_of("IDAT", &[0xff]), chunk_of("IEND", b"")]);
    assert_eq!(Commands.check(&none), Ok(false));
    assert_eq!(Commands.check(&STANDARD_HEADER), Ok(false));
    let written = Commands.encode(&none, "RuSt", "hello").unwrap();
    assert_eq!(Commands.check(&written), Ok(true));
    let empty = Commands.encode(&none, "RuSt", "").unwrap();
    assert_eq!(Commands.check(&empty), Ok(false));
}

#[test]
fn process_carries_out_each_workflow() {
    let file = plain_file();
    let encode = Command::Encode { chunk_type: String::from("RuSt"), message: String::from("hello") };
    let written = match Commands.process(&encode, &file).unwrap() {
        Outcome::Encoded(bytes) => bytes,
        other => panic!("{:?}", other),
    };
    assert_eq!(written, Commands.encode(&file, "RuSt", "hello").unwrap());

    let decode = Command::Decode { chunk_type: String::from("RuSt") };
    match Commands.process(&decode, &written).unwrap() {
        Outcome::Decoded(found) => assert_eq!(found, Some(String::from("hello"))),
        other => panic!("{:?}", other),
    }
    match Commands.process(&decode, &file).unwrap() {
        Outcome::Decoded(found) => assert_eq!(found, None),
        other => panic!("{:?}", other),
    }

    let remove = Command::Remove { chunk_type: String::from("RuSt") };
    match Commands.process(&remove, &written).unwrap() {
        Outcome::Removed(bytes) => assert_eq!(bytes, Some(file.clone())),
        other => panic!("{:?}", other),
    }
    match Commands.process(&remove, &file).unwrap() {
        Outcome::Removed(bytes) => assert_eq!(bytes, None),
        other => panic!("{:?}", other),
    }

    match Commands.process(&Command::Print, &written).unwrap() {
        Outcome::Printed(types) => {
            let listed: Vec<String> = types.iter().map(|t| t.to_string()).collect();
            assert_eq!(listed, vec!["IHDR", "RuSt"]);
        }
        other => panic!("{:?}", other),
    }
    match Commands.process(&Command::Check, &written).unwrap() {
        Outcome::Checked(found) => assert!(found),
        other => panic!("{:?}", other),
    }
}

#[test]
fn process_hands_the_error_of_the_workflow_on() {
    let bad = Command::Encode { chunk_type: String::from("Ru1t"), message: String::from("x") };
    assert_eq!(
        Commands.process(&bad, &plain_file()).unwrap_err(),
        CommandError::ChunkType(ChunkTypeError::NotAlphabetic { index: 2, byte: b'1' })
    );
    assert_eq!(
        Commands.process(&Command::Check, b"short").unwrap_err(),
        CommandError::Png(PngParseError::BadSignature)
    );
    assert_eq!(
        Commands.process(&Command::Decode { chunk_type: String::from("IDAT") }, &plain_file())
            .unwrap_err(),
        CommandError::InvalidEncoding
    );
}
