use pngme::chunk::{u32_from_be_bytes, u32_to_be_bytes, Chunk, ChunkParseError, InvalidEncoding};
use pngme::chunk_type::{ChunkType, ChunkTypeError};
use pngme::text::decimal_string;
use std::convert::TryFrom;
use std::str::FromStr;

fn testing_chunk() -> Chunk {
    let data_length: u32 = 42;
    let chunk_type = "RuSt".as_bytes();
    let message_bytes = "This is where your secret message will be!".as_bytes();
    let crc: u32 = 2882656334;

    let chunk_data: Vec<u8> = data_length
        .to_be_bytes()
        .iter()
        .chain(chunk_type.iter())
        .chain(message_bytes.iter())
        .chain(crc.to_be_bytes().iter())
        .copied()
        .collect();

    Chunk::try_from(chunk_data.as_ref()).unwrap()
}

fn wire(length: u32, chunk_type: &[u8], payload: &[u8], crc: u32) -> Vec<u8> {
    let mut bytes = Vec::new();
    bytes.extend_from_slice(&length.to_be_bytes());
    bytes.extend_from_slice(chunk_type);
    bytes.extend_from_slice(payload);
    bytes.extend_from_slice(&crc.to_be_bytes());
    bytes
}

fn chunk_of(chunk_type: &str, payload: &[u8]) -> Chunk {
    Chunk::new(ChunkType::from_str(chunk_type).unwrap(), payload.to_vec())
}

#[test]
fn test_new_chunk() {
    let chunk_type = ChunkType::from_str("RuSt").unwrap();
    let data = "This is where your secret message will be!"
        .as_bytes()
        .to_vec();
    let chunk = Chunk::new(chunk_type, data);
    assert_eq!(chunk.length(), 42);
    assert_eq!(chunk.crc(), 2882656334);
}

#[test]
fn test_chunk_length() {
    let chunk = testing_chunk();
    assert_eq!(chunk.length(), 42);
}

#[test]
fn test_chunk_type() {
    let chunk = testing_chunk();
    assert_eq!(chunk.chunk_type().to_string(), String::from("RuSt"));
}

#[test]
fn test_chunk_string() {
    let chunk = testing_chunk();
    let chunk_string = chunk.data_as_string().unwrap();
    let expected_chunk_string = String::from("This is where your secret message will be!");
    assert_eq!(chunk_string, expected_chunk_string);
}

#[test]
fn test_chunk_crc() {
    let chunk = testing_chunk();
    assert_eq!(chunk.crc(), 2882656334);
}

#[test]
fn test_valid_chunk_from_bytes() {
    let data_length: u32 = 42;
    let chunk_type = "RuSt".as_bytes();
    let message_bytes = "This is where your secret message will be!".as_bytes();
    let crc: u32 = 2882656334;

    let chunk_data: Vec<u8> = data_length
        .to_be_bytes()
        .iter()
        .chain(chunk_type.iter())
        .chain(message_bytes.iter())
        .chain(crc.to_be_bytes().iter())
        .copied()
        .collect();

    let chunk = Chunk::try_from(chunk_data.as_ref()).unwrap();

    let chunk_string = chunk.data_as_string().unwrap();
    let expected_chunk_string = String::from("This is where your secret message will be!");

    assert_eq!(chunk.length(), 42);
    assert_eq!(chunk.chunk_type().to_string(), String::from("RuSt"));
    assert_eq!(chunk_string, expected_chunk_string);
    assert_eq!(chunk.crc(), 2882656334);
}

#[test]
fn test_invalid_chunk_from_bytes() {
    let data_length: u32 = 42;
    let chunk_type = "RuSt".as_bytes();
    let message_bytes = "This is where your secret message will be!".as_bytes();
    let crc: u32 = 2882656333;

    let chunk_data: Vec<u8> = data_length
        .to_be_bytes()
        .iter()
        .chain(chunk_type.iter())
        .chain(message_bytes.iter())
        .chain(crc.to_be_bytes().iter())
        .copied()
        .collect();

    let chunk = Chunk::try_from(chunk_data.as_ref());

    assert!(chunk.is_err());
}

#[test]
pub fn test_chunk_trait_impls() {
    let data_length: u32 = 42;
    let chunk_type = "RuSt".as_bytes();
    let message_bytes = "This is where your secret message will be!".as_bytes();
    let crc: u32 = 2882656334;

    let chunk_data: Vec<u8> = data_length
        .to_be_bytes()
        .iter()
        .chain(chunk_type.iter())
        .chain(message_bytes.iter())
        .chain(crc.to_be_bytes().iter())
        .copied()
        .collect();

    let chunk: Chunk = TryFrom::try_from(chunk_data.as_ref()).unwrap();

    let _chunk_string = format!("{}", chunk.to_string());
}

#[test]
fn checksum_is_crc32_iso_hdlc() {
    // the check value of the algorithm, and the checksum of nothing
    assert_eq!(Chunk::checksum(b"123456789"), 0xcbf4_3926);
    assert_eq!(Chunk::checksum(b""), 0);
    assert_eq!(Chunk::checksum(b"IEND"), 0xae42_6082);
    assert_eq!(
        Chunk::checksum(b"RuStThis is where your secret message will be!"),
        2882656334
    );
}

#[test]
fn crc_covers_type_then_payload() {
    let chunk = chunk_of("RuSt", b"abc");
    assert_eq!(chunk.crc(), Chunk::checksum(b"RuStabc"));
    assert_ne!(chunk.crc(), Chunk::checksum(b"abc"));
    assert_ne!(chunk.crc(), Chunk::checksum(b"abcRuSt"));
    assert_eq!(chunk_of("IEND", b"").crc(), 0xae42_6082);
}

#[test]
fn lengths_of_a_chunk() {
    let chunk = testing_chunk();
    assert_eq!(chunk.length(), 42);
    assert_eq!(chunk.chunk_length(), 54);
    let empty = chunk_of("IEND", b"");
    assert_eq!(empty.length(), 0);
    assert_eq!(empty.chunk_length(), 12);
}

#[test]
fn as_bytes_lays_out_length_type_payload_checksum() {
    let chunk = chunk_of("IEND", b"");
    assert_eq!(
        chunk.as_bytes(),
        vec![0, 0, 0, 0, b'I', b'E', b'N', b'D', 0xae, 0x42, 0x60, 0x82]
    );
    let chunk = testing_chunk();
    let bytes = chunk.as_bytes();
    assert_eq!(bytes.len(), 54);
    assert_eq!(&bytes[0..4], &[0, 0, 0, 42]);
    assert_eq!(&bytes[4..8], b"RuSt");
    assert_eq!(&bytes[8..50], b"This is where your secret message will be!".as_ref());
    assert_eq!(&bytes[50..54], &[0xab, 0xd1, 0xd8, 0x4e]);
    assert_eq!(
        bytes,
        wire(42, b"RuSt", b"This is where your secret message will be!", 2882656334)
    );
}

#[test]
fn length_field_is_big_endian() {
    let payload = vec![7u8; 0x0102];
    let bytes = chunk_of("RuSt", &payload).as_bytes();
    assert_eq!(&bytes[0..4], &[0, 0, 1, 2]);
    assert_eq!(bytes.len(), 0x0102 + 12);
}

#[test]
fn chunk_round_trip() {
    let payloads: Vec<Vec<u8>> = vec![
        vec![],
        vec![0],
        b"hello".to_vec(),
        vec![0xff, 0xfe, 0x00, 0x80],
        (0..=255u8).collect(),
        vec![0x41; 1000],
    ];
    for chunk_type in ["RuSt", "IHDR", "tEXt", "abcd", "ZZZZ"] {
        for payload in payloads.iter() {
            let chunk = chunk_of(chunk_type, payload);
            let parsed = Chunk::try_from(chunk.as_bytes().as_slice()).unwrap();
            assert_eq!(parsed.chunk_type(), chunk.chunk_type());
            assert_eq!(parsed.chunk_type().to_string(), chunk_type);
            assert_eq!(parsed.data(), payload.as_slice());
            assert_eq!(parsed.crc(), chunk.crc());
            assert_eq!(parsed.length(), payload.len());
            assert_eq!(parsed.as_bytes(), chunk.as_bytes());
        }
    }
}

#[test]
fn parse_ignores_what_follows_the_chunk() {
    let mut bytes = chunk_of("RuSt", b"abc").as_bytes();
    bytes.extend_from_slice(&[1, 2, 3, 4, 5]);
    let parsed = Chunk::try_from(bytes.as_slice()).unwrap();
    assert_eq!(parsed.data(), b"abc");
    assert_eq!(parsed.chunk_length(), 15);
}

#[test]
fn flipped_bit_in_type_or_payload_is_detected() {
    let good = testing_chunk().as_bytes();
    let crc = testing_chunk().crc();
    for index in 4..50 {
        for bit in 0..8 {
            let mut bytes = good.clone();
            bytes[index] ^= 1 << bit;
            let r = Chunk::try_from(bytes.as_slice());
            let type_still_letters = bytes[4..8].iter().all(|b| b.is_ascii_alphabetic());
            if type_still_letters {
                assert_eq!(
                    r.unwrap_err(),
                    ChunkParseError::ChecksumMismatch {
                        stored: crc,
                        computed: Chunk::checksum(&bytes[4..50]),
                    }
                );
            } else {
                assert!(matches!(r.unwrap_err(), ChunkParseError::InvalidType(_)));
            }
        }
    }
}

#[test]
fn flipped_bit_in_stored_checksum_is_detected() {
    let good = testing_chunk().as_bytes();
    for index in 50..54 {
        for bit in 0..8 {
            let mut bytes = good.clone();
            bytes[index] ^= 1 << bit;
            let stored = u32::from_be_bytes([bytes[50], bytes[51], bytes[52], bytes[53]]);
            assert_eq!(
                Chunk::try_from(bytes.as_slice()).unwrap_err(),
                ChunkParseError::ChecksumMismatch { stored, computed: 2882656334 }
            );
        }
    }
}

#[test]
fn checksum_mismatch_names_both_checksums() {
    let bytes = wire(42, b"RuSt", b"This is where your secret message will be!", 2882656333);
    assert_eq!(
        Chunk::try_from(bytes.as_slice()).unwrap_err(),
        ChunkParseError::ChecksumMismatch { stored: 2882656333, computed: 2882656334 }
    );
}

#[test]
fn parse_of_less_than_four_bytes_is_truncated() {
    for n in 0..4usize {
        let bytes = vec![0u8; n];
        assert_eq!(
            Chunk::try_from(bytes.as_slice()).unwrap_err(),
            ChunkParseError::Truncated { needed: 4, available: n as u64 }
        );
    }
}

#[test]
fn parse_of_less_than_the_length_calls_for_is_truncated() {
    let good = testing_chunk().as_bytes();
    for n in 4..54usize {
        assert_eq!(
            Chunk::try_from(&good[0..n]).unwrap_err(),
            ChunkParseError::Truncated { needed: 54, available: n as u64 }
        );
    }
    assert!(Chunk::try_from(&good[0..54]).is_ok());
    // the largest length there is, and nothing after it
    assert_eq!(
        Chunk::try_from([0xffu8, 0xff, 0xff, 0xff].as_ref()).unwrap_err(),
        ChunkParseError::Truncated { needed: 0x1_0000_000b, available: 4 }
    );
}

#[test]
fn truncation_is_reported_before_an_invalid_type() {
    let bytes = wire(5, b"Ru1t", b"abc", 0);
    assert_eq!(
        Chunk::try_from(bytes.as_slice()).unwrap_err(),
        ChunkParseError::Truncated { needed: 17, available: 15 }
    );
}

#[test]
fn invalid_type_is_reported_before_a_wrong_checksum() {
    let bytes = wire(3, b"Ru1t", b"abc", 0);
    assert_eq!(
        Chunk::try_from(bytes.as_slice()).unwrap_err(),
        ChunkParseError::InvalidType(ChunkTypeError::NotAlphabetic { index: 2, byte: b'1' })
    );
    let bytes = wire(3, b"Ru1t", b"abc", Chunk::checksum(b"Ru1tabc"));
    assert_eq!(
        Chunk::try_from(bytes.as_slice()).unwrap_err(),
        ChunkParseError::InvalidType(ChunkTypeError::NotAlphabetic { index: 2, byte: b'1' })
    );
}

#[test]
fn parse_of_an_empty_payload() {
    let bytes = wire(0, b"IEND", b"", 0xae42_6082);
    let chunk = Chunk::try_from(bytes.as_slice()).unwrap();
    assert_eq!(chunk.length(), 0);
    assert_eq!(chunk.chunk_length(), 12);
    assert_eq!(chunk.data(), b"");
    assert_eq!(chunk.data_as_string().unwrap(), "");
}

#[test]
fn payload_that_is_not_utf8_is_no_text() {
    assert_eq!(chunk_of("RuSt", &[0xff, 0xfe]).data_as_string(), Err(InvalidEncoding));
    assert_eq!(chunk_of("RuSt", &[b'a', 0x80]).data_as_string(), Err(InvalidEncoding));
    // a character cut short
    assert_eq!(chunk_of("RuSt", &[0xc3]).data_as_string(), Err(InvalidEncoding));
    assert_eq!(chunk_of("RuSt", &[0xc3, 0xa9]).data_as_string(), Ok(String::from("\u{e9}")));
    assert_eq!(
        chunk_of("RuSt", "gr\u{fc}\u{df}e \u{4e16}\u{754c}".as_bytes()).data_as_string(),
        Ok(String::from("gr\u{fc}\u{df}e \u{4e16}\u{754c}"))
    );
}

#[test]
fn clone_keeps_type_and_payload() {
    let chunk = testing_chunk();
    let copy = chunk.clone();
    assert_eq!(copy.chunk_type(), chunk.chunk_type());
    assert_eq!(copy.data(), chunk.data());
    assert_eq!(copy.as_bytes(), chunk.as_bytes());
}

#[test]
fn to_string_describes_the_chunk() {
    assert_eq!(
        testing_chunk().to_string(),
        "Chunk {    Length: 42    Type: RuSt    Data: 42 bytes    Crc: 2882656334}"
    );
    assert_eq!(
        chunk_of("IEND", b"").to_string(),
        "Chunk {    Length: 0    Type: IEND    Data: 0 bytes    Crc: 2923585666}"
    );
}

#[test]
fn big_endian_bytes_of_a_number() {
    assert_eq!(u32_to_be_bytes(0), [0, 0, 0, 0]);
    assert_eq!(u32_to_be_bytes(42), [0, 0, 0, 42]);
    assert_eq!(u32_to_be_bytes(0x0102_0304), [1, 2, 3, 4]);
    assert_eq!(u32_to_be_bytes(u32::MAX), [255, 255, 255, 255]);
    assert_eq!(u32_to_be_bytes(2882656334), 2882656334u32.to_be_bytes());
    assert_eq!(u32_from_be_bytes(&[1, 2, 3, 4], 0), 0x0102_0304);
    assert_eq!(u32_from_be_bytes(&[9, 0, 0, 0, 42, 9], 1), 42);
    assert_eq!(u32_from_be_bytes(&[255, 255, 255, 255], 0), u32::MAX);
    for x in [0u32, 1, 255, 256, 65535, 65536, 0x00ff_ffff, 0x0100_0000, 0x8000_0000, u32::MAX] {
        assert_eq!(u32_from_be_bytes(&u32_to_be_bytes(x), 0), x);
    }
}

#[test]
fn decimal_digits_of_a_number() {
    assert_eq!(decimal_string(0), "0");
    assert_eq!(decimal_string(7), "7");
    assert_eq!(decimal_string(10), "10");
    assert_eq!(decimal_string(4096), "4096");
    assert_eq!(decimal_string(2882656334), "2882656334");
    assert_eq!(decimal_string(u64::MAX), "18446744073709551615");
}
